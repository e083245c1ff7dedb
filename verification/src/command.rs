//! What the command does with a finished comparison: what it prints and the
//! status it exits with.
//!
//! The exit status is the answer for a script: `0` identical, `1`
//! differences found, `2` could not run. It depends on the report alone, so
//! `--summary` and `--json` are narrower or other views of the same answer.
use vstd::prelude::*;
use crate::csv::Text;
use crate::diff::{Report, ReportModel, differs, texts};
use crate::json::{json_report, json_summary};
use crate::render::{report_text, summary_text};

verus! {

/// The status for a comparison that could not be made at all.
pub const COULD_NOT_RUN: u8 = 2;

/// `1` when anything differs, `0` when the data did not move. Duplicate keys
/// alone are no difference.
pub open spec fn status_of(r: ReportModel) -> u8 {
    if differs(r) {
        1
    } else {
        0
    }
}

/// The exit status for a finished comparison.
pub fn exit_status(r: &Report) -> (code: u8)
    ensures
        code == status_of(r@),
{
    if r.any() {
        1
    } else {
        0
    }
}

/// What the command prints for a report. Asking for JSON wins over
/// `quiet`: the report, or with `summary` just the counts object. Otherwise
/// `quiet` prints nothing, and the text is the summary or the full listing.
pub open spec fn output_text(
    r: ReportModel,
    keys: Seq<Text>,
    json: bool,
    summary: bool,
    quiet: bool,
    color: bool,
) -> Text {
    if json {
        if summary {
            json_summary(r)
        } else {
            json_report(r, keys)
        }
    } else if quiet {
        Seq::empty()
    } else if summary {
        summary_text(r, color)
    } else {
        report_text(r, color)
    }
}

/// The text the command prints for a report.
pub fn output(
    r: &Report,
    keys: &[String],
    json: bool,
    summary: bool,
    quiet: bool,
    color: bool,
) -> (out: String)
    ensures
        out@ == output_text(r@, texts(keys@), json, summary, quiet, color),
{
    if json {
        if summary {
            crate::json::summary(r)
        } else {
            crate::json::report(r, keys)
        }
    } else if quiet {
        String::new()
    } else if summary {
        crate::render::render_summary(r, color)
    } else {
        crate::render::render(r, color)
    }
}

} // verus!
