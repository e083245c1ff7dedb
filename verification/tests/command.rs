use drift::command::{exit_status, output, COULD_NOT_RUN};
use drift::csv::parse_delimited;
use drift::diff::{apply_tolerance, compare, Report};
use drift::options::{check_key_ignore, delimiter, split_columns};

/// What one run of the command is asked for, besides the two files.
struct Ask {
    key: &'static str,
    ignore: Option<&'static str>,
    delimiter: Option<&'static str>,
    epsilon: Option<f64>,
    json: bool,
    summary: bool,
    quiet: bool,
}

fn ask(key: &'static str) -> Ask {
    Ask { key, ignore: None, delimiter: None, epsilon: None, json: false, summary: false, quiet: false }
}

fn same_number(a: &str, b: &str, eps: f64) -> bool {
    match (a.trim().parse::<f64>(), b.trim().parse::<f64>()) {
        (Ok(x), Ok(y)) => !(x.is_nan() || y.is_nan()) && (x - y).abs() <= eps,
        _ => false,
    }
}

fn forgive(r: Report, eps: f64) -> Report {
    let verdicts: Vec<Vec<bool>> = r
        .changed
        .iter()
        .map(|c| c.fields.iter().map(|(_, b, a)| same_number(b, a, eps)).collect())
        .collect();
    apply_tolerance(r, &verdicts)
}

/// The command's work on two documents already read: exit status, what it
/// prints, and what it complains of.
fn run(before: &str, after: &str, a: Ask) -> (u8, String, String) {
    let fail = |e: String| (COULD_NOT_RUN, String::new(), format!("drift: {e}"));
    let delim = match a.delimiter {
        Some(d) => match delimiter(d) {
            Ok(c) => c,
            Err(e) => return fail(e),
        },
        None => ',',
    };
    let keys = split_columns(a.key);
    let ignore = a.ignore.map(split_columns).unwrap_or_default();
    if let Err(e) = check_key_ignore(&keys, &ignore) {
        return fail(e);
    }
    let b = match parse_delimited(before, delim) {
        Ok(t) => t,
        Err(e) => return fail(format!("a.csv: {e}")),
    };
    let t = match parse_delimited(after, delim) {
        Ok(t) => t,
        Err(e) => return fail(format!("b.csv: {e}")),
    };
    let r = match compare(&b, &t, &keys, &ignore) {
        Ok(r) => r,
        Err(e) => return fail(e),
    };
    let r = match a.epsilon {
        Some(eps) => forgive(r, eps),
        None => r,
    };
    let out = output(&r, &keys, a.json, a.summary, a.quiet, false);
    (exit_status(&r), out, String::new())
}

#[test]
fn identical_files_exit_zero() {
    let (code, out, _) = run("id,v\n1,a\n", "id,v\n1,a\n", ask("id"));
    assert_eq!(code, 0, "{out}");
    assert!(out.contains("no differences"), "{out}");
}

#[test]
fn a_difference_exits_one() {
    let (code, out, _) = run("id,v\n1,a\n", "id,v\n1,z\n", ask("id"));
    assert_eq!(code, 1, "{out}");
    assert!(out.contains("changed"), "{out}");
    assert!(out.contains("a → z"), "{out}");
}

#[test]
fn a_key_that_is_also_ignored_is_rejected() {
    let (code, _, err) = run("id,v\n1,a\n", "id,v\n1,a\n", Ask { ignore: Some("id"), ..ask("id") });
    assert_eq!(code, 2, "{err}");
    assert!(err.contains("both a key and ignored"), "{err}");
}

#[test]
fn quiet_prints_nothing_but_keeps_the_exit_code() {
    let (code, out, _) = run("id,v\n1,a\n", "id,v\n1,z\n", Ask { quiet: true, ..ask("id") });
    assert_eq!(code, 1);
    assert!(out.is_empty(), "{out:?}");
}

#[test]
fn json_wins_over_quiet() {
    let (code, out, _) =
        run("id,v\n1,a\n", "id,v\n1,z\n", Ask { quiet: true, json: true, ..ask("id") });
    assert_eq!(code, 1);
    assert!(out.contains("\"identical\": false"), "{out}");
    assert!(out.trim_end().ends_with('}'), "{out}");
}

#[test]
fn duplicate_keys_are_warned_about_even_when_nothing_else_moved() {
    let (code, out, _) = run("id,v\n1,a\n1,a\n", "id,v\n1,a\n1,a\n", ask("id"));
    // The data is identical, so the exit code stays 0.
    assert_eq!(code, 0, "{out}");
    assert!(out.contains("duplicate key"), "{out}");
}

#[test]
fn a_composite_key_matches_on_both_parts() {
    let (code, out, _) = run(
        "region,id,v\nus,1,a\neu,1,b\n",
        "region,id,v\nus,1,a\neu,1,Z\n",
        ask("region,id"),
    );
    assert_eq!(code, 1, "{out}");
    assert!(out.contains("eu · 1"), "{out}");
}

#[test]
fn ignore_drops_a_column_from_the_comparison() {
    let (code, out, _) = run(
        "id,v,updated\n1,a,09:00\n",
        "id,v,updated\n1,a,17:00\n",
        Ask { ignore: Some("updated"), ..ask("id") },
    );
    assert_eq!(code, 0, "{out}");
}

#[test]
fn epsilon_absorbs_float_noise_from_the_command_line() {
    let (code, out, _) = run(
        "id,v\n1,0.1000001\n",
        "id,v\n1,0.1000002\n",
        Ask { epsilon: Some(1e-6), ..ask("id") },
    );
    assert_eq!(code, 0, "{out}");
}

#[test]
fn a_tab_delimited_file_diffs_with_delimiter_tab() {
    let (code, out, _) =
        run("id\tv\n1\ta\n", "id\tv\n1\tz\n", Ask { delimiter: Some("tab"), ..ask("id") });
    assert_eq!(code, 1, "{out}");
    assert!(out.contains("a → z"), "{out}");
}

#[test]
fn a_quoted_tab_in_a_tsv_field_is_not_a_column_break() {
    let (code, out, _) = run(
        "id\tv\n1\t\"x\ty\"\n",
        "id\tv\n1\t\"x\ty\"\n",
        Ask { delimiter: Some("tab"), ..ask("id") },
    );
    assert_eq!(code, 0, "{out}");
    assert!(out.contains("no differences"), "{out}");
}

#[test]
fn a_semicolon_delimiter_is_accepted() {
    let (code, out, _) =
        run("id;v\n1;a\n", "id;v\n1;z\n", Ask { delimiter: Some(";"), ..ask("id") });
    assert_eq!(code, 1, "{out}");
    assert!(out.contains("a → z"), "{out}");
}

#[test]
fn a_multi_character_delimiter_is_rejected() {
    let (code, _, err) =
        run("id,v\n1,a\n", "id,v\n1,a\n", Ask { delimiter: Some("::"), ..ask("id") });
    assert_eq!(code, 2, "{err}");
    assert!(err.contains("single character"), "{err}");
}

#[test]
fn summary_prints_counts_not_per_field_detail() {
    let (code, out, _) =
        run("id,v\n1,a\n2,b\n", "id,v\n1,z\n3,c\n", Ask { summary: true, ..ask("id") });
    assert_eq!(code, 1, "{out}");
    assert!(out.contains("rows · 1 added · 1 removed · 1 changed"), "{out}");
    // The per-field detail is not printed in summary mode.
    assert!(!out.contains("a → z"), "{out}");
}

#[test]
fn summary_of_identical_files_exits_zero() {
    let (code, out, _) = run("id,v\n1,a\n", "id,v\n1,a\n", Ask { summary: true, ..ask("id") });
    assert_eq!(code, 0, "{out}");
    assert!(out.contains("0 changed · 1 unchanged"), "{out}");
}

#[test]
fn summary_reports_duplicate_key_counts() {
    let (code, out, _) =
        run("id,v\n1,a\n1,a\n", "id,v\n1,a\n1,a\n", Ask { summary: true, ..ask("id") });
    assert_eq!(code, 0, "{out}");
    assert!(out.contains("duplicate key"), "{out}");
}

#[test]
fn summary_json_emits_just_the_counts_object() {
    let (code, out, _) = run(
        "id,v\n1,a\n2,b\n",
        "id,v\n1,z\n3,c\n",
        Ask { summary: true, json: true, ..ask("id") },
    );
    assert_eq!(code, 1, "{out}");
    assert!(out.contains("\"rowsChanged\": 1"), "{out}");
    assert!(out.contains("\"rowsAdded\": 1"), "{out}");
    assert!(out.contains("\"rowsRemoved\": 1"), "{out}");
    // The full report's per-row detail is absent.
    assert!(!out.contains("\"before\""), "{out}");
    assert!(out.trim_end().ends_with('}'), "{out}");
}

#[test]
fn a_bom_in_the_export_does_not_hide_the_key_column() {
    let (code, out, err) = run("\u{feff}id,v\n1,a\n", "\u{feff}id,v\n1,z\n", ask("id"));
    assert_eq!(code, 1, "out={out} err={err}");
    assert!(out.contains("a → z"), "{out}");
}

#[test]
fn summary_json_of_identical_files_says_identical() {
    let (code, out, _) = run(
        "id,v\n1,a\n",
        "id,v\n1,a\n",
        Ask { summary: true, json: true, quiet: true, ..ask("id") },
    );
    assert_eq!(code, 0);
    assert_eq!(
        out,
        "{\n  \"identical\": true,\n  \"columnsAdded\": 0,\n  \"columnsRemoved\": 0,\n  \"columnsReordered\": false,\n  \"rowsAdded\": 0,\n  \"rowsRemoved\": 0,\n  \"rowsChanged\": 0,\n  \"duplicateKeys\": 0,\n  \"unchanged\": 1\n}\n"
    );
}

#[test]
fn the_full_listing_is_exact() {
    let (code, out, _) = run(
        "id,v,gone\n1,a,x\n2,b,y\n4,d,w\n",
        "id,v,new\n1,z,p\n3,c,q\n4,d,r\n",
        ask("id"),
    );
    assert_eq!(code, 1);
    assert_eq!(
        out,
        "schema\n  − column gone\n  + column new\n\nchanged · 1\n  1\n    v: a → z\n\nremoved · 1\n  − 2\n\nadded · 1\n  + 3\n\n1 unchanged · 1 changed · 1 added · 1 removed\n"
    );
}

#[test]
fn a_missing_key_column_cannot_run() {
    let (code, _, err) = run("a\n1\n", "a\n1\n", ask("id"));
    assert_eq!(code, 2);
    assert_eq!(err, "drift: no column \"id\" in the first file; it has a");
}

#[test]
fn an_unterminated_quote_cannot_run() {
    let (code, _, err) = run("id,v\n1,\"a\n", "id,v\n1,a\n", ask("id"));
    assert_eq!(code, 2);
    assert_eq!(err, "drift: a.csv: unterminated quote starting before line 3");
}
