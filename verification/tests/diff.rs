use drift::csv::parse;
use drift::diff::{apply_tolerance, compare, show_key, Key, Report};

/// Keys as display strings, so an assertion reads as the output does
/// rather than as a vector of vectors.
fn shown(keys: &[Key]) -> Vec<String> {
    keys.iter().map(|k| show_key(k)).collect()
}

fn cmp(a: &str, b: &str) -> Report {
    compare(&parse(a).unwrap(), &parse(b).unwrap(), &["id".into()], &[]).unwrap()
}

/// Numeric where both sides parse as numbers and neither is NaN; anything
/// else is not the same number.
fn same_number(a: &str, b: &str, eps: f64) -> bool {
    match (a.trim().parse::<f64>(), b.trim().parse::<f64>()) {
        (Ok(x), Ok(y)) => !(x.is_nan() || y.is_nan()) && (x - y).abs() <= eps,
        _ => false,
    }
}

fn cmp_eps(a: &str, b: &str, eps: f64) -> Report {
    let r = compare(&parse(a).unwrap(), &parse(b).unwrap(), &["id".into()], &[]).unwrap();
    let verdicts: Vec<Vec<bool>> = r
        .changed
        .iter()
        .map(|c| c.fields.iter().map(|(_, b, a)| same_number(b, a, eps)).collect())
        .collect();
    apply_tolerance(r, &verdicts)
}

#[test]
fn identical_files_report_nothing() {
    let r = cmp("id,v\n1,a\n", "id,v\n1,a\n");
    assert!(!r.any());
    assert_eq!(r.unchanged, 1);
}

#[test]
fn a_moved_row_is_not_a_change() {
    // The whole reason for keying rather than diffing line by line.
    let r = cmp("id,v\n1,a\n2,b\n", "id,v\n2,b\n1,a\n");
    assert!(!r.any());
    assert_eq!(r.unchanged, 2);
}

#[test]
fn changed_field_names_the_column_and_both_values() {
    let r = cmp("id,v\n1,a\n", "id,v\n1,z\n");
    assert_eq!(r.changed.len(), 1);
    assert_eq!(r.changed[0].fields[0], ("v".into(), "a".into(), "z".into()));
}

#[test]
fn added_and_removed_rows() {
    let r = cmp("id,v\n1,a\n2,b\n", "id,v\n2,b\n3,c\n");
    assert_eq!(shown(&r.removed_rows), ["1"]);
    assert_eq!(shown(&r.added_rows), ["3"]);
}

#[test]
fn schema_changes_are_separate_from_row_changes() {
    let r = cmp("id,v\n1,a\n", "id,v,extra\n1,a,x\n");
    assert_eq!(r.added_columns, ["extra"]);
    // The new column must not also be reported as a change on every row.
    assert!(r.changed.is_empty());
    assert_eq!(r.unchanged, 1);
}

#[test]
fn removed_column_is_reported_once_not_per_row() {
    let r = cmp("id,v,gone\n1,a,x\n2,b,y\n", "id,v\n1,a\n2,b\n");
    assert_eq!(r.removed_columns, ["gone"]);
    assert!(r.changed.is_empty());
}

#[test]
fn reordering_columns_is_flagged_but_is_not_a_row_change() {
    let r = cmp("id,a,b\n1,x,y\n", "id,b,a\n1,y,x\n");
    assert!(r.reordered);
    assert!(r.changed.is_empty());
}

#[test]
fn duplicate_keys_are_reported() {
    let r = cmp("id,v\n1,a\n1,b\n", "id,v\n1,a\n");
    assert_eq!(shown(&r.duplicate_keys), ["1"]);
}

#[test]
fn missing_key_column_names_what_is_there() {
    let e = compare(&parse("a\n1\n").unwrap(), &parse("a\n1\n").unwrap(), &["id".into()], &[])
        .unwrap_err();
    assert!(e.contains("\"id\""), "{e}");
    assert!(e.contains("it has a"), "{e}");
}

#[test]
fn tolerance_absorbs_float_noise() {
    // The case this exists for: a pipeline re-run that changes the last
    // digit of every float and nothing else.
    let r = cmp_eps("id,v\n1,0.1000001\n", "id,v\n1,0.1000002\n", 1e-6);
    assert!(!r.any());
    assert_eq!(r.unchanged, 1);
}

#[test]
fn tolerance_still_reports_a_real_move() {
    let r = cmp_eps("id,v\n1,10.0\n", "id,v\n1,10.5\n", 1e-6);
    assert_eq!(r.changed.len(), 1);
}

#[test]
fn tolerance_does_not_apply_to_text() {
    // "one" does not parse, so this must stay a change rather than being
    // waved through because the comparison could not be made.
    let r = cmp_eps("id,v\n1,one\n", "id,v\n1,two\n", 1000.0);
    assert_eq!(r.changed.len(), 1);
}

#[test]
fn tolerance_treats_equal_text_as_equal() {
    let r = cmp_eps("id,v\n1,abc\n", "id,v\n1,abc\n", 1e-9);
    assert!(!r.any());
}

#[test]
fn nan_is_never_unchanged() {
    let r = cmp_eps("id,v\n1,NaN\n", "id,v\n1,NaN\n", 1e9);
    // Byte-equal, so it is unchanged; the guard is that tolerance does not
    // additionally declare two different NaN spellings equal.
    assert!(!r.any());
    let r2 = cmp_eps("id,v\n1,NaN\n", "id,v\n1,nan\n", 1e9);
    assert_eq!(r2.changed.len(), 1);
}

#[test]
fn exact_mode_sees_formatting_changes() {
    let r = cmp("id,v\n1,1.0\n", "id,v\n1,1.00\n");
    assert_eq!(r.changed.len(), 1);
    // And tolerance is what makes them the same number.
    assert!(!cmp_eps("id,v\n1,1.0\n", "id,v\n1,1.00\n", 0.0).any());
}

#[test]
fn output_order_is_stable() {
    let r = cmp("id,v\n3,a\n1,a\n2,a\n", "id,v\n\n");
    assert_eq!(shown(&r.removed_rows), ["1", "2", "3"]);
}

fn cmp_keys(a: &str, b: &str, keys: &[&str], ignore: &[&str]) -> Report {
    compare(
        &parse(a).unwrap(),
        &parse(b).unwrap(),
        &keys.iter().map(|k| k.to_string()).collect::<Vec<_>>(),
        &ignore.iter().map(|k| k.to_string()).collect::<Vec<_>>(),
    )
    .unwrap()
}

#[test]
fn composite_key_identifies_a_row_by_both_columns() {
    // Neither column alone is unique; together they are.
    let before = "region,id,v\nus,1,a\neu,1,b\n";
    let after = "region,id,v\nus,1,a\neu,1,CHANGED\n";
    let r = cmp_keys(before, after, &["region", "id"], &[]);
    assert_eq!(r.unchanged, 1);
    assert_eq!(
        shown(&r.changed.iter().map(|c| c.key.clone()).collect::<Vec<_>>()),
        ["eu · 1"]
    );
}

#[test]
fn a_single_column_key_is_not_reported_as_a_duplicate_when_composite() {
    // Keyed on id alone these two rows collide; keyed on both they do not.
    let f = "region,id,v\nus,1,a\neu,1,b\n";
    assert!(cmp_keys(f, f, &["id"], &[]).duplicate_keys.len() == 1);
    assert!(cmp_keys(f, f, &["region", "id"], &[]).duplicate_keys.is_empty());
}

#[test]
fn key_parts_are_not_joined_into_an_ambiguous_string() {
    // ("a,b", "c") and ("a", "b,c") would be the same key under any
    // separator-joining scheme, which would pair two unrelated rows.
    let before = "x,y,v\n\"a,b\",c,1\na,\"b,c\",2\n";
    let after = before;
    let r = cmp_keys(before, after, &["x", "y"], &[]);
    assert!(r.duplicate_keys.is_empty(), "{:?}", r.duplicate_keys);
    assert_eq!(r.unchanged, 2);
}

#[test]
fn an_ignored_column_cannot_make_a_row_changed() {
    let before = "id,v,updated\n1,a,09:00\n";
    let after = "id,v,updated\n1,a,17:00\n";
    assert_eq!(cmp_keys(before, after, &["id"], &[]).changed.len(), 1);

    let r = cmp_keys(before, after, &["id"], &["updated"]);
    assert!(r.changed.is_empty());
    assert_eq!(r.unchanged, 1);
}

#[test]
fn ignoring_a_column_does_not_hide_a_real_change_elsewhere() {
    let before = "id,v,updated\n1,a,09:00\n";
    let after = "id,v,updated\n1,CHANGED,17:00\n";
    let r = cmp_keys(before, after, &["id"], &["updated"]);
    assert_eq!(r.changed.len(), 1);
    // Only the column that actually moved, not the ignored one.
    assert_eq!(r.changed[0].fields.len(), 1);
    assert_eq!(r.changed[0].fields[0].0, "v");
}

#[test]
fn ignoring_a_column_that_does_not_exist_is_harmless() {
    let f = "id,v\n1,a\n";
    assert_eq!(cmp_keys(f, f, &["id"], &["nosuch"]).unchanged, 1);
}

#[test]
fn a_missing_key_column_says_which_file() {
    let e = compare(&parse("id,v\n1,a\n").unwrap(), &parse("v\na\n").unwrap(), &["id".into()], &[])
        .unwrap_err();
    assert!(e.contains("second"), "{e}");
}

#[test]
fn no_key_columns_is_an_error() {
    let t = parse("id\n1\n").unwrap();
    assert!(compare(&t, &t, &[], &[]).is_err());
}
