use drift::csv::parse;
use drift::diff::compare;
use drift::json::{escape, report};

fn report_for(before: &str, after: &str) -> String {
    let b = parse(before).unwrap();
    let a = parse(after).unwrap();
    let keys = vec!["id".to_string()];
    let r = compare(&b, &a, &keys, &[]).unwrap();
    report(&r, &keys)
}

#[test]
fn escapes_the_characters_that_would_break_the_output() {
    assert_eq!(escape("a\"b"), "a\\\"b");
    assert_eq!(escape("a\\b"), "a\\\\b");
    assert_eq!(escape("a\nb"), "a\\nb");
    assert_eq!(escape("a\rb"), "a\\rb");
    assert_eq!(escape("a\tb"), "a\\tb");
}

#[test]
fn escapes_control_characters_without_a_shorthand() {
    // A raw control byte is invalid JSON and CSV fields carry them.
    assert_eq!(escape("a\u{0}b"), "a\\u0000b");
    assert_eq!(escape("a\u{1f}b"), "a\\u001fb");
    assert_eq!(escape("a\u{08}b"), "a\\bb");
    assert_eq!(escape("a\u{0c}b"), "a\\fb");
}

#[test]
fn leaves_slashes_and_unicode_alone() {
    // Legal either way, and escaping them makes every path unreadable.
    assert_eq!(escape("a/b"), "a/b");
    assert_eq!(escape("café"), "café");
}

#[test]
fn an_identical_pair_says_so() {
    let out = report_for("id,v\n1,a\n", "id,v\n1,a\n");
    assert!(out.contains("\"identical\": true"), "{out}");
    assert!(out.contains("\"unchanged\": 1"), "{out}");
}

#[test]
fn a_changed_field_is_reported_with_both_values() {
    let out = report_for("id,v\n1,a\n", "id,v\n1,b\n");
    assert!(out.contains("\"identical\": false"), "{out}");
    assert!(out.contains("\"column\": \"v\""), "{out}");
    assert!(out.contains("\"before\": \"a\""), "{out}");
    assert!(out.contains("\"after\": \"b\""), "{out}");
}

#[test]
fn added_and_removed_rows_carry_their_key_parts() {
    let out = report_for("id,v\n1,a\n", "id,v\n2,a\n");
    assert!(out.contains("\"addedRows\": [[\"2\"]]"), "{out}");
    assert!(out.contains("\"removedRows\": [[\"1\"]]"), "{out}");
}

#[test]
fn a_key_is_an_array_rather_than_a_joined_string() {
    // A consumer that has to split "a · b" back apart is one whose data
    // cannot contain the separator.
    let b = parse("a,b,v\nx,y,1\n").unwrap();
    let a = parse("a,b,v\nx,y,2\n").unwrap();
    let keys = vec!["a".to_string(), "b".to_string()];
    let r = compare(&b, &a, &keys, &[]).unwrap();
    let out = report(&r, &keys);
    assert!(out.contains("\"key\": [\"x\", \"y\"]"), "{out}");
}

#[test]
fn schema_changes_are_reported() {
    let out = report_for("id,v\n1,a\n", "id,v,extra\n1,a,z\n");
    assert!(out.contains("\"addedColumns\": [\"extra\"]"), "{out}");
    assert!(out.contains("\"removedColumns\": []"), "{out}");
}

#[test]
fn a_value_containing_a_quote_survives_the_round_trip() {
    // The case that produces output which parses most of the time.
    let out = report_for("id,v\n1,plain\n", "id,v\n1,\"say \"\"hi\"\"\"\n");
    assert!(out.contains("say \\\"hi\\\""), "{out}");
}

#[test]
fn the_output_is_one_object_ending_in_a_newline() {
    let out = report_for("id,v\n1,a\n", "id,v\n1,a\n");
    assert!(out.starts_with('{'));
    assert!(out.ends_with("}\n"));
}

#[test]
fn no_field_is_followed_by_a_trailing_comma() {
    // The classic hand-rolled-JSON bug: valid to a lenient reader and
    // rejected by a strict one.
    let out = report_for("id,v\n1,a\n", "id,v\n1,b\n");
    assert!(!out.contains(",\n}"), "{out}");
    assert!(!out.contains(",]"), "{out}");
    assert!(!out.contains(", ]"), "{out}");
    assert!(!out.contains(",}"), "{out}");
}
