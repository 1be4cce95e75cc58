use log_reader::aggregate::aggregate_text;
use log_reader::aggregate::AggregateResult;
use log_reader::digits::get_str_len;
use log_reader::text::split_lines;

fn entry<'a>(r: &'a AggregateResult, key: &str) -> &'a log_reader::aggregate::TypedEntry {
    r.entries
        .iter()
        .find(|e| e.key == key)
        .unwrap_or_else(|| panic!("no bucket for key {}", key))
}

#[test]
fn digit_lengths() {
    assert_eq!(get_str_len(0), 1);
    assert_eq!(get_str_len(9), 1);
    assert_eq!(get_str_len(10), 2);
    assert_eq!(get_str_len(99), 2);
    assert_eq!(get_str_len(100), 3);
    assert_eq!(get_str_len(999), 3);
    assert_eq!(get_str_len(1000), 4);
}

#[test]
fn splits_on_newlines_and_strips_carriage_returns() {
    let lines = split_lines("a\nbc\r\nd");
    assert_eq!(lines, vec!["a".to_string(), "bc".to_string(), "d".to_string()]);
    let lines = split_lines("a\n\nb\n");
    assert_eq!(lines, vec!["a".to_string(), "".to_string(), "b".to_string(), "".to_string()]);
    let lines = split_lines("");
    assert_eq!(lines, vec!["".to_string()]);
}

#[test]
fn mixed_input_with_one_invalid_line() {
    let input = "{\"type\":\"A\"}\n{\"type\":\"A\"}\n{\"type\":\"B\"}\nnot json\n";
    let r = aggregate_text(input);
    let inv = r.invalid.as_ref().expect("one line fails to parse");
    assert_eq!(inv.count, 1);
    assert_eq!(inv.total_bytes, "not json".len());
    assert_eq!(r.entries.len(), 2);
    let a = entry(&r, "\"A\"");
    assert_eq!(a.count, 2);
    assert_eq!(a.total_bytes, 2 * "{\"type\":\"A\"}".len());
    let b = entry(&r, "\"B\"");
    assert_eq!(b.count, 1);
    assert_eq!(b.total_bytes, "{\"type\":\"B\"}".len());
}

#[test]
fn counts_partition_the_nonempty_lines() {
    let input = "{\"type\":\"A\"}\n\nbroken\n{\"type\":\"B\"}\n{\"type\":\"A\"}\nalso broken\n\n";
    let r = aggregate_text(input);
    let valid: usize = r.entries.iter().map(|e| e.count).sum();
    let invalid = r.invalid.as_ref().map(|e| e.count).unwrap_or(0);
    let nonempty = input.lines().filter(|l| l.len() > 0).count();
    assert_eq!(valid + invalid, nonempty);
}

#[test]
fn empty_input_has_no_buckets() {
    let r = aggregate_text("");
    assert!(r.invalid.is_none());
    assert!(r.entries.is_empty());
}

#[test]
fn valid_json_without_type_field_is_invalid() {
    let r = aggregate_text("{\"notype\":1}\n");
    assert!(r.entries.is_empty());
    let inv = r.invalid.as_ref().expect("line lacks a type field");
    assert_eq!(inv.count, 1);
    assert_eq!(inv.total_bytes, "{\"notype\":1}".len());
}

#[test]
fn numeric_and_string_types_make_distinct_buckets() {
    let r = aggregate_text("{\"type\":42}\n{\"type\":\"42\"}\n");
    assert!(r.invalid.is_none());
    assert_eq!(r.entries.len(), 2);
    let num = entry(&r, "42");
    assert_eq!(num.count, 1);
    let quoted = entry(&r, "\"42\"");
    assert_eq!(quoted.count, 1);
}

#[test]
fn non_object_json_is_invalid() {
    let r = aggregate_text("[1,2,3]\n\"just a string\"\n7\n");
    assert!(r.entries.is_empty());
    assert_eq!(r.invalid.as_ref().unwrap().count, 3);
}

#[test]
fn whitespace_only_lines_are_counted_as_invalid() {
    let r = aggregate_text(" \n");
    let inv = r.invalid.as_ref().expect("a whitespace line is kept and fails to parse");
    assert_eq!(inv.count, 1);
    assert_eq!(inv.total_bytes, 1);
}

#[test]
fn line_lengths_are_measured_in_bytes() {
    let input = "{\"type\":\"\u{e9}\"}\n";
    let r = aggregate_text(input);
    let e = entry(&r, "\"\u{e9}\"");
    assert_eq!(e.count, 1);
    assert_eq!(e.total_bytes, "{\"type\":\"\u{e9}\"}".len());
    assert_eq!(e.total_bytes, 13);
}

#[test]
fn crlf_terminators_do_not_count_toward_bytes() {
    let r = aggregate_text("{\"type\":\"A\"}\r\n");
    let a = entry(&r, "\"A\"");
    assert_eq!(a.total_bytes, "{\"type\":\"A\"}".len());
}

#[test]
fn aggregation_is_deterministic() {
    let input = "{\"type\":\"z\"}\n{\"type\":\"a\"}\nnope\n{\"type\":\"a\"}\n";
    let first = aggregate_text(input);
    let second = aggregate_text(input);
    assert_eq!(first, second);
}

#[test]
fn entries_come_out_sorted_by_key() {
    let input = "{\"type\":\"c\"}\n{\"type\":\"a\"}\n{\"type\":42}\n{\"type\":\"b\"}\n";
    let r = aggregate_text(input);
    let keys: Vec<&str> = r.entries.iter().map(|e| e.key.as_str()).collect();
    let mut sorted = keys.clone();
    sorted.sort();
    assert_eq!(keys, sorted);
    assert_eq!(keys, vec!["\"a\"", "\"b\"", "\"c\"", "42"]);
}

#[test]
fn nested_type_values_use_their_serialized_form() {
    let r = aggregate_text("{\"type\":{\"b\":1,\"a\":2}}\n{\"type\":[1,2]}\nnull\n");
    assert_eq!(r.entries.len(), 2);
    assert_eq!(entry(&r, "{\"a\":2,\"b\":1}").count, 1);
    assert_eq!(entry(&r, "[1,2]").count, 1);
    assert_eq!(r.invalid.as_ref().unwrap().count, 1);
}
