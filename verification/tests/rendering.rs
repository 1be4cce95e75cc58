use log_reader::aggregate::aggregate_text;
use log_reader::render::render;

#[test]
fn empty_input_renders_only_the_valid_summary() {
    let r = aggregate_text("");
    let lines = render(&r);
    assert_eq!(lines, vec!["Found 0 valid log types".to_string()]);
}

#[test]
fn all_invalid_input_renders_both_summaries_and_no_table() {
    let r = aggregate_text("junk\nmore junk\n");
    let lines = render(&r);
    assert_eq!(
        lines,
        vec![
            "Found 2 invalid log lines (13 bytes)".to_string(),
            "Found 0 valid log types".to_string(),
        ]
    );
}

#[test]
fn full_report_for_a_mixed_input() {
    let input = "{\"type\":\"A\"}\n{\"type\":\"A\"}\n{\"type\":\"B\"}\nnot json\n";
    let r = aggregate_text(input);
    let lines = render(&r);
    assert_eq!(
        lines,
        vec![
            "Found 1 invalid log lines (8 bytes)".to_string(),
            "Found 2 valid log types".to_string(),
            "\u{250f}\u{2501}\u{2501}\u{2501}\u{2501}\u{2501}\u{2501}\u{2533}\u{2501}\u{2501}\u{2501}\u{2501}\u{2501}\u{2501}\u{2501}\u{2533}\u{2501}\u{2501}\u{2501}\u{2501}\u{2501}\u{2501}\u{2501}\u{2513}".to_string(),
            "\u{2503} Type \u{2503} Count \u{2503} Bytes \u{2503}".to_string(),
            "\u{2521}\u{2501}\u{2501}\u{2501}\u{2501}\u{2501}\u{2501}\u{2547}\u{2501}\u{2501}\u{2501}\u{2501}\u{2501}\u{2501}\u{2501}\u{2547}\u{2501}\u{2501}\u{2501}\u{2501}\u{2501}\u{2501}\u{2501}\u{2529}".to_string(),
            "\u{2502} \"A\"  \u{2502}     2 \u{2502}    24 \u{2502}".to_string(),
            "\u{2502} \"B\"  \u{2502}     1 \u{2502}    12 \u{2502}".to_string(),
            "\u{2514}\u{2500}\u{2500}\u{2500}\u{2500}\u{2500}\u{2500}\u{2534}\u{2500}\u{2500}\u{2500}\u{2500}\u{2500}\u{2500}\u{2500}\u{2534}\u{2500}\u{2500}\u{2500}\u{2500}\u{2500}\u{2500}\u{2500}\u{2518}".to_string(),
        ]
    );
}

#[test]
fn column_widths_never_fall_under_the_header_widths() {
    // Single-character key, single-digit count and byte total.
    let r = aggregate_text("{\"type\":7}\n");
    let lines = render(&r);
    // Header cells stay 4, 5 and 5 wide.
    assert_eq!(lines[0], "Found 1 valid log types");
    assert_eq!(lines[2], "\u{2503} Type \u{2503} Count \u{2503} Bytes \u{2503}");
    let row = &lines[4];
    assert_eq!(row, "\u{2502} 7    \u{2502}     1 \u{2502}    10 \u{2502}");
}

#[test]
fn wide_cells_stretch_their_column() {
    let input = "{\"type\":\"longtypename\"}\n";
    let r = aggregate_text(input);
    let lines = render(&r);
    // The key is 14 characters once quoted, so the first column stretches.
    assert_eq!(lines[0], "Found 1 valid log types");
    assert_eq!(lines[1], "\u{250f}\u{2501}\u{2501}\u{2501}\u{2501}\u{2501}\u{2501}\u{2501}\u{2501}\u{2501}\u{2501}\u{2501}\u{2501}\u{2501}\u{2501}\u{2501}\u{2501}\u{2533}\u{2501}\u{2501}\u{2501}\u{2501}\u{2501}\u{2501}\u{2501}\u{2533}\u{2501}\u{2501}\u{2501}\u{2501}\u{2501}\u{2501}\u{2501}\u{2513}");
    assert_eq!(lines[2], "\u{2503} Type           \u{2503} Count \u{2503} Bytes \u{2503}");
    assert_eq!(lines[4], "\u{2502} \"longtypename\" \u{2502}     1 \u{2502}    23 \u{2502}");
}

#[test]
fn counts_wider_than_the_header_right_align() {
    let mut input = String::new();
    for _ in 0..123456 {
        input.push_str("{\"type\":1}\n");
    }
    let r = aggregate_text(&input);
    let lines = render(&r);
    assert_eq!(lines[0], "Found 1 valid log types");
    // 123456 lines of 10 bytes each: the byte column stretches to 7 digits.
    assert_eq!(lines[4], "\u{2502} 1    \u{2502} 123456 \u{2502} 1234560 \u{2502}");
}
