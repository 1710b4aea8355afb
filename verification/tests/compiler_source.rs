use skillet::compiler::PanSource;

#[test]
fn single_line_keeps_only_zero_offset() {
    let ps = PanSource::new("Hello World".to_string());

    assert_eq!(Some(0), ps.offsets.first().copied());
    assert_eq!(ps.offsets.len(), 1);
}

#[test]
fn multi_line_records_each_line_start() {
    let ps = PanSource::new("Hello\nWorld".to_string());

    let mut iter = ps.offsets.iter();
    assert_eq!(Some(0), iter.next().copied());
    assert_eq!(Some(6), iter.next().copied());
}

#[test]
fn location_at_reports_line_and_column() {
    let ps = PanSource::new("Hello\nWorld".to_string());

    let loc = ps.location_at(9);
    assert_eq!(2, loc.line);
    assert_eq!(4, loc.column);
}

#[test]
fn location_at_handles_line_boundary() {
    let ps = PanSource::new("Hello\nWorld".to_string());

    let loc = ps.location_at(5);
    assert_eq!(1, loc.line);
    assert_eq!(6, loc.column);
}


#[test]
fn offsets_are_one_past_each_newline_in_order() {
    let ps = PanSource::new("a\n\nbc\nd\n".to_string());
    assert_eq!(ps.offsets, vec![0, 2, 3, 6, 8]);
}
