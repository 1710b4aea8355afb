use skillet::skillet_compiler::PanSource;

#[test]
fn test_single_line() {
    let ps = PanSource::new("Hello World".to_string(), None);

    assert_eq!(Some(0), ps.offsets.first().copied());
    assert_eq!(ps.offsets.len(), 1);
}

#[test]
fn test_multi_line() {
    let ps = PanSource::new("Hello\nWorld".to_string(), None);

    let mut iter = ps.offsets.iter();
    assert_eq!(Some(0), iter.next().copied());
    assert_eq!(Some(6), iter.next().copied());
}

#[test]
fn test_location_at() {
    let ps = PanSource::new("Hello\nWorld".to_string(), None);

    let loc = ps.location_at(9);
    assert_eq!(2, loc.line);
    assert_eq!(4, loc.column);
}

#[test]
fn test_location_line_boundrary() {
    let ps = PanSource::new("Hello\nWorld".to_string(), None);

    let loc = ps.location_at(5);
    assert_eq!(1, loc.line);
    assert_eq!(6, loc.column);
}

