use skillet::parse::parse_frontmatter;

#[test]
fn parse_frontmatter_returns_name_and_description() {
    // Arrange
    let src = "---\nname: diagnose\ndescription: A hard-bug loop.\n---\n\n# body\n";

    // Act
    let fm = parse_frontmatter(src).unwrap().unwrap();

    // Assert
    assert_eq!(fm.name.as_deref(), Some("diagnose"));
    assert_eq!(fm.description.as_deref(), Some("A hard-bug loop."));
}

#[test]
fn parse_frontmatter_returns_none_when_no_delimiters() {
    // Arrange
    let src = "# No frontmatter\n";

    // Act
    let result = parse_frontmatter(src).unwrap();

    // Assert
    assert!(result.is_none());
}

#[test]
fn parse_frontmatter_fields_are_optional() {
    // Arrange — only name, no description
    let src = "---\nname: foo\n---\n\n# body\n";

    // Act
    let fm = parse_frontmatter(src).unwrap().unwrap();

    // Assert
    assert_eq!(fm.name.as_deref(), Some("foo"));
    assert!(fm.description.is_none());
}


#[test]
fn parse_frontmatter_reports_the_parser_message_for_a_list() {
    let err = parse_frontmatter("---\n- a\n- b\n---\n\n# body\n").unwrap_err();
    assert_eq!(err, "failed to parse frontmatter: Type error, expected: hash map");
}

#[test]
fn parse_frontmatter_reports_the_parser_message_for_a_non_string_field() {
    let err = parse_frontmatter("---\nname: [a, b]\ndescription: ok\n---\n").unwrap_err();
    assert_eq!(err, "failed to parse frontmatter: Type error, expected: string");
    let err = parse_frontmatter("---\nname: ok\ndescription: 5\n---\n").unwrap_err();
    assert_eq!(err, "failed to parse frontmatter: Type error, expected: string");
}

#[test]
fn parse_frontmatter_treats_null_fields_as_missing() {
    let fm = parse_frontmatter("---\nname: ~\ndescription: d\nother: [1, 2]\n---\n").unwrap().unwrap();
    assert!(fm.name.is_none());
    assert_eq!(fm.description.as_deref(), Some("d"));
}
