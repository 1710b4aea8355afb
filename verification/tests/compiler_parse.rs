use skillet::compiler::parse::{Node, PanParse, ParseError, ParseErrorKind, RefKind};
use skillet::compiler::PanSource;

struct ParseResult {
    nodes: Vec<Node>,
    errors: Vec<ParseError>,
}

fn parse_str(src: &str) -> ParseResult {
    let pan = PanSource::new(src.to_string());
    let mut parsed = PanParse::new(&pan);
    parsed.parse();
    ParseResult {
        nodes: parsed.nodes,
        errors: parsed.errors,
    }
}

fn node_kind_name(node: &Node) -> &'static str {
    match node {
        Node::Ref { .. } => "Ref",
        Node::Fragment { .. } => "Fragment",
        Node::RefSuspect { .. } => "RefSuspect",
        Node::EscapedBody { .. } => "EscapedBody",
        Node::Body { .. } => "Body",
    }
}

#[test]
fn plain_body_text_produces_body_node() {
    let result = parse_str("hello world");
    assert!(result.errors.is_empty(), "expected no errors");
    assert_eq!(result.nodes.len(), 1);
    assert!(matches!(&result.nodes[0], Node::Body { .. }), "expected Body");
}

#[test]
fn body_node_source_range_covers_full_text() {
    let src = "hello world";
    let result = parse_str(src);
    assert!(result.errors.is_empty());
    match &result.nodes[0] {
        Node::Body { source_range } => assert_eq!(*source_range, 0..src.len() as u32),
        n => panic!("expected Body, got {}", node_kind_name(n)),
    }
}

#[test]
fn empty_input_produces_no_nodes() {
    let result = parse_str("");
    assert!(result.errors.is_empty());
    assert!(result.nodes.is_empty());
}

#[test]
fn fragment_insertion_produces_single_fragment_node() {
    let src = "{>my-fragment<}";
    let result = parse_str(src);
    assert!(result.errors.is_empty(), "expected no parse errors");
    assert_eq!(result.nodes.len(), 1, "expected exactly one node");
    match &result.nodes[0] {
        Node::Fragment { value, .. } => assert_eq!(value, "my-fragment"),
        n => panic!("expected Fragment, got {}", node_kind_name(n)),
    }
}

#[test]
fn fragment_source_range_covers_delimiters() {
    let src = "{>my-fragment<}";
    let result = parse_str(src);
    assert!(result.errors.is_empty());
    match &result.nodes[0] {
        Node::Fragment { source_range, .. } => {
            assert_eq!(*source_range, 0..src.len() as u32);
        }
        n => panic!("expected Fragment, got {}", node_kind_name(n)),
    }
}

#[test]
fn fragment_with_surrounding_body() {
    let result = parse_str("before {>my-frag<} after");
    assert!(result.errors.is_empty());
    assert!(result
        .nodes
        .iter()
        .any(|n| matches!(n, Node::Fragment { value, .. } if value == "my-frag")));
}

#[test]
fn unclosed_fragment_produces_error() {
    let result = parse_str("{>my-fragment");
    assert!(
        !result.errors.is_empty(),
        "expected an error for unclosed fragment"
    );
    assert!(result
        .errors
        .iter()
        .any(|e| matches!(e.kind, ParseErrorKind::UnclosedFragment)));
}

#[test]
fn fragment_open_without_id_produces_error() {
    let result = parse_str("{>");
    assert!(!result.errors.is_empty(), "expected an error");
    assert!(result.errors.iter().any(|e| {
        matches!(
            e.kind,
            ParseErrorKind::ExpectedRefValueAfterFragmentOpen
                | ParseErrorKind::UnclosedFragment
        )
    }));
}

#[test]
fn escaped_body_produces_escaped_body_node() {
    let result = parse_str("``verbatim``");
    assert!(result.errors.is_empty(), "expected no errors");
    assert!(result
        .nodes
        .iter()
        .any(|n| matches!(n, Node::EscapedBody { .. })));
}

#[test]
fn escaped_body_source_range_covers_both_delimiters() {
    let src = "``verbatim``";
    let result = parse_str(src);
    assert!(result.errors.is_empty());
    let escaped = result
        .nodes
        .iter()
        .find(|n| matches!(n, Node::EscapedBody { .. }));
    match escaped.expect("expected EscapedBody node") {
        Node::EscapedBody { source_range } => {
            assert_eq!(source_range.start, 0);
            assert_eq!(source_range.end, 12);
        }
        _ => unreachable!(),
    }
}

#[test]
fn unclosed_escaped_body_produces_error() {
    let result = parse_str("``unclosed");
    assert!(!result.errors.is_empty());
    assert!(result
        .errors
        .iter()
        .any(|e| matches!(e.kind, ParseErrorKind::UnclosedEscape)));
}

#[test]
fn tick_wrapped_unknown_text_produces_ref_suspect() {
    let result = parse_str("`sometext`");
    assert!(result.errors.is_empty(), "expected no errors");
    assert!(result
        .nodes
        .iter()
        .any(|n| matches!(n, Node::RefSuspect { .. })));
}

#[test]
fn ref_suspect_source_range_covers_both_ticks() {
    let src = "`suspect`";
    let result = parse_str(src);
    assert!(result.errors.is_empty());
    let node = result
        .nodes
        .iter()
        .find(|n| matches!(n, Node::RefSuspect { .. }))
        .expect("expected RefSuspect node");
    match node {
        Node::RefSuspect { source_range } => {
            assert_eq!(source_range.start, 0);
            assert_eq!(source_range.end, src.len() as u32);
        }
        _ => unreachable!(),
    }
}

#[test]
fn tick_followed_by_body_without_closing_tick_is_body_node() {
    let result = parse_str("`text");
    assert!(
        result.errors.is_empty(),
        "expected no errors for unclosed markdown inline code"
    );
    assert!(result.nodes.iter().any(|n| matches!(n, Node::Body { .. })));
}

#[test]
fn lone_trailing_tick_produces_unexpected_eof_error() {
    let result = parse_str("`");
    assert!(!result.errors.is_empty());
    assert!(result
        .errors
        .iter()
        .any(|e| matches!(e.kind, ParseErrorKind::UnexpectedEof)));
}

#[test]
fn skill_ref_produces_ref_node_with_skill_kind() {
    let result = parse_str("`skill::my-skill`");
    assert!(
        result.errors.is_empty(),
        "expected no errors, got: {}",
        result.errors.len()
    );
    assert_eq!(result.nodes.len(), 1);
    match &result.nodes[0] {
        Node::Ref {
            kind: RefKind::Skill,
            value,
            ..
        } => assert_eq!(value, "my-skill"),
        n => panic!("expected Ref(Skill), got {}", node_kind_name(n)),
    }
}

#[test]
fn agent_ref_produces_ref_node_with_agent_kind() {
    let result = parse_str("`agent::my-agent`");
    assert!(result.errors.is_empty(), "expected no errors");
    assert_eq!(result.nodes.len(), 1);
    match &result.nodes[0] {
        Node::Ref {
            kind: RefKind::Agent,
            value,
            ..
        } => assert_eq!(value, "my-agent"),
        n => panic!("expected Ref(Agent), got {}", node_kind_name(n)),
    }
}

#[test]
fn cmd_ref_produces_ref_node_with_cmd_kind() {
    let result = parse_str("`cmd::git-status`");
    assert!(result.errors.is_empty(), "expected no errors");
    match &result.nodes[0] {
        Node::Ref {
            kind: RefKind::Cmd,
            value,
            ..
        } => assert_eq!(value, "git-status"),
        n => panic!("expected Ref(Cmd), got {}", node_kind_name(n)),
    }
}

#[test]
fn path_ref_produces_ref_node_with_path_kind() {
    let result = parse_str("`path::src/main.rs`");
    assert!(result.errors.is_empty(), "expected no errors");
    match &result.nodes[0] {
        Node::Ref {
            kind: RefKind::Path,
            value,
            ..
        } => assert_eq!(value, "src/main.rs"),
        n => panic!("expected Ref(Path), got {}", node_kind_name(n)),
    }
}

#[test]
fn url_ref_produces_ref_node_with_url_kind() {
    let result = parse_str("`url::https://example.com`");
    assert!(result.errors.is_empty(), "expected no errors");
    match &result.nodes[0] {
        Node::Ref {
            kind: RefKind::Url,
            value,
            ..
        } => assert_eq!(value, "https://example.com"),
        n => panic!("expected Ref(Url), got {}", node_kind_name(n)),
    }
}

#[test]
fn reference_ref_produces_ref_node_with_reference_kind() {
    let result = parse_str("`ref::some-ref`");
    assert!(result.errors.is_empty(), "expected no errors");
    match &result.nodes[0] {
        Node::Ref {
            kind: RefKind::Reference,
            value,
            ..
        } => assert_eq!(value, "some-ref"),
        n => panic!("expected Ref(Reference), got {}", node_kind_name(n)),
    }
}

#[test]
fn ref_node_source_range_covers_both_ticks() {
    let src = "`skill::my-skill`";
    let result = parse_str(src);
    assert!(result.errors.is_empty());
    match &result.nodes[0] {
        Node::Ref { source_range, .. } => {
            assert_eq!(source_range.start, 0);
            assert_eq!(source_range.end, src.len() as u32);
        }
        n => panic!("expected Ref, got {}", node_kind_name(n)),
    }
}

#[test]
fn unclosed_ref_produces_error() {
    let result = parse_str("`skill::my-skill");
    assert!(!result.errors.is_empty());
    assert!(result
        .errors
        .iter()
        .any(|e| matches!(e.kind, ParseErrorKind::UnclosedRef)));
}

#[test]
fn mixed_document_produces_expected_node_kinds() {
    let result = parse_str("Use `skill::my-skill` here. {>footer<}");
    assert!(result.errors.is_empty(), "expected no errors");
    assert!(result
        .nodes
        .iter()
        .any(|n| matches!(n, Node::Ref { kind: RefKind::Skill, .. })));
    assert!(result
        .nodes
        .iter()
        .any(|n| matches!(n, Node::Fragment { .. })));
    assert!(result.nodes.iter().any(|n| matches!(n, Node::Body { .. })));
}

#[test]
fn multiple_refs_of_different_kinds() {
    let result = parse_str("`skill::a` `agent::b`");
    assert!(result.errors.is_empty());
    assert!(result
        .nodes
        .iter()
        .any(|n| matches!(n, Node::Ref { kind: RefKind::Skill, .. })));
    assert!(result
        .nodes
        .iter()
        .any(|n| matches!(n, Node::Ref { kind: RefKind::Agent, .. })));
}


#[test]
fn error_ranges_lie_in_the_text() {
    for src in ["`", "`ref::", "`ref::a", "``x", "{>", "{>a", "``", "text `cmd::ls"] {
        let ps = PanSource::new(src.to_string());
        let mut p = PanParse::new(&ps);
        p.parse();
        assert!(!p.errors.is_empty(), "{src}");
        for e in &p.errors {
            assert!(e.range.start <= e.range.end && e.range.end as usize <= src.len(), "{src}: {:?}", e.range);
        }
    }
}
