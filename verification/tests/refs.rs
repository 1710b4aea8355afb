use skillet::refs::{
    classify_untyped, extract_body, extract_markdown_links, extract_path_refs, typed_refs, ParsedRefs, RefKind,
};

#[test]
fn extract_path_refs_finds_ref_values() {
    let text = "See `ref::./scripts/foo.sh` and `ref::./bar.md`.";
    let refs = extract_path_refs(text);
    assert_eq!(refs, vec!["./scripts/foo.sh", "./bar.md"]);
}

#[test]
fn extract_path_refs_ignores_other_typed_refs() {
    let text = "`cmd::ls -la` and `skill::diagnose`";
    assert!(extract_path_refs(text).is_empty());
}

#[test]
fn classify_untyped_detects_url() {
    assert_eq!(classify_untyped("https://example.com", &[]), Some("url"));
    assert_eq!(classify_untyped("http://x.com/path", &[]), Some("url"));
}

#[test]
fn classify_untyped_detects_path_by_extension() {
    assert_eq!(classify_untyped("run.sh", &[]), Some("path"));
    assert_eq!(classify_untyped("config.toml", &[]), Some("path"));
}

#[test]
fn classify_untyped_detects_path_by_separator() {
    assert_eq!(classify_untyped("./scripts/foo", &[]), Some("path"));
}

#[test]
fn classify_untyped_detects_skill_name() {
    let names = ["diagnose", "caveman"];
    assert_eq!(classify_untyped("diagnose", &names), Some("skill"));
}

#[test]
fn classify_untyped_detects_command_with_flag() {
    assert_eq!(classify_untyped("git bisect --run", &[]), Some("command"));
}

#[test]
fn classify_untyped_returns_none_for_plain_word() {
    assert_eq!(classify_untyped("something", &[]), None);
}

#[test]
fn extract_markdown_links_detects_path_link() {
    let text = "See [the guide](./docs/guide.md) for details.";
    let links = extract_markdown_links(text);
    assert_eq!(links.len(), 1);
    assert_eq!(links[0].target, "./docs/guide.md");
    assert!(!links[0].is_url);
}

#[test]
fn extract_markdown_links_detects_url_link() {
    let text = "Visit [example](https://example.com).";
    let links = extract_markdown_links(text);
    assert_eq!(links.len(), 1);
    assert_eq!(links[0].target, "https://example.com");
    assert!(links[0].is_url);
}

#[test]
fn extract_markdown_links_returns_empty_for_plain_text() {
    let links = extract_markdown_links("no links here");
    assert!(links.is_empty());
}

#[test]
fn extract_markdown_links_detects_multiple_links() {
    let text = "[a](path/a.md) and [b](https://b.com)";
    let links = extract_markdown_links(text);
    assert_eq!(links.len(), 2);
    assert!(!links[0].is_url);
    assert!(links[1].is_url);
}

#[test]
fn extract_body_strips_frontmatter() {
    let raw = "---\nname: foo\ndescription: bar\n---\n\n# Body\n";
    let body = extract_body(raw);
    assert!(body.contains("# Body"));
    assert!(!body.contains("name: foo"));
}

// ── ParsedRefs::extract tests ─────────────────────────────────────────

#[test]
fn parsed_refs_extract_ref_kind_mapping() {
    let raw = "`ref::foo.md` `skill::bar` `cmd::ls` `var::MY` `env::DB`";
    let refs = ParsedRefs::extract(raw, &[]);
    assert_eq!(refs.typed.len(), 5);
    let kinds: Vec<RefKind> = refs.typed.iter().map(|r| r.kind).collect();
    assert!(kinds.contains(&RefKind::Ref));
    assert!(kinds.contains(&RefKind::Skill));
    assert!(kinds.contains(&RefKind::Cmd));
    assert!(kinds.contains(&RefKind::Var));
    assert!(kinds.contains(&RefKind::Env));
}

#[test]
fn parsed_refs_extract_path_maps_to_ref_kind() {
    let raw = "`path::some/file.md`";
    let refs = ParsedRefs::extract(raw, &[]);
    assert_eq!(refs.typed.len(), 1);
    assert_eq!(refs.typed[0].kind, RefKind::Ref);
    assert_eq!(refs.typed[0].value, "some/file.md");
}

#[test]
fn parsed_refs_extract_skips_agent_and_url() {
    let raw = "`agent::my-agent` `url::https://example.com`";
    let refs = ParsedRefs::extract(raw, &[]);
    assert!(
        refs.typed.is_empty(),
        "agent and url refs should be skipped"
    );
}

#[test]
fn parsed_refs_extract_untyped_suspect_classification() {
    let raw = "`./some/path.sh`";
    let refs = ParsedRefs::extract(raw, &[]);
    assert_eq!(refs.untyped.len(), 1);
    assert_eq!(refs.untyped[0].inferred_kind, "path");
}

#[test]
fn parsed_refs_extract_unclassifiable_suspect_ignored() {
    let raw = "`plainword`";
    let refs = ParsedRefs::extract(raw, &[]);
    assert!(refs.untyped.is_empty());
}

#[test]
fn parsed_refs_extract_markdown_links_coexist() {
    let raw = "`ref::foo.md` [guide](./guide.md)";
    let refs = ParsedRefs::extract(raw, &[]);
    assert_eq!(refs.typed.len(), 1);
    assert_eq!(refs.links.len(), 1);
    assert_eq!(refs.links[0].target, "./guide.md");
}

#[test]
fn parsed_refs_extract_line_col_correct() {
    let raw = "before\n`ref::target.md`";
    let refs = ParsedRefs::extract(raw, &[]);
    assert_eq!(refs.typed.len(), 1);
    assert_eq!(refs.typed[0].line, 2);
    assert_eq!(refs.typed[0].col, 1);
}


#[test]
fn typed_ref_column_counts_characters() {
    let v = typed_refs("é `cmd::ls`");
    assert_eq!(v.len(), 1);
    assert_eq!(v[0].kind, RefKind::Cmd);
    assert_eq!(v[0].value, "ls");
    assert_eq!(v[0].line, 1);
    assert_eq!(v[0].col, 3);
    assert_eq!(v[0].start, 3);
}

#[test]
fn parsed_typed_ref_column_counts_characters() {
    let r = ParsedRefs::extract("x\nüü `ref::a.md`", &[]);
    assert_eq!(r.typed.len(), 1);
    assert_eq!(r.typed[0].line, 2);
    assert_eq!(r.typed[0].col, 4);
}
