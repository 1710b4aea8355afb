use skillet::collections::{StrMap, StrSet};
use skillet::compile::{
    collect_structured_refs, compile, parse_source, process_fragments, process_refs, CompileContext, CompileError,
    SourceUnit,
};
use skillet::config::SkilletConfig;

fn count_chars(text: &str, _model: &str) -> u32 {
    text.chars().count() as u32
}

fn default_ctx(name: &str, content: &str) -> CompileContext {
    let cfg = SkilletConfig::default();
    CompileContext {
        source: SourceUnit { name: name.to_string(), path: format!("{name}.pan"), content: content.to_string() },
        fragments: StrMap::new(),
        known_files: StrSet::new(),
        known_commands: StrSet::new(),
        known_skills: StrSet::new(),
        vars: cfg.vars,
        env: cfg.env,
        process_env: StrMap::new(),
        tokenizer: cfg.build.tokenizer,
    }
}

// ── parse_source ─────────────────────────────────────────────────────────────

#[test]
fn compile_parse_source_splits_frontmatter_name_and_body() {
    let src = "---\nname: my-skill\ndescription: \"\"\n---\n\n# My Skill\n";
    let (fm, name, body, _) = parse_source(src).unwrap();
    assert_eq!(name, "my-skill");
    assert!(fm.contains("description"));
    assert!(body.contains("# My Skill"));
}

#[test]
fn compile_parse_source_errors_when_frontmatter_missing() {
    let src = "# No frontmatter\n";
    assert!(parse_source(src).is_err());
}

#[test]
fn compile_parse_source_errors_when_name_field_absent() {
    let src = "---\ndescription: no name here\n---\n\n# body\n";
    assert!(parse_source(src).is_err());
}

#[test]
fn build_parse_source_splits_frontmatter_name_and_body() {
    let src = "---\nname: my-skill\ndescription: \"\"\n---\n\n# My Skill\n";
    let (fm, name, body, _body_start_line) = parse_source(src).unwrap();
    assert_eq!(name, "my-skill");
    assert!(fm.contains("description"));
    assert!(body.contains("# My Skill"));
}

#[test]
fn build_parse_source_errors_when_frontmatter_missing() {
    let src = "# No frontmatter\n";
    assert!(parse_source(src).is_err());
}

#[test]
fn build_parse_source_errors_when_name_field_absent() {
    let src = "---\ndescription: no name here\n---\n\n# body\n";
    assert!(parse_source(src).is_err());
}

#[test]
fn parse_source_reports_body_start_line() {
    let src = "---\nname: my-skill\n---\n\n# My Skill\n";
    let (fm, name, body, line) = parse_source(src).unwrap();
    assert_eq!(fm, "name: my-skill");
    assert_eq!(name, "my-skill");
    assert_eq!(body, "# My Skill");
    assert_eq!(line, 5);
}

#[test]
fn parse_source_messages_name_the_cause() {
    assert_eq!(parse_source("# No frontmatter\n").unwrap_err(), "source has no YAML frontmatter");
    assert_eq!(
        parse_source("---\ndescription: no name here\n---\n\n# body\n").unwrap_err(),
        "failed to parse skill source"
    );
}

#[test]
fn parse_source_skips_byte_order_mark() {
    let src = "\u{feff}---\nname: bom\n---\nbody\n";
    let (_, name, body, line) = parse_source(src).unwrap();
    assert_eq!(name, "bom");
    assert_eq!(body, "body");
    assert_eq!(line, 4);
}

// ── process_fragments ────────────────────────────────────────────────────────

#[test]
fn compile_process_fragments_inlines_fragment_content() {
    let mut frags = StrMap::new();
    frags.insert("note".to_string(), "## Note\nsome content\n".to_string());
    let body = "intro\n{{> note }}\noutro\n";
    let (result, used) = process_fragments(body, &frags).unwrap();
    assert!(result.contains("## Note"));
    assert!(result.contains("some content"));
    assert!(result.contains("intro") && result.contains("outro"));
    assert_eq!(used, vec!["note"]);
}

#[test]
fn compile_process_fragments_errors_on_missing_fragment() {
    let body = "{{> missing }}\n";
    assert!(process_fragments(body, &StrMap::new()).is_err());
}

#[test]
fn compile_process_fragments_errors_on_nested_include() {
    let mut frags = StrMap::new();
    frags.insert("outer".to_string(), "## Outer\n{{> inner }}\n".to_string());
    let body = "{{> outer }}\n";
    let result = process_fragments(body, &frags);
    assert!(result.is_err());
    let msg = result.unwrap_err().to_string();
    assert!(msg.contains("nested"), "error should mention 'nested': {msg}");
    assert!(msg.contains("outer"), "error should name the fragment: {msg}");
}

#[test]
fn compile_process_fragments_allows_fragment_content_without_includes() {
    let mut frags = StrMap::new();
    frags.insert("safe".to_string(), "use `cmd::ls`\n".to_string());
    let body = "{{> safe }}\n";
    assert!(process_fragments(body, &frags).is_ok());
}

#[test]
fn build_process_fragments_errors_on_missing_fragment() {
    let body = "{{> missing }}\n";
    assert!(process_fragments(body, &StrMap::new()).is_err());
}

#[test]
fn process_fragments_output_is_exact() {
    let mut frags = StrMap::new();
    frags.insert("note".to_string(), "## Note\nsome content\n\n".to_string());
    let (result, used) = process_fragments("intro\n{{>note}}  \noutro\n{{> note }}", &frags).unwrap();
    assert_eq!(result, "intro\n## Note\nsome content\noutro\n## Note\nsome content");
    assert_eq!(used, vec!["note"]);
}

#[test]
fn process_fragments_error_messages() {
    assert_eq!(process_fragments("{{> missing }}\n", &StrMap::new()).unwrap_err(), "fragment 'missing' not found");
}

// ── process_refs ─────────────────────────────────────────────────────────────

#[test]
fn compile_process_refs_strips_ref_prefix_keeps_backticks() {
    let mut ctx = default_ctx("test-skill", "");
    ctx.known_files.insert("foo.sh".to_string());
    let (result, _) = process_refs("`ref::foo.sh`", "test-skill", "test.pan", 1, &ctx).unwrap();
    assert_eq!(result, "`foo.sh`");
}

#[test]
fn compile_process_refs_substitutes_var_without_backticks() {
    let ctx = default_ctx("test-skill", "");
    let (result, _) = process_refs("deploy to `var::project_name`", "test-skill", "test.pan", 1, &ctx).unwrap();
    assert_eq!(result, "deploy to my-project");
}

#[test]
fn compile_process_refs_substitutes_env_without_backticks() {
    let ctx = default_ctx("test-skill", "");
    let (result, _) = process_refs("ci: `env::CI`", "test-skill", "test.pan", 1, &ctx).unwrap();
    let expected = ctx.process_env.get("CI").cloned().unwrap_or_else(|| "false".to_string());
    assert_eq!(result, format!("ci: {}", expected));
}

#[test]
fn compile_process_refs_strips_cmd_prefix_keeps_backticks() {
    let ctx = default_ctx("test-skill", "");
    let (result, _) = process_refs("`cmd::ls -la`", "test-skill", "test.pan", 1, &ctx).unwrap();
    assert_eq!(result, "`ls -la`");
}

#[test]
fn compile_process_refs_errors_on_missing_ref_path() {
    let mut ctx = default_ctx("test-skill", "");
    ctx.known_files.insert("dummy".to_string());
    assert!(process_refs("`ref::missing.sh`", "test-skill", "test.pan", 1, &ctx).is_err());
}

#[test]
fn compile_process_refs_errors_on_undeclared_var() {
    let ctx = default_ctx("test-skill", "");
    assert!(process_refs("`var::unknown`", "test-skill", "test.pan", 1, &ctx).is_err());
}

#[test]
fn compile_process_refs_errors_on_undeclared_env() {
    let ctx = default_ctx("test-skill", "");
    assert!(process_refs("`env::UNKNOWN`", "test-skill", "test.pan", 1, &ctx).is_err());
}

#[test]
fn compile_process_refs_errors_on_missing_skill_ref() {
    let mut ctx = default_ctx("test-skill", "");
    ctx.known_skills.insert("dummy".to_string());
    assert!(process_refs("`skill::nope`", "test-skill", "test.pan", 1, &ctx).is_err());
}

#[test]
fn build_process_refs_substitutes_var_without_backticks() {
    let ctx = default_ctx("test-skill", "");
    let (result, _) = process_refs("deploy to `var::project_name`", "test-skill", "test.pan", 1, &ctx).unwrap();
    assert_eq!(result, "deploy to my-project");
}

#[test]
fn build_process_refs_strips_cmd_prefix_keeps_backticks() {
    let ctx = default_ctx("test-skill", "");
    let (result, _) = process_refs("`cmd::ls -la`", "test-skill", "test.pan", 1, &ctx).unwrap();
    assert_eq!(result, "`ls -la`");
}

#[test]
fn build_process_refs_errors_on_missing_ref_path() {
    let mut ctx = default_ctx("test-skill", "");
    ctx.known_files.insert("dummy".to_string());
    assert!(process_refs("`ref::missing.sh`", "test-skill", "test.pan", 1, &ctx).is_err());
}

#[test]
fn build_process_refs_errors_on_undeclared_var() {
    let ctx = default_ctx("test-skill", "");
    assert!(process_refs("`var::unknown`", "test-skill", "test.pan", 1, &ctx).is_err());
}

#[test]
fn build_process_refs_errors_on_undeclared_env() {
    let ctx = default_ctx("test-skill", "");
    assert!(process_refs("`env::UNKNOWN`", "test-skill", "test.pan", 1, &ctx).is_err());
}

#[test]
fn process_refs_prefers_process_env_over_default() {
    let mut ctx = default_ctx("test-skill", "");
    ctx.process_env.insert("CI".to_string(), "true".to_string());
    let (result, _) = process_refs("ci: `env::CI`", "test-skill", "test.pan", 1, &ctx).unwrap();
    assert_eq!(result, "ci: true");
}

#[test]
fn process_refs_warns_on_unknown_command() {
    let mut ctx = default_ctx("test-skill", "");
    ctx.known_commands.insert("git".to_string());
    let (result, warnings) = process_refs("run `cmd::make all`", "test-skill", "test.pan", 3, &ctx).unwrap();
    assert_eq!(result, "run `make all`");
    assert_eq!(warnings.len(), 1);
    assert_eq!(warnings[0].line, 3);
    assert_eq!(warnings[0].col, 5);
}

#[test]
fn process_refs_reports_every_error() {
    let ctx = default_ctx("test-skill", "");
    let failure = process_refs("`var::a`\n`env::B`", "test-skill", "test.pan", 10, &ctx).unwrap_err();
    assert_eq!(failure.diagnostics.len(), 2);
    assert_eq!(failure.diagnostics[0].line, 10);
    assert_eq!(failure.diagnostics[1].line, 11);
    assert_eq!(failure.diagnostics[1].col, 1);
}

// ── compile ──────────────────────────────────────────────────────────────────

#[test]
fn compile_produces_output_with_frontmatter_and_body() {
    let ctx = default_ctx("my-skill", "---\nname: my-skill\ndescription: \"\"\n---\n\n# My Skill\n");
    let result = compile(&ctx, &count_chars).unwrap();
    assert!(result.output.starts_with("---\n"));
    assert!(result.output.contains("---\n\n"));
    assert!(result.output.contains("# My Skill"));
}

#[test]
fn compile_errors_when_frontmatter_name_mismatches_dir() {
    let ctx = default_ctx("my-skill", "---\nname: wrong-name\ndescription: \"\"\n---\n\n# body\n");
    let result = compile(&ctx, &count_chars);
    assert!(result.is_err());
    assert!(result.unwrap_err().to_string().contains("wrong-name"));
}

#[test]
fn compile_expands_fragments_in_output() {
    let cfg = SkilletConfig::default();
    let mut fragments = StrMap::new();
    fragments.insert("note".to_string(), "## Note\nfragment content\n".to_string());
    let ctx = CompileContext {
        source: SourceUnit {
            name: "my-skill".to_string(),
            path: "my-skill.pan".to_string(),
            content: "---\nname: my-skill\ndescription: \"\"\n---\n\n{{> note }}\n".to_string(),
        },
        fragments,
        known_files: StrSet::new(),
        known_commands: StrSet::new(),
        known_skills: StrSet::new(),
        vars: cfg.vars,
        env: cfg.env,
        process_env: StrMap::new(),
        tokenizer: cfg.build.tokenizer,
    };
    let result = compile(&ctx, &count_chars).unwrap();
    assert!(result.output.contains("## Note"));
    assert!(result.output.contains("fragment content"));
    assert!(!result.output.contains("{{> note }}"));
    assert_eq!(result.fragments_used, vec!["note"]);
}

#[test]
fn compile_records_url_refs() {
    let ctx = default_ctx(
        "my-skill",
        "---\nname: my-skill\ndescription: \"\"\n---\n\nProject: `var::project_name`. See [docs](https://example.com)\n",
    );
    let result = compile(&ctx, &count_chars).unwrap();
    assert!(!result.refs.urls.is_empty());
}

#[test]
fn compile_output_and_counts_are_exact() {
    let ctx = default_ctx(
        "my-skill",
        "---\nname: my-skill\ndescription: Does things\n---\n\nSee `ref::a.md` in `var::project_name`.\n",
    );
    let result = compile(&ctx, &count_chars).unwrap();
    let expected = "---\nname: my-skill\ndescription: Does things\n---\n\nSee `a.md` in my-project.";
    assert_eq!(result.output, expected);
    assert_eq!(result.activation_tokens, expected.chars().count() as u32);
    assert_eq!(result.discovery_tokens, "my-skill Does things".chars().count() as u32);
    assert_eq!(result.ref_paths, vec!["a.md"]);
    assert!(result.refs.paths.is_empty());
    assert!(result.cmd_warnings.is_empty());
}

#[test]
fn compile_error_messages() {
    let ctx = default_ctx("my-skill", "# no front matter\n");
    match compile(&ctx, &count_chars).unwrap_err() {
        CompileError::Message(m) => assert_eq!(m, "failed to parse my-skill.pan"),
        CompileError::Failure(_) => panic!("expected a message"),
    }
    let ctx = default_ctx("my-skill", "---\nname: other\n---\nbody\n");
    assert_eq!(
        compile(&ctx, &count_chars).unwrap_err().to_string(),
        "frontmatter name 'other' does not match skill directory 'my-skill'"
    );
    let ctx = default_ctx("my-skill", "---\nname: my-skill\n---\n`var::nope`\n");
    assert!(matches!(compile(&ctx, &count_chars).unwrap_err(), CompileError::Failure(_)));
}

// ── collect_structured_refs ──────────────────────────────────────────────────

#[test]
fn compile_collect_refs_includes_typed_ref_directive() {
    let refs = collect_structured_refs("Use `cmd::git` for version control.");
    assert!(refs.commands.contains(&"git".to_string()));
}

#[test]
fn compile_collect_refs_includes_markdown_path_link() {
    let refs = collect_structured_refs("See [guide](./docs/guide.md).");
    assert!(refs.paths.contains(&"./docs/guide.md".to_string()));
}

#[test]
fn compile_collect_refs_includes_markdown_url_link() {
    let refs = collect_structured_refs("Visit [site](https://example.com).");
    assert!(refs.urls.contains(&"https://example.com".to_string()));
}

#[test]
fn compile_collect_refs_deduplicates_entries() {
    let refs = collect_structured_refs("`cmd::git` and `cmd::git`");
    assert_eq!(refs.commands.iter().filter(|r| r.as_str() == "git").count(), 1);
}

#[test]
fn build_collect_refs_includes_typed_ref_directive() {
    let refs = collect_structured_refs("Use `cmd::git` for version control.");
    assert!(refs.commands.contains(&"git".to_string()));
}

#[test]
fn build_collect_refs_includes_markdown_path_link() {
    let refs = collect_structured_refs("See [guide](./docs/guide.md).");
    assert!(refs.paths.contains(&"./docs/guide.md".to_string()));
}

#[test]
fn build_collect_refs_includes_markdown_url_link() {
    let refs = collect_structured_refs("Visit [site](https://example.com).");
    assert!(refs.urls.contains(&"https://example.com".to_string()));
}

#[test]
fn build_collect_refs_deduplicates_entries() {
    let refs = collect_structured_refs("`cmd::git` and `cmd::git`");
    assert_eq!(refs.commands.iter().filter(|r| r.as_str() == "git").count(), 1);
}

#[test]
fn collect_refs_sorts_each_list() {
    let refs = collect_structured_refs("`skill::b` `skill::a` [x](z.md) `ref::y.md` [u](http://b) [v](http://a)");
    assert_eq!(refs.skills, vec!["a", "b"]);
    assert_eq!(refs.paths, vec!["y.md", "z.md"]);
    assert_eq!(refs.urls, vec!["http://a", "http://b"]);
}

#[test]
fn process_fragments_lists_each_fragment_once_in_first_use_order() {
    let mut frags = StrMap::new();
    frags.insert("a".to_string(), "A".to_string());
    frags.insert("b".to_string(), "B".to_string());
    let body = "{{> b }}\n{{> a }}\n{{> b }}\n";
    let (result, used) = process_fragments(body, &frags).unwrap();
    assert_eq!(result, "B\nA\nB\n");
    assert_eq!(used, vec!["b", "a"]);
}
