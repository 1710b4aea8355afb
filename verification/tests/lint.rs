use skillet::collections::{StrMap, StrSet};
use skillet::config::SkilletConfig;
use skillet::freshness::{DiskState, FileState};
use skillet::hashing::hash_bytes;
use skillet::lint::rules::{invalid_frontmatter, oversized, untyped_backtick, unused_fragment};
use skillet::lint::{
    diag, diag_located, finalize, finding_line, lint, lint_if_cuttable, summary_line, LintOptions, OutputFormat,
    Severity,
};
use skillet::lockfile::{Lockfile, SkillEntry, SkillRefs};
use skillet::workspace::skill::Skill;
use skillet::workspace::{Discovery, Workspace};

fn count_words(text: &str, _model: &str) -> u32 {
    text.split_whitespace().count() as u32
}

fn skill(name: &str) -> Skill {
    Skill::new(
        name.to_string(),
        format!("/ws/src/skills/{name}/{name}.pan"),
        format!("/ws/src/skills/{name}"),
        format!("/ws/skills/{name}"),
        vec![],
        vec![],
        vec![],
    )
}

fn workspace(names: &[&str], fragments: &[(&str, &str)]) -> Workspace {
    let mut skills = StrMap::new();
    for n in names {
        skills.insert(n.to_string(), skill(n));
    }
    let mut raw = StrMap::new();
    for (f, text) in fragments {
        raw.insert(f.to_string(), text.to_string());
    }
    let found = Discovery {
        root: "/ws".to_string(),
        skills,
        agents: StrMap::new(),
        raw_fragments: raw,
        fragment_paths: StrMap::new(),
        commands_on_path: StrSet::new(),
        process_env: StrMap::new(),
    };
    Workspace::resolve(found, &SkilletConfig::default(), &count_words)
}

fn fresh_disk_and_lock(sources: &[(&str, &str)]) -> (DiskState, Lockfile) {
    let mut lf = Lockfile::new();
    let mut d = DiskState { sources: StrMap::new(), outputs: StrMap::new(), fragments: StrMap::new() };
    for (name, src) in sources {
        d.sources.insert(name.to_string(), FileState::Read(src.as_bytes().to_vec()));
        d.outputs.insert(name.to_string(), FileState::Read(b"out".to_vec()));
        lf.skills.insert(
            name.to_string(),
            SkillEntry {
                source_hash: hash_bytes(src.as_bytes()),
                compiled_hash: hash_bytes(b"out"),
                discovery_tokens: 0,
                activation_tokens: 0,
                transitive_tokens: 0,
                fragments_used: vec![],
                refs: SkillRefs::default(),
                minhash: vec![],
            },
        );
    }
    (d, lf)
}

#[test]
fn clean_skill_has_no_findings() {
    let src = "---\nname: alpha\ndescription: Does one thing.\n---\n\n# Alpha\n\nPlain body.\n";
    let ws = workspace(&["alpha"], &[]);
    let (disk, lf) = fresh_disk_and_lock(&[("alpha", src)]);
    let mut raws = StrMap::new();
    raws.insert("alpha".to_string(), src.to_string());
    let out = lint(&ws, &lf, &SkilletConfig::default(), &LintOptions::default(), &raws, &disk, &count_words);
    assert!(out.diagnostics.is_empty(), "unexpected: {:?}", out.diagnostics);
    assert_eq!(out.updated_minhash.len(), 1);
}

#[test]
fn lint_reports_frontmatter_unused_fragment_and_stale_build() {
    let src = "---\nname: wrong\n---\n\nBody.\n";
    let ws = workspace(&["alpha"], &[("spare", "unused text")]);
    let (mut disk, mut lf) = fresh_disk_and_lock(&[("alpha", "something else")]);
    disk.sources.insert("alpha".to_string(), FileState::Read(src.as_bytes().to_vec()));
    lf.skills.insert(
        "ghost".to_string(),
        SkillEntry {
            source_hash: String::new(),
            compiled_hash: String::new(),
            discovery_tokens: 0,
            activation_tokens: 0,
            transitive_tokens: 0,
            fragments_used: vec![],
            refs: SkillRefs::default(),
            minhash: vec![],
        },
    );
    let mut raws = StrMap::new();
    raws.insert("alpha".to_string(), src.to_string());
    let out = lint(&ws, &lf, &SkilletConfig::default(), &LintOptions::default(), &raws, &disk, &count_words);
    let rules: Vec<(&str, &str)> = out.diagnostics.iter().map(|d| (d.rule.as_str(), d.skill.as_str())).collect();
    assert_eq!(
        rules,
        vec![
            ("invalid-frontmatter", "alpha"),
            ("invalid-frontmatter", "alpha"),
            ("unused-fragment", "<workspace>"),
            ("stale-build", "alpha"),
            ("stale-build", "ghost"),
        ]
    );
    assert_eq!(out.diagnostics[0].message, "name 'wrong' does not match directory 'alpha'");
    assert_eq!(out.diagnostics[1].message, "missing or empty 'description' field");
    assert_eq!(out.diagnostics[2].message, "fragment 'spare' is not included by any skill");
    assert_eq!(out.diagnostics[3].message, "source 'alpha.pan' has changed since last build");
    // One signature was computed for the one compiled skill.
    assert_eq!(out.updated_minhash.len(), 1);
    assert_eq!(out.updated_minhash[0].0, "alpha");
    assert_eq!(out.updated_minhash[0].1.len(), 128);
}

#[test]
fn single_skill_mode_skips_workspace_rules() {
    let src = "---\nname: alpha\ndescription: D.\n---\n\nBody.\n";
    let ws = workspace(&["alpha", "beta"], &[("spare", "unused text")]);
    let (disk, lf) = fresh_disk_and_lock(&[("alpha", src)]);
    let mut raws = StrMap::new();
    raws.insert("alpha".to_string(), src.to_string());
    let mut opts = LintOptions::new(false, false, OutputFormat::Text);
    opts.skill = Some("alpha".to_string());
    let out = lint(&ws, &lf, &SkilletConfig::default(), &opts, &raws, &disk, &count_words);
    // beta is stale (not in the lockfile) but not a target; no workspace rules.
    assert!(out.diagnostics.is_empty(), "unexpected: {:?}", out.diagnostics);
    assert!(out.updated_minhash.is_empty());
}

#[test]
fn untyped_backticks_and_broken_refs_are_reported() {
    let src = "---\nname: alpha\ndescription: D.\n---\n\nRun `./scripts/go.sh` then `var::nope`.\n";
    let ws = workspace(&["alpha"], &[]);
    let (disk, lf) = fresh_disk_and_lock(&[("alpha", src)]);
    let mut raws = StrMap::new();
    raws.insert("alpha".to_string(), src.to_string());
    let mut opts = LintOptions::default();
    opts.file_path = Some("src/skills/alpha/alpha.pan".to_string());
    let out = lint(&ws, &lf, &SkilletConfig::default(), &opts, &raws, &disk, &count_words);
    let rules: Vec<&str> = out.diagnostics.iter().map(|d| d.rule.as_str()).collect();
    assert!(rules.contains(&"stale-var-ref"), "got {rules:?}");
    assert!(rules.contains(&"untyped-backtick"), "got {rules:?}");
    let var = out.diagnostics.iter().find(|d| d.rule == "stale-var-ref").unwrap();
    assert_eq!(var.severity, Severity::Error);
    assert_eq!(var.path.as_deref(), Some("/ws/src/skills/alpha/alpha.pan"));
    assert_eq!(var.line, Some(6));
}

#[test]
fn invalid_frontmatter_messages() {
    assert_eq!(invalid_frontmatter::check("a", "no front matter")[0].message, "missing frontmatter");
    let d = invalid_frontmatter::check("a", "---\ndescription: x\n---\n");
    assert_eq!(d.len(), 1);
    assert_eq!(d[0].message, "missing 'name' field");
    assert!(invalid_frontmatter::check("a", "---\nname: a\ndescription: x\n---\n").is_empty());
    assert_eq!(invalid_frontmatter::check("a", "---\nname: a\ndescription: '  '\n---\n")[0].message, "missing or empty 'description' field");
}

#[test]
fn untyped_backtick_message() {
    let d = untyped_backtick::check("a", "a.pan", "Use `https://example.com` here", &[]);
    assert_eq!(d.len(), 1);
    assert_eq!(d[0].severity, Severity::Info);
    assert_eq!(d[0].message, "`https://example.com` looks like a url — consider `url::https://example.com`");
    assert_eq!(d[0].line, Some(1));
    assert_eq!(d[0].col, Some(5));
}

#[test]
fn oversized_fragment_message() {
    let ws = workspace(&[], &[("big", "one two three four five six")]);
    let mut cfg = SkilletConfig::default();
    cfg.lint.max_fragment_tokens = 5;
    let d = oversized::check_fragments(&ws, &cfg);
    assert_eq!(d.len(), 1);
    assert_eq!(d[0].message, "fragment 'big' is ~6 tokens (limit: 5)");
    assert_eq!(d[0].skill, "<workspace>");
    assert!(unused_fragment::check(&vec![], &ws).len() == 1);
}

#[test]
fn finalize_filters_and_promotes() {
    let diags = vec![
        diag(Severity::Warning, "a", "oversized-skill", "w".to_string()),
        diag(Severity::Info, "a", "untyped-backtick", "i".to_string()),
        diag_located(Severity::Error, "a", "stale-var-ref", "e".to_string(), None, Some(1), None),
    ];
    let disable = vec!["stale-var-ref".to_string()];
    let (out, errors) = finalize(&diags, &disable, false, false);
    assert_eq!(out.len(), 1);
    assert_eq!(out[0].severity, Severity::Warning);
    assert!(!errors);
    let (out, errors) = finalize(&diags, &vec![], true, true);
    assert_eq!(out.len(), 3);
    assert_eq!(out[0].severity, Severity::Error);
    assert_eq!(out[1].severity, Severity::Info);
    assert!(errors);
}

#[test]
fn findings_render_with_their_location() {
    let d = diag_located(
        Severity::Warning,
        "alpha",
        "oversized-skill",
        "too long".to_string(),
        Some("src/skills/alpha/alpha.pan".to_string()),
        Some(3),
        Some(7),
    );
    assert_eq!(finding_line(&d), "alpha (oversized-skill) too long (src/skills/alpha/alpha.pan:3:7)");
    let d = diag_located(Severity::Info, "alpha", "r", "m".to_string(), Some("p".to_string()), Some(3), None);
    assert_eq!(finding_line(&d), "alpha (r) m (p:3)");
    let d = diag_located(Severity::Info, "alpha", "r", "m".to_string(), Some("p".to_string()), None, Some(2));
    assert_eq!(finding_line(&d), "alpha (r) m (p)");
    let d = diag(Severity::Error, "<workspace>", "r", "m".to_string());
    assert_eq!(finding_line(&d), "<workspace> (r) m");
}

#[test]
fn summary_counts_each_severity() {
    let ds = vec![
        diag(Severity::Error, "a", "r", "m".to_string()),
        diag(Severity::Warning, "a", "r", "m".to_string()),
        diag(Severity::Warning, "a", "r", "m".to_string()),
    ];
    assert_eq!(summary_line(&ds), "1 error(s), 2 warning(s)");
    let ds = vec![diag(Severity::Info, "a", "r", "m".to_string())];
    assert_eq!(summary_line(&ds), "0 error(s), 0 warning(s), 1 info(s)");
}

#[test]
fn lint_if_cuttable_runs_on_clean_sources_and_refuses_uncuttable_ones() {
    let src = "---\nname: alpha\ndescription: Does one thing.\n---\n\n# Alpha\n\nPlain body.\n";
    let ws = workspace(&["alpha"], &[]);
    let (disk, lf) = fresh_disk_and_lock(&[("alpha", src)]);
    let mut raws = StrMap::new();
    raws.insert("alpha".to_string(), src.to_string());
    let out = lint_if_cuttable(&ws, &lf, &SkilletConfig::default(), &LintOptions::default(), &raws, &disk, &count_words)
        .expect("clean sources can be linted");
    assert!(out.diagnostics.is_empty());

    let bad = format!("---\n{}---\r\nbody", "éé\r\n".repeat(7));
    let mut raws = StrMap::new();
    raws.insert("alpha".to_string(), bad);
    assert!(lint_if_cuttable(&ws, &lf, &SkilletConfig::default(), &LintOptions::default(), &raws, &disk, &count_words)
        .is_none());
}

#[test]
fn compiled_text_keeps_the_front_matter_section() {
    let ws = workspace(&["a"], &[("f", "F text")]);
    let src = skillet::compiler::PanSource::new("---\nname: a\ndescription: d\n---\nbody {> f <} and {> f <}\n".to_string());
    let out = skillet::compiler::compile::compile(&ws, &src, &count_words);
    assert!(out.text.starts_with("---\nname: a\ndescription: d\n---\n"), "got {:?}", out.text);
    assert!(out.text.contains("F text"), "got {:?}", out.text);
    assert_eq!(out.fragments_used, vec!["f"]);
}

#[test]
fn invalid_frontmatter_passes_on_the_parser_message() {
    let d = invalid_frontmatter::check("a", "---\n- x\n- y\n---\n");
    assert_eq!(d.len(), 1);
    assert_eq!(
        d[0].message,
        "failed to parse frontmatter: failed to parse frontmatter: Type error, expected: hash map"
    );
}
