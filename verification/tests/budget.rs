use skillet::budget::{budget_table, compute_rows, report, totals, BudgetRow, FragmentEntry};
use skillet::collections::{StrMap, StrSet};
use skillet::config::SkilletConfig;
use skillet::hashing::hash_bytes;
use skillet::lockfile::{FragmentLockEntry, Lockfile, SkillEntry, SkillRefs};
use skillet::workspace::skill::{Reference, Skill};
use skillet::workspace::{Discovery, Workspace};

fn count_words(text: &str, _model: &str) -> u32 {
    text.split_whitespace().count() as u32
}

fn skill(name: &str, references: Vec<Reference>) -> Skill {
    Skill::new(
        name.to_string(),
        format!("/ws/src/skills/{name}/{name}.pan"),
        format!("/ws/src/skills/{name}"),
        format!("/ws/skills/{name}"),
        vec![],
        references,
        vec![],
    )
}

fn workspace(skills_in: Vec<Skill>, fragments: &[(&str, &str)]) -> Workspace {
    let mut skills = StrMap::new();
    for s in skills_in {
        skills.insert(s.name.clone(), s);
    }
    let mut raw = StrMap::new();
    for (f, text) in fragments {
        raw.insert(f.to_string(), text.to_string());
    }
    let found = Discovery {
        root: "/ws".to_string(),
        skills,
        agents: StrMap::new(),
        raw_fragments: raw,
        fragment_paths: StrMap::new(),
        commands_on_path: StrSet::new(),
        process_env: StrMap::new(),
    };
    Workspace::resolve(found, &SkilletConfig::default(), &count_words)
}

fn entry(activation: u32, fragments: &[&str]) -> SkillEntry {
    SkillEntry {
        source_hash: hash_bytes(b""),
        compiled_hash: hash_bytes(b""),
        discovery_tokens: 7,
        activation_tokens: activation,
        transitive_tokens: 99,
        fragments_used: fragments.iter().map(|f| f.to_string()).collect(),
        refs: SkillRefs::default(),
        minhash: vec![],
    }
}

#[test]
fn rows_come_from_the_lockfile_when_recorded() {
    let ws = workspace(vec![skill("alpha", vec![])], &[]);
    let mut lf = Lockfile::new();
    lf.skills.insert("alpha".to_string(), entry(50, &["note", "unknown"]));
    lf.fragments.insert("note".to_string(), FragmentLockEntry { hash: String::new(), tokens: 20, used_by: vec![] });
    let rows = compute_rows(&ws, &lf, None, "cl100k_base", &StrMap::new(), &count_words).unwrap();
    assert_eq!(rows.len(), 1);
    let r = &rows[0];
    assert_eq!(r.skill, "alpha");
    assert_eq!(r.discovery, 7);
    assert_eq!(r.activation, 30);
    assert_eq!(r.transitive, 99);
    assert_eq!(r.fragments.len(), 2);
    assert_eq!((r.fragments[0].name.as_str(), r.fragments[0].tokens), ("note", 20));
    assert_eq!((r.fragments[1].name.as_str(), r.fragments[1].tokens), ("unknown", 0));
}

#[test]
fn activation_saturates_at_zero() {
    let ws = workspace(vec![skill("alpha", vec![])], &[]);
    let mut lf = Lockfile::new();
    lf.skills.insert("alpha".to_string(), entry(5, &["note"]));
    lf.fragments.insert("note".to_string(), FragmentLockEntry { hash: String::new(), tokens: 20, used_by: vec![] });
    let rows = compute_rows(&ws, &lf, None, "m", &StrMap::new(), &count_words).unwrap();
    assert_eq!(rows[0].activation, 0);
}

#[test]
fn rows_are_counted_from_disk_without_a_recorded_count() {
    let refs = vec![Reference {
        name: "guide".to_string(),
        relative_path: "references/guide.pan".to_string(),
        absolute_path: "/ws/src/skills/alpha/references/guide.pan".to_string(),
    }];
    let ws = workspace(vec![skill("alpha", refs)], &[("note", "one two three")]);
    let mut lf = Lockfile::new();
    lf.skills.insert("alpha".to_string(), entry(0, &["note"]));
    let mut files = StrMap::new();
    files.insert(
        "/ws/skills/alpha/SKILL.md".to_string(),
        "---\nname: alpha\ndescription: Does a thing\n---\n\nBody text here.\n".to_string(),
    );
    files.insert("/ws/src/skills/alpha/alpha.pan".to_string(), "See `ref::scripts/run.sh` and `ref::missing.md`.".to_string());
    files.insert("/ws/src/skills/alpha/scripts/run.sh".to_string(), "echo hi there".to_string());
    files.insert("/ws/src/skills/alpha/references/guide.pan".to_string(), "a b".to_string());
    let rows = compute_rows(&ws, &lf, Some("alpha"), "m", &files, &count_words).unwrap();
    let r = &rows[0];
    // "alpha Does a thing"
    assert_eq!(r.discovery, 4);
    // compiled text has 11 words; the fragment counts 3.
    assert_eq!(r.activation, 11 - 3);
    assert_eq!(r.transitive, 11 + 3 + 2);
    assert_eq!(r.fragments.len(), 1);
    assert_eq!(r.fragments[0].tokens, 3);
}

#[test]
fn missing_skill_md_is_an_error() {
    let ws = workspace(vec![skill("alpha", vec![])], &[]);
    let lf = Lockfile::new();
    let err = compute_rows(&ws, &lf, None, "m", &StrMap::new(), &count_words).unwrap_err();
    assert_eq!(err, "SKILL.md not found for 'alpha' — run `skillet build` first");
}

#[test]
fn missing_source_is_an_error() {
    let ws = workspace(vec![skill("alpha", vec![])], &[]);
    let lf = Lockfile::new();
    let mut files = StrMap::new();
    files.insert("/ws/skills/alpha/SKILL.md".to_string(), "text".to_string());
    let err = compute_rows(&ws, &lf, None, "m", &files, &count_words).unwrap_err();
    assert_eq!(err, "failed to read source '/ws/src/skills/alpha/alpha.pan'");
}

#[test]
fn a_named_skill_selects_one_row() {
    let ws = workspace(vec![skill("alpha", vec![]), skill("beta", vec![])], &[]);
    let mut lf = Lockfile::new();
    lf.skills.insert("alpha".to_string(), entry(10, &[]));
    lf.skills.insert("beta".to_string(), entry(20, &[]));
    let rows = compute_rows(&ws, &lf, Some("beta"), "m", &StrMap::new(), &count_words).unwrap();
    assert_eq!(rows.len(), 1);
    assert_eq!(rows[0].skill, "beta");
    let all = compute_rows(&ws, &lf, None, "m", &StrMap::new(), &count_words).unwrap();
    assert_eq!(all.iter().map(|r| r.skill.as_str()).collect::<Vec<_>>(), vec!["alpha", "beta"]);
    let none = compute_rows(&ws, &lf, Some("gamma"), "m", &StrMap::new(), &count_words).unwrap();
    assert!(none.is_empty());
}

#[test]
fn totals_sum_the_rows() {
    let rows = vec![
        BudgetRow { skill: "a".to_string(), discovery: 1, activation: 2, transitive: 3, fragments: vec![] },
        BudgetRow {
            skill: "b".to_string(),
            discovery: 10,
            activation: 20,
            transitive: 30,
            fragments: vec![FragmentEntry { name: "f".to_string(), tokens: 4 }],
        },
    ];
    let t = totals(&rows);
    assert_eq!((t.discovery, t.activation, t.transitive), (11, 22, 33));
    let rep = report(rows);
    assert_eq!(rep.skills.len(), 2);
    assert_eq!(rep.totals.activation, 22);
}

#[test]
fn budget_table_pads_columns_and_sums_totals() {
    let rows = vec![
        BudgetRow {
            skill: "alpha".to_string(),
            discovery: 12,
            activation: 340,
            transitive: 400,
            fragments: vec![
                FragmentEntry { name: "note".to_string(), tokens: 7 },
                FragmentEntry { name: "tips".to_string(), tokens: 12 },
            ],
        },
        BudgetRow { skill: "b".to_string(), discovery: 3, activation: 5, transitive: 5, fragments: vec![] },
    ];
    let lines = budget_table(&rows);
    assert_eq!(lines.len(), 6);
    assert_eq!(lines[0], "Skill  Discovery  Activation  Transitive  Fragments        ");
    assert_eq!(lines[1], "─".repeat(5 + 2 + 9 + 2 + 10 + 2 + 10 + 2 + 17));
    assert_eq!(lines[2], "alpha         12         340         400  note(7), tips(12)");
    assert_eq!(lines[3], "b              3           5           5  ");
    assert_eq!(lines[4], lines[1]);
    assert_eq!(lines[5], "TOTAL         15         345");
}

#[test]
fn budget_table_without_rows() {
    assert_eq!(budget_table(&vec![]), vec!["No skills found.".to_string()]);
}
