use skillet::collections::{StrMap, StrSet};
use skillet::config::SkilletConfig;
use skillet::freshness::{join_path, report_lines, skill_md_path, verify, DiskState, FileState};
use skillet::hashing::hash_bytes;
use skillet::lockfile::{FragmentLockEntry, Lockfile, SkillEntry, SkillRefs};
use skillet::workspace::skill::Skill;
use skillet::workspace::{Discovery, Workspace};

fn count(text: &str, _model: &str) -> u32 {
    text.len() as u32
}

fn skill(name: &str) -> Skill {
    Skill::new(
        name.to_string(),
        format!("/ws/src/skills/{name}/{name}.pan"),
        format!("/ws/src/skills/{name}"),
        format!("/ws/skills/{name}"),
        vec![],
        vec![],
        vec![],
    )
}

fn workspace(names: &[&str], fragments: &[(&str, &str)]) -> Workspace {
    let mut skills = StrMap::new();
    for n in names {
        skills.insert(n.to_string(), skill(n));
    }
    let mut raw = StrMap::new();
    let mut paths = StrMap::new();
    for (f, text) in fragments {
        raw.insert(f.to_string(), text.to_string());
        paths.insert(f.to_string(), format!("/ws/src/skills/_fragments/{f}.fragment.pan"));
    }
    let found = Discovery {
        root: "/ws".to_string(),
        skills,
        agents: StrMap::new(),
        raw_fragments: raw,
        fragment_paths: paths,
        commands_on_path: StrSet::new(),
        process_env: StrMap::new(),
    };
    Workspace::resolve(found, &SkilletConfig::default(), &count)
}

fn entry(source: &[u8], compiled: &[u8]) -> SkillEntry {
    SkillEntry {
        source_hash: hash_bytes(source),
        compiled_hash: hash_bytes(compiled),
        discovery_tokens: 0,
        activation_tokens: 0,
        transitive_tokens: 0,
        fragments_used: vec![],
        refs: SkillRefs::default(),
        minhash: vec![],
    }
}

fn disk(files: &[(&str, &[u8], Option<&[u8]>)]) -> DiskState {
    let mut sources = StrMap::new();
    let mut outputs = StrMap::new();
    for (name, src, out) in files {
        sources.insert(name.to_string(), FileState::Read(src.to_vec()));
        outputs.insert(
            name.to_string(),
            match out {
                Some(b) => FileState::Read(b.to_vec()),
                None => FileState::Missing,
            },
        );
    }
    DiskState { sources, outputs, fragments: StrMap::new() }
}

#[test]
fn verify_is_fresh_when_hashes_match() {
    let ws = workspace(&["alpha"], &[]);
    let mut lf = Lockfile::new();
    lf.skills.insert("alpha".to_string(), entry(b"src", b"out"));
    let report = verify(&ws, &lf, &disk(&[("alpha", b"src", Some(b"out"))]));
    assert!(report.fresh);
    assert_eq!(report.skills.len(), 1);
    assert!(report.skills[0].fresh);
    assert!(report.skills[0].reasons.is_empty());
}

#[test]
fn verify_reports_changed_source_and_output() {
    let ws = workspace(&["alpha"], &[]);
    let mut lf = Lockfile::new();
    lf.skills.insert("alpha".to_string(), entry(b"src", b"out"));
    let report = verify(&ws, &lf, &disk(&[("alpha", b"edited", Some(b"tampered"))]));
    assert!(!report.fresh);
    let r = &report.skills[0];
    assert_eq!(
        r.reasons,
        vec![
            "source 'alpha.pan' has changed since last build".to_string(),
            "SKILL.md does not match last build — run `skillet build`".to_string(),
        ]
    );
    assert_eq!(r.diffs[0].kind, "source_changed");
    assert_eq!(r.diffs[0].file.as_deref(), Some("/ws/src/skills/alpha/alpha.pan"));
    assert_eq!(r.diffs[1].kind, "skill_md_changed");
    assert_eq!(r.diffs[1].file.as_deref(), Some("/ws/skills/alpha/SKILL.md"));
}

#[test]
fn verify_reports_missing_output_and_unlocked_skill() {
    let ws = workspace(&["alpha", "beta"], &[]);
    let mut lf = Lockfile::new();
    lf.skills.insert("alpha".to_string(), entry(b"src", b"out"));
    let report = verify(&ws, &lf, &disk(&[("alpha", b"src", None), ("beta", b"b", None)]));
    assert!(!report.fresh);
    assert_eq!(report.skills[0].name, "alpha");
    assert_eq!(report.skills[0].reasons, vec!["SKILL.md is missing — run `skillet build`".to_string()]);
    assert_eq!(report.skills[0].diffs[0].kind, "skill_md_missing");
    assert_eq!(report.skills[1].name, "beta");
    assert_eq!(report.skills[1].reasons, vec!["skill 'beta' not in lockfile — run `skillet build`".to_string()]);
    assert_eq!(report.skills[1].diffs[0].kind, "not_in_lockfile");
    assert_eq!(report.skills[1].diffs[0].file, None);
}

#[test]
fn verify_flags_lockfile_only_skills_sorted_by_name() {
    let ws = workspace(&["beta"], &[]);
    let mut lf = Lockfile::new();
    lf.skills.insert("beta".to_string(), entry(b"b", b"o"));
    lf.skills.insert("alpha".to_string(), entry(b"a", b"o"));
    let report = verify(&ws, &lf, &disk(&[("beta", b"b", Some(b"o"))]));
    assert_eq!(report.skills.len(), 2);
    assert_eq!(report.skills[0].name, "alpha");
    assert!(!report.skills[0].fresh);
    assert_eq!(
        report.skills[0].reasons,
        vec!["skill 'alpha' is in lockfile but source directory no longer exists — run `skillet build`".to_string()]
    );
    assert_eq!(report.skills[0].diffs[0].kind, "source_dir_missing");
    assert!(report.skills[1].fresh);
    assert!(!report.fresh);
}

#[test]
fn verify_reports_changed_and_missing_fragments_for_their_users() {
    let ws = workspace(&["alpha"], &[("note", "text")]);
    let mut lf = Lockfile::new();
    lf.skills.insert("alpha".to_string(), entry(b"src", b"out"));
    lf.fragments.insert(
        "note".to_string(),
        FragmentLockEntry { hash: hash_bytes(b"old text"), tokens: 1, used_by: vec!["alpha".to_string()] },
    );
    lf.fragments.insert(
        "gone".to_string(),
        FragmentLockEntry { hash: hash_bytes(b"x"), tokens: 1, used_by: vec!["alpha".to_string()] },
    );
    let mut d = disk(&[("alpha", b"src", Some(b"out"))]);
    d.fragments.insert("note".to_string(), FileState::Read(b"text".to_vec()));
    let report = verify(&ws, &lf, &d);
    let r = &report.skills[0];
    assert!(!r.fresh);
    assert_eq!(
        r.reasons,
        vec![
            "fragment 'gone' is missing — run `skillet build`".to_string(),
            "fragment 'note' has changed since last build — run `skillet build`".to_string(),
        ]
    );
    assert_eq!(r.diffs[0].kind, "fragment_missing");
    assert_eq!(r.diffs[0].file, None);
    assert_eq!(r.diffs[1].kind, "fragment_changed");
    assert_eq!(r.diffs[1].file.as_deref(), Some("/ws/src/skills/_fragments/note.fragment.pan"));
}

#[test]
fn verify_reports_unreadable_files() {
    let ws = workspace(&["alpha"], &[]);
    let mut lf = Lockfile::new();
    lf.skills.insert("alpha".to_string(), entry(b"src", b"out"));
    let mut d = disk(&[]);
    d.outputs.insert("alpha".to_string(), FileState::Unreadable);
    let report = verify(&ws, &lf, &d);
    assert_eq!(
        report.skills[0].reasons,
        vec![
            "could not hash source: failed to read /ws/src/skills/alpha/alpha.pan for hashing".to_string(),
            "could not hash SKILL.md: failed to read /ws/skills/alpha/SKILL.md for hashing".to_string(),
        ]
    );
    assert!(report.skills[0].diffs.is_empty());
}

#[test]
fn join_path_adds_one_separator() {
    assert_eq!(join_path("/a/b", "c"), "/a/b/c");
    assert_eq!(join_path("/a/b/", "c"), "/a/b/c");
    assert_eq!(join_path("", "c"), "c");
    assert_eq!(join_path("/a", "/abs"), "/abs");
    assert_eq!(skill_md_path(&skill("x")), "/ws/skills/x/SKILL.md");
}

#[test]
fn report_lines_summarise_fresh_and_stale_skills() {
    let ws = workspace(&["alpha", "beta"], &[]);
    let mut lf = Lockfile::new();
    lf.skills.insert("alpha".to_string(), entry(b"src", b"out"));
    lf.skills.insert("beta".to_string(), entry(b"b", b"bo"));
    let fresh = verify(&ws, &lf, &disk(&[("alpha", b"src", Some(b"out")), ("beta", b"b", Some(b"bo"))]));
    assert_eq!(report_lines(&fresh), vec!["✓ all 2 skills are up-to-date".to_string()]);

    let stale = verify(&ws, &lf, &disk(&[("alpha", b"edited", Some(b"out")), ("beta", b"b", Some(b"bo"))]));
    assert_eq!(
        report_lines(&stale),
        vec![
            "✗ alpha: source 'alpha.pan' has changed since last build".to_string(),
            String::new(),
            "1 skill is stale".to_string(),
        ]
    );
}

#[test]
fn a_changed_fragment_leaves_skills_that_do_not_use_it_fresh() {
    let ws = workspace(&["alpha", "beta"], &[("note", "text")]);
    let mut lf = Lockfile::new();
    lf.skills.insert("alpha".to_string(), entry(b"a", b"A"));
    lf.skills.insert("beta".to_string(), entry(b"b", b"B"));
    lf.fragments.insert(
        "note".to_string(),
        FragmentLockEntry { hash: hash_bytes(b"old text"), tokens: 1, used_by: vec!["beta".to_string()] },
    );
    let mut d = disk(&[("alpha", b"a", Some(b"A")), ("beta", b"b", Some(b"B"))]);
    d.fragments.insert("note".to_string(), FileState::Read(b"text".to_vec()));
    let report = verify(&ws, &lf, &d);
    assert_eq!(report.skills[0].name, "alpha");
    assert!(report.skills[0].fresh);
    assert!(report.skills[0].reasons.is_empty());
    assert_eq!(report.skills[1].name, "beta");
    assert!(!report.skills[1].fresh);
    assert!(!report.fresh);
}

#[test]
fn changed_source_is_named_by_its_final_path_component() {
    let mut skills = StrMap::new();
    skills.insert(
        "alpha".to_string(),
        Skill::new(
            "alpha".to_string(),
            "/ws/src/skills/alpha//alpha.pan/.".to_string(),
            "/ws/src/skills/alpha".to_string(),
            "/ws/skills/alpha".to_string(),
            vec![],
            vec![],
            vec![],
        ),
    );
    let found = Discovery {
        root: "/ws".to_string(),
        skills,
        agents: StrMap::new(),
        raw_fragments: StrMap::new(),
        fragment_paths: StrMap::new(),
        commands_on_path: StrSet::new(),
        process_env: StrMap::new(),
    };
    let ws = Workspace::resolve(found, &SkilletConfig::default(), &count);
    let mut lf = Lockfile::new();
    lf.skills.insert("alpha".to_string(), entry(b"old", b"out"));
    let report = verify(&ws, &lf, &disk(&[("alpha", b"new", Some(b"out"))]));
    assert_eq!(report.skills[0].reasons, vec!["source 'alpha.pan' has changed since last build".to_string()]);
}
