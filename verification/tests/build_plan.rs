use skillet::build_plan::{
    build_skill, fragments_needing_disk_hash, rebuild_fragment_entries, select_targets,
};
use skillet::collections::{StrMap, StrSet};
use skillet::config::SkilletConfig;
use skillet::hashing::hash_bytes;
use skillet::lockfile::{Lockfile, SkillEntry, SkillRefs};
use skillet::workspace::skill::Skill;
use skillet::workspace::{Discovery, Workspace};

fn count(text: &str, _model: &str) -> u32 {
    text.len() as u32
}

fn skill(name: &str) -> Skill {
    Skill::new(
        name.to_string(),
        format!("/ws/src/skills/{name}/{name}.pan"),
        format!("/ws/src/skills/{name}"),
        format!("/ws/skills/{name}"),
        vec![],
        vec![],
        vec![format!("{name}.pan")],
    )
}

fn workspace(names: &[&str], fragments: &[(&str, &str)]) -> Workspace {
    let mut skills = StrMap::new();
    for n in names {
        skills.insert(n.to_string(), skill(n));
    }
    let mut raw = StrMap::new();
    for (f, text) in fragments {
        raw.insert(f.to_string(), text.to_string());
    }
    let found = Discovery {
        root: "/ws".to_string(),
        skills,
        agents: StrMap::new(),
        raw_fragments: raw,
        fragment_paths: StrMap::new(),
        commands_on_path: StrSet::new(),
        process_env: StrMap::new(),
    };
    Workspace::resolve(found, &SkilletConfig::default(), &count)
}

fn source(name: &str, body: &str) -> String {
    format!("---\nname: {name}\ndescription: \"\"\n---\n\n{body}")
}

fn build_all(ws: &Workspace, lf: &mut Lockfile, sources: &[(&str, &str)]) {
    for (name, body) in sources {
        let s = ws.skills.get(name).unwrap();
        let b = build_skill(ws, s, source(name, body), lf, &count);
        assert!(b.output.is_some(), "{:?}", b.diagnostics);
    }
}

#[test]
fn run_errors_when_named_skill_not_found() {
    let ws = workspace(&["alpha"], &[]);
    let result = select_targets(&ws, Some("nonexistent"));
    assert!(result.is_err());
    assert_eq!(result.unwrap_err(), "skill 'nonexistent' not found in workspace");
}

#[test]
fn targets_are_all_skills_in_name_order() {
    let ws = workspace(&["zulu", "alpha"], &[]);
    assert_eq!(select_targets(&ws, None).unwrap(), vec!["alpha".to_string(), "zulu".to_string()]);
    assert_eq!(select_targets(&ws, Some("zulu")).unwrap(), vec!["zulu".to_string()]);
}

#[test]
fn rebuild_fragment_entries_populates_hash_and_used_by() {
    let ws = workspace(&["alpha"], &[("note", "## Note\nfragment content\n")]);
    let mut lf = Lockfile::new();
    build_all(&ws, &mut lf, &[("alpha", "{>note<}\n")]);
    rebuild_fragment_entries(&mut lf, &ws, &StrMap::new());

    let frag = lf.fragments.get("note").expect("'note' fragment entry missing");
    assert!(!frag.hash.is_empty(), "fragment hash should be set");
    assert!(frag.hash.starts_with("sha256:"), "hash should be sha256 prefixed");
    assert_eq!(frag.used_by, vec!["alpha"], "used_by should list 'alpha'");
    assert_eq!(frag.hash, hash_bytes("## Note\nfragment content\n".as_bytes()));
    assert_eq!(frag.tokens, "## Note\nfragment content\n".len() as u32);
}

#[test]
fn rebuild_fragment_entries_lists_all_skills_for_shared_fragment() {
    let ws = workspace(&["skill-a", "skill-b"], &[("shared", "## Shared\ncontent\n")]);
    let mut lf = Lockfile::new();
    build_all(&ws, &mut lf, &[("skill-b", "{>shared<}\n"), ("skill-a", "{>shared<}\n")]);
    rebuild_fragment_entries(&mut lf, &ws, &StrMap::new());

    let frag = lf.fragments.get("shared").unwrap();
    assert_eq!(frag.used_by, vec!["skill-a", "skill-b"]);
}

fn entry_using(frags: &[&str]) -> SkillEntry {
    SkillEntry {
        source_hash: String::new(),
        compiled_hash: String::new(),
        discovery_tokens: 0,
        activation_tokens: 0,
        transitive_tokens: 0,
        fragments_used: frags.iter().map(|f| f.to_string()).collect(),
        refs: SkillRefs::default(),
        minhash: vec![],
    }
}

#[test]
fn fragments_missing_from_the_workspace_take_their_hash_from_disk() {
    let ws = workspace(&[], &[("known", "k\n")]);
    let mut lf = Lockfile::new();
    lf.skills.insert("b".to_string(), entry_using(&["gone", "known"]));
    lf.skills.insert("a".to_string(), entry_using(&["gone", "lost"]));
    assert_eq!(fragments_needing_disk_hash(&lf, &ws), vec!["gone".to_string(), "lost".to_string()]);

    let mut disk = StrMap::new();
    disk.insert("gone".to_string(), "sha256:abc".to_string());
    rebuild_fragment_entries(&mut lf, &ws, &disk);
    assert_eq!(lf.fragments.len(), 3);
    let gone = lf.fragments.get("gone").unwrap();
    assert_eq!(gone.hash, "sha256:abc");
    assert_eq!(gone.tokens, 0);
    assert_eq!(gone.used_by, vec!["a", "b"]);
    let lost = lf.fragments.get("lost").unwrap();
    assert_eq!(lost.hash, "");
    assert_eq!(lost.used_by, vec!["a"]);
    let known = lf.fragments.get("known").unwrap();
    assert_eq!(known.tokens, 2);
    assert_eq!(known.used_by, vec!["b"]);
}

#[test]
fn build_records_hashes_tokens_and_fragments() {
    let ws = workspace(&["alpha"], &[("note", "N\n")]);
    let mut lf = Lockfile::new();
    let src = source("alpha", "Hello {>note<}\n");
    let s = ws.skills.get("alpha").unwrap();
    let b = build_skill(&ws, s, src.clone(), &mut lf, &count);
    let text = b.output.unwrap();
    assert!(b.diagnostics.is_empty());
    assert!(text.contains("N"));
    let e = lf.skills.get("alpha").unwrap();
    assert_eq!(e.source_hash, hash_bytes(src.as_bytes()));
    assert_eq!(e.compiled_hash, hash_bytes(text.as_bytes()));
    assert_eq!(e.activation_tokens, text.len() as u32);
    assert_eq!(e.transitive_tokens, 0);
    assert_eq!(e.fragments_used, vec!["note".to_string()]);
}

#[test]
fn build_keeps_the_signature_only_while_the_output_is_unchanged() {
    let ws = workspace(&["alpha"], &[]);
    let mut lf = Lockfile::new();
    let s = ws.skills.get("alpha").unwrap();
    build_skill(&ws, s, source("alpha", "Body\n"), &mut lf, &count);
    assert!(lf.set_minhash("alpha", vec![1, 2, 3]));

    build_skill(&ws, s, source("alpha", "Body\n"), &mut lf, &count);
    assert_eq!(lf.skills.get("alpha").unwrap().minhash, vec![1, 2, 3]);

    build_skill(&ws, s, source("alpha", "Other body\n"), &mut lf, &count);
    assert!(lf.skills.get("alpha").unwrap().minhash.is_empty());
}

#[test]
fn build_stops_on_check_errors_and_leaves_the_lockfile() {
    let ws = workspace(&["alpha"], &[]);
    let mut lf = Lockfile::new();
    let s = ws.skills.get("alpha").unwrap();
    let b = build_skill(&ws, s, source("alpha", "{>missing<}\n"), &mut lf, &count);
    assert!(b.output.is_none());
    assert_eq!(b.diagnostics.len(), 1);
    assert!(b.diagnostics[0].starts_with("[error] alpha "), "{}", b.diagnostics[0]);
    assert!(b.diagnostics[0].ends_with("(/ws/src/skills/alpha/alpha.pan:6:1)"), "{}", b.diagnostics[0]);
    assert!(lf.skills.is_empty());
}
