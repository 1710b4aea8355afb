use skillet::collections::{StrMap, StrSet};
use skillet::config::SkilletConfig;
use skillet::workspace::discover::{
    discover_agents, discover_skills, fragment_name, is_hidden, last_component_of, load_all_fragments,
    resolve_references, resolve_scripts, split_file_name, AgentFileEntry, FragmentFile, SkillDirEntry,
};
use skillet::workspace::{Discovery, Workspace};

fn count(text: &str, _model: &str) -> u32 {
    text.len() as u32
}

fn skill_dir(name: &str, is_dir: bool, has_source: bool, files: &[&str]) -> SkillDirEntry {
    SkillDirEntry {
        name: name.to_string(),
        path: format!("/tmp/ws/src/skills/{name}"),
        is_dir,
        has_source,
        files: files.iter().map(|f| f.to_string()).collect(),
    }
}

fn agent_file(file_name: &str) -> AgentFileEntry {
    AgentFileEntry {
        file_name: file_name.to_string(),
        path: format!("/tmp/ws/agents/{file_name}"),
        is_file: true,
    }
}

fn resolve(skills: Vec<SkillDirEntry>, agents: Vec<AgentFileEntry>, fragments: Vec<FragmentFile>) -> Workspace {
    let found = Discovery {
        root: "/tmp/ws".to_string(),
        skills: discover_skills("/tmp/ws/skills", skills),
        agents: discover_agents("/tmp/ws/skills", agents),
        raw_fragments: load_all_fragments(fragments),
        fragment_paths: StrMap::new(),
        commands_on_path: StrSet::new(),
        process_env: StrMap::new(),
    };
    Workspace::resolve(found, &SkilletConfig::default(), &count)
}

#[test]
fn resolve_finds_skill_with_scripts_and_references() {
    let entry = skill_dir(
        "diagnose",
        true,
        true,
        &["diagnose.pan", "scripts/setup.sh", "references/api/types.pan"],
    );
    let ws = resolve(vec![entry], vec![], vec![]);

    assert_eq!(ws.skills.len(), 1);
    let s = ws.skills.get("diagnose").unwrap();
    assert_eq!(s.name, "diagnose");
    assert_eq!(s.scripts.len(), 1);
    assert_eq!(s.scripts[0].relative_path, "scripts/setup.sh");
    assert_eq!(s.references.len(), 1);
    assert_eq!(s.references[0].relative_path, "references/api/types.pan");
    assert_eq!(s.references[0].name, "api/types");
    assert!(ws.agents.is_empty());
}

#[test]
fn resolve_finds_agents() {
    let ws = resolve(vec![], vec![agent_file("triage.pan")], vec![]);
    assert!(ws.skills.is_empty());
    assert_eq!(ws.agents.len(), 1);
    assert_eq!(ws.agents.get("triage").unwrap().name, "triage");
}

#[test]
fn resolve_skips_underscore_and_dot_dirs() {
    let ws = resolve(
        vec![
            skill_dir("_fragments", true, true, &["_fragments.pan"]),
            skill_dir(".hidden", true, true, &[".hidden.pan"]),
        ],
        vec![],
        vec![],
    );
    assert!(ws.skills.is_empty());
}

#[test]
fn resolve_returns_empty_when_dirs_missing() {
    let ws = resolve(vec![], vec![], vec![]);
    assert!(ws.skills.is_empty());
    assert!(ws.agents.is_empty());
}

#[test]
fn resolve_loads_and_renders_fragments() {
    let ws = resolve(
        vec![],
        vec![],
        vec![FragmentFile { file_name: "check-adrs.fragment.pan".to_string(), content: "## Check ADRs\n".to_string() }],
    );
    assert_eq!(ws.raw_fragments.len(), 1);
    assert!(ws.raw_fragments.contains_key("check-adrs"));
    assert!(ws.fragments.rendered.contains_key("check-adrs"));
    assert!(ws.fragment_hashes.contains_key("check-adrs"));
    assert!(ws.fragment_tokens.contains_key("check-adrs"));
}

#[test]
fn skill_names_returns_set() {
    let ws = resolve(
        vec![skill_dir("alpha", true, true, &["alpha.pan"]), skill_dir("zulu", true, true, &["zulu.pan"])],
        vec![],
        vec![],
    );
    let names = ws.skill_names();
    assert!(names.contains("alpha"));
    assert!(names.contains("zulu"));
    assert_eq!(names.len(), 2);
}

#[test]
fn discover_skills_returns_empty_when_dir_missing() {
    let skills = discover_skills("/tmp/ws/skills", vec![]);
    assert!(skills.is_empty());
}

#[test]
fn discover_skills_builds_paths_and_skips_dirs_without_source() {
    let skills = discover_skills(
        "/tmp/ws/skills",
        vec![
            skill_dir("zeta", true, true, &[]),
            skill_dir("alpha", true, true, &[]),
            skill_dir("nosrc", true, false, &[]),
            skill_dir("file.txt", false, true, &[]),
        ],
    );
    assert_eq!(skills.len(), 2);
    assert_eq!(skills.key_at(0), "alpha");
    assert_eq!(skills.key_at(1), "zeta");
    let a = skills.get("alpha").unwrap();
    assert_eq!(a.source_path, "/tmp/ws/src/skills/alpha/alpha.pan");
    assert_eq!(a.src_dir, "/tmp/ws/src/skills/alpha");
    assert_eq!(a.target_dir, "/tmp/ws/skills/alpha");
}

#[test]
fn scripts_are_sorted_by_relative_path_with_stems_as_names() {
    let files: Vec<String> = ["scripts/z.sh", "scripts/tools/a.py", "notes.md", "scripts/b"]
        .iter()
        .map(|s| s.to_string())
        .collect();
    let scripts = resolve_scripts("/tmp/ws/src/skills/s", &files);
    let paths: Vec<&str> = scripts.iter().map(|s| s.relative_path.as_str()).collect();
    assert_eq!(paths, vec!["scripts/b", "scripts/tools/a.py", "scripts/z.sh"]);
    let names: Vec<&str> = scripts.iter().map(|s| s.name.as_str()).collect();
    assert_eq!(names, vec!["b", "a", "z"]);
    assert_eq!(scripts[2].absolute_path, "/tmp/ws/src/skills/s/scripts/z.sh");
}

#[test]
fn references_keep_only_pan_files_named_without_extension() {
    let files: Vec<String> = ["references/guide.md", "references/a/b.v2.pan", "references/top.pan", "top.pan"]
        .iter()
        .map(|s| s.to_string())
        .collect();
    let refs = resolve_references("/s", &files);
    let names: Vec<&str> = refs.iter().map(|r| r.name.as_str()).collect();
    assert_eq!(names, vec!["a/b.v2", "top"]);
    assert_eq!(refs[0].absolute_path, "/s/references/a/b.v2.pan");
}

#[test]
fn agents_need_pan_or_md_and_a_visible_stem() {
    let agents = discover_agents(
        "/out",
        vec![
            agent_file("triage.md"),
            agent_file("_draft.pan"),
            agent_file("notes.txt"),
            agent_file(".pan"),
            AgentFileEntry { file_name: "dir.pan".to_string(), path: "/ws/agents/dir.pan".to_string(), is_file: false },
        ],
    );
    assert_eq!(agents.len(), 1);
    let a = agents.get("triage").unwrap();
    assert_eq!(a.source_path, "/tmp/ws/agents/triage.md");
    assert_eq!(a.target_path, "/out/agents/triage.md");
}

#[test]
fn fragment_names_strip_the_suffix() {
    assert_eq!(fragment_name("check-adrs.fragment.pan"), Some("check-adrs".to_string()));
    assert_eq!(fragment_name("check-adrs.pan"), None);
    assert_eq!(fragment_name(".fragment.pan"), Some(String::new()));
}

#[test]
fn file_names_split_at_the_last_dot() {
    assert_eq!(split_file_name("a.tar.gz"), ("a.tar".to_string(), Some("gz".to_string())));
    assert_eq!(split_file_name(".bashrc"), (".bashrc".to_string(), None));
    assert_eq!(split_file_name("noext"), ("noext".to_string(), None));
    assert_eq!(split_file_name("trailing."), ("trailing".to_string(), Some(String::new())));
    assert_eq!(last_component_of("a/b/c.txt"), "c.txt");
    assert_eq!(last_component_of("c.txt"), "c.txt");
    assert!(is_hidden("_x") && is_hidden(".x") && !is_hidden("x_") && !is_hidden(""));
}
