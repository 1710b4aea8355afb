use skillet::config::{resolve_module_src_dir, ModuleConfig, SkilletConfig};
use skillet::init::{adopt_plan, init_report, new_skill_paths, AdoptDir};
use skillet::publish::{plugin_entries, published_module_names, slash_separated};

fn adopt_dir(name: &str, has_skill_md: bool, files: &[&str], dirs: &[&str]) -> AdoptDir {
    AdoptDir {
        name: name.to_string(),
        path: format!("/ws/skills/{name}"),
        is_dir: true,
        has_skill_md,
        files: files.iter().map(|f| f.to_string()).collect(),
        dirs: dirs.iter().map(|d| d.to_string()).collect(),
    }
}

fn copies(plan: &skillet::init::AdoptPlan) -> Vec<(String, String)> {
    plan.copies.iter().map(|c| (c.from.clone(), c.to.clone())).collect()
}

#[test]
fn run_creates_skills_dirs_and_config() {
    let r = init_report("/tmp/ws");
    assert_eq!(
        r.created_dirs,
        vec![
            "/tmp/ws/src/skills".to_string(),
            "/tmp/ws/skills".to_string(),
            "/tmp/ws/src/skills/_fragments".to_string()
        ]
    );
    assert_eq!(r.config_path, "/tmp/ws/skillet.toml");
}

#[test]
fn adopt_skills_is_noop_when_skills_dir_does_not_exist() {
    let plan = adopt_plan("/ws/src/skills", &vec![]);
    assert!(plan.dirs.is_empty());
    assert!(plan.copies.is_empty());
}

#[test]
fn adopt_skills_copies_skill_md_as_named_dot_pan_file() {
    let plan = adopt_plan("/ws/src/skills", &vec![adopt_dir("diagnose", true, &["SKILL.md"], &[])]);
    assert_eq!(plan.dirs, vec!["/ws/src/skills/diagnose".to_string()]);
    assert_eq!(
        copies(&plan),
        vec![("/ws/skills/diagnose/SKILL.md".to_string(), "/ws/src/skills/diagnose/diagnose.pan".to_string())]
    );
}

#[test]
fn adopt_skills_copies_reference_md_files_as_pan() {
    let plan = adopt_plan(
        "/ws/src/skills",
        &vec![adopt_dir("my-skill", true, &["SKILL.md", "reference/guide.md"], &["reference"])],
    );
    assert_eq!(
        copies(&plan)[1],
        (
            "/ws/skills/my-skill/reference/guide.md".to_string(),
            "/ws/src/skills/my-skill/reference/guide.pan".to_string()
        )
    );
}

#[test]
fn adopt_skills_copies_other_subfolders_verbatim() {
    let plan = adopt_plan(
        "/ws/src/skills",
        &vec![adopt_dir("my-skill", true, &["SKILL.md", "scripts/run.sh", "notes.md"], &["scripts"])],
    );
    assert_eq!(plan.dirs, vec!["/ws/src/skills/my-skill".to_string(), "/ws/src/skills/my-skill/scripts".to_string()]);
    assert_eq!(copies(&plan).len(), 2);
    assert_eq!(
        copies(&plan)[1],
        ("/ws/skills/my-skill/scripts/run.sh".to_string(), "/ws/src/skills/my-skill/scripts/run.sh".to_string())
    );
}

#[test]
fn adopt_reference_dir_renames_nested_md_to_pan() {
    let plan = adopt_plan(
        "/ws/src/skills",
        &vec![adopt_dir("s", true, &["reference/a.md", "reference/sub/b.md", "reference/c.txt"], &[])],
    );
    let to: Vec<String> = copies(&plan).into_iter().map(|c| c.1).collect();
    assert_eq!(
        to,
        vec![
            "/ws/src/skills/s/s.pan".to_string(),
            "/ws/src/skills/s/reference/a.pan".to_string(),
            "/ws/src/skills/s/reference/sub/b.pan".to_string(),
            "/ws/src/skills/s/reference/c.txt".to_string(),
        ]
    );
}

#[test]
fn adopt_skips_hidden_dirs_and_dirs_without_skill_md() {
    let plan = adopt_plan(
        "/ws/src/skills",
        &vec![adopt_dir("_private", true, &[], &[]), adopt_dir("empty", false, &[], &[])],
    );
    assert!(plan.dirs.is_empty() && plan.copies.is_empty());
}

#[test]
fn new_skill_paths_under_the_source_dir() {
    let (dir, file) = new_skill_paths("/ws/src/skills", "my-skill");
    assert_eq!(dir, "/ws/src/skills/my-skill");
    assert_eq!(file, "/ws/src/skills/my-skill/my-skill.pan");
}

fn module(src: &str, out: &str, publish: bool, description: Option<&str>) -> ModuleConfig {
    ModuleConfig::new(
        src.to_string(),
        out.to_string(),
        "1.0.0".to_string(),
        None,
        description.map(|d| d.to_string()),
        publish,
    )
}

#[test]
fn module_src_dir_is_the_named_or_only_module() {
    let cfg = SkilletConfig::default();
    assert_eq!(resolve_module_src_dir("/ws", &cfg, None), Ok("/ws/src/skills".to_string()));
    assert_eq!(resolve_module_src_dir("/ws", &cfg, Some("default")), Ok("/ws/src/skills".to_string()));
    assert_eq!(
        resolve_module_src_dir("/ws", &cfg, Some("other")),
        Err("module 'other' not found in skillet.toml".to_string())
    );
}

#[test]
fn module_src_dir_needs_a_name_among_several_modules() {
    let mut cfg = SkilletConfig::default();
    cfg.modules.insert("extra".to_string(), module("src/extra", "out/extra", false, None));
    assert_eq!(
        resolve_module_src_dir("/ws", &cfg, None),
        Err("multiple modules defined — use --module <name> to specify which one (available: default, extra)"
            .to_string())
    );
    assert_eq!(resolve_module_src_dir("/ws", &cfg, Some("extra")), Ok("/ws/src/extra".to_string()));
}

#[test]
fn module_src_dir_errors_without_modules() {
    let mut cfg = SkilletConfig::default();
    cfg.modules = skillet::collections::StrMap::new();
    assert_eq!(
        resolve_module_src_dir("/ws", &cfg, None),
        Err("no modules defined in skillet.toml — add a [module.*] section".to_string())
    );
}

#[test]
fn published_modules_become_plugin_entries_in_name_order() {
    let mut cfg = SkilletConfig::default();
    cfg.modules.insert("zeta".to_string(), module("src/z", "out\\zeta", true, Some("Z tools")));
    cfg.modules.insert("alpha".to_string(), module("src/a", "out/alpha", true, None));
    let entries = plugin_entries(&cfg);
    assert_eq!(entries.len(), 2);
    assert_eq!(entries[0].name, "alpha");
    assert_eq!(entries[0].source, "./out/alpha");
    assert_eq!(entries[0].description, None);
    assert_eq!(entries[1].name, "zeta");
    assert_eq!(entries[1].source, "./out/zeta");
    assert_eq!(entries[1].version, "1.0.0");
    assert_eq!(entries[1].description, Some("Z tools".to_string()));
    assert_eq!(published_module_names(&entries), vec!["alpha".to_string(), "zeta".to_string()]);
}

#[test]
fn backslashes_become_slashes() {
    assert_eq!(slash_separated("a\\b\\c"), "a/b/c");
    assert_eq!(slash_separated("plain/path"), "plain/path");
}

#[test]
fn init_refuses_an_existing_config() {
    let err = skillet::init::init_plan("/tmp/ws", true).unwrap_err();
    assert_eq!(err, "skillet.toml already exists at /tmp/ws/skillet.toml, refusing to overwrite");
    assert!(err.contains("refusing to overwrite"));
    let ok = skillet::init::init_plan("/tmp/ws", false).unwrap();
    assert_eq!(ok.config_path, "/tmp/ws/skillet.toml");
}

#[test]
fn new_refuses_an_existing_skill_dir() {
    let err = skillet::init::new_skill_plan("/ws/src/skills", "my-skill", true).unwrap_err();
    assert_eq!(err, "skill 'my-skill' already exists at /ws/src/skills/my-skill");
    let (dir, file) = skillet::init::new_skill_plan("/ws/src/skills", "my-skill", false).unwrap();
    assert_eq!(dir, "/ws/src/skills/my-skill");
    assert_eq!(file, "/ws/src/skills/my-skill/my-skill.pan");
}
