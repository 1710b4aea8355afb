use skillet::config::SkilletConfig;

#[test]
fn default_has_one_module_with_expected_dirs() {
    let cfg = SkilletConfig::default();
    assert_eq!(cfg.modules.len(), 1);
    let m = cfg.modules.get("default").expect("default module");
    assert_eq!(m.src_dir, "src/skills");
    assert_eq!(m.out_dir, "skills");
    assert_eq!(m.fragments_dir.as_deref(), Some("src/skills/_fragments"));
    assert_eq!(m.version, "0.1.0");
}

#[test]
fn default_lint_token_limits_match_spec() {
    let cfg = SkilletConfig::default();
    assert_eq!(cfg.lint.max_activation_tokens, 4000);
    assert_eq!(cfg.lint.max_discovery_tokens, 100);
    assert_eq!(cfg.lint.max_fragment_tokens, 500);
}

#[test]
fn default_build_uses_cl100k_base_tokenizer() {
    let cfg = SkilletConfig::default();
    assert_eq!(cfg.build.tokenizer, "cl100k_base");
    assert!(!cfg.build.verify_urls);
}

#[test]
fn default_disable_list_is_empty() {
    let cfg = SkilletConfig::default();
    assert!(cfg.lint.disable.is_empty());
}

#[test]
fn default_env_declares_ci_and_team_name() {
    let cfg = SkilletConfig::default();
    assert_eq!(cfg.env.len(), 2);
    assert_eq!(cfg.env.get("CI").unwrap().default, "false");
    assert_eq!(cfg.env.get("TEAM_NAME").unwrap().default, "engineering");
}
