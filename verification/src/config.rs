//! Configuration types for `skillet.toml`.
use vstd::prelude::*;

use crate::collections::{StrMap, StrSet};
use crate::freshness::{join_path, joined};
use crate::parse::opt_str_view;
use crate::text::concat3;

verus! {

/// Global workspace settings. Owns only workspace-wide concerns.
/// Source and output directories live in `[module.*]` sections.
#[non_exhaustive]
#[derive(Debug)]
pub struct WorkspaceConfig {
    /// Path to workspace-global fragment files, shared across all modules.
    pub fragments_dir: Option<String>,
    /// Plugin marketplace publish settings.
    pub publish: Option<PublishConfig>,
}

/// Publish configuration controlling plugin marketplace output.
#[non_exhaustive]
#[derive(Debug)]
pub struct PublishConfig {
    /// Agent runtimes to emit marketplace manifests for.
    pub agents: Vec<String>,
    /// Marketplace identifier written into `marketplace.json`.
    pub marketplace_name: String,
    /// Marketplace owner name.
    pub owner_name: String,
    /// Marketplace owner contact email (optional).
    pub owner_email: Option<String>,
}

/// Per-module source/output configuration.
#[non_exhaustive]
#[derive(Debug)]
pub struct ModuleConfig {
    /// Path (relative to workspace root) where source `.pan` files live.
    pub src_dir: String,
    /// Path (relative to workspace root) where compiled outputs are written.
    pub out_dir: String,
    /// Published version of this module.
    pub version: String,
    /// Path to module-local fragment files (overrides global fragments of the same name).
    pub fragments_dir: Option<String>,
    /// Human-readable description written into `plugin.json` when publishing.
    pub description: Option<String>,
    /// Whether this module is included in the published marketplace.
    pub publish: bool,
}

impl ModuleConfig {
    /// A module with the given settings.
    pub fn new(
        src_dir: String,
        out_dir: String,
        version: String,
        fragments_dir: Option<String>,
        description: Option<String>,
        publish: bool,
    ) -> (r: Self)
        ensures
            r.src_dir == src_dir,
            r.out_dir == out_dir,
            r.version == version,
            r.fragments_dir == fragments_dir,
            r.description == description,
            r.publish == publish,
    {
        ModuleConfig { src_dir, out_dir, version, fragments_dir, description, publish }
    }
}

impl PublishConfig {
    /// Publish settings with the given agents and marketplace owner.
    pub fn new(agents: Vec<String>, marketplace_name: String, owner_name: String, owner_email: Option<String>) -> (r: Self)
        ensures
            r.agents == agents,
            r.marketplace_name == marketplace_name,
            r.owner_name == owner_name,
            r.owner_email == owner_email,
    {
        PublishConfig { agents, marketplace_name, owner_name, owner_email }
    }
}

/// Linting rules applied during `skillet lint`.
#[non_exhaustive]
#[derive(Debug)]
pub struct LintConfig {
    /// Maximum token budget for a skill's activation section.
    pub max_activation_tokens: u32,
    /// Maximum token budget for a skill's discovery section.
    pub max_discovery_tokens: u32,
    /// Maximum token budget for a single skill fragment.
    pub max_fragment_tokens: u32,
    /// Rule IDs to silence. Empty by default.
    pub disable: Vec<String>,
}

/// Build settings controlling how skills are compiled.
#[non_exhaustive]
#[derive(Debug)]
pub struct BuildConfig {
    /// Tokenizer model used for token counting (e.g. `"cl100k_base"`).
    pub tokenizer: String,
    /// Whether to verify that URLs referenced in skills are reachable.
    pub verify_urls: bool,
}

/// A template variable backed by an environment variable.
#[non_exhaustive]
#[derive(Debug)]
pub struct EnvVar {
    /// Value used when the environment variable is not set.
    pub default: String,
}

impl Clone for EnvVar {
    fn clone(&self) -> (r: Self)
        ensures
            r == *self,
    {
        EnvVar { default: self.default.clone() }
    }
}

impl EnvVar {
    /// An environment variable declaration with the given default.
    pub fn new(default: String) -> (r: Self)
        ensures
            r.default == default,
    {
        EnvVar { default }
    }
}

/// Top-level skillet configuration written to `skillet.toml`.
#[non_exhaustive]
#[derive(Debug)]
pub struct SkilletConfig {
    /// Global workspace settings.
    pub workspace: WorkspaceConfig,
    /// Named modules, each declaring a source/output pair.
    pub modules: StrMap<ModuleConfig>,
    /// Linting configuration (inherited by all modules).
    pub lint: LintConfig,
    /// Build configuration (inherited by all modules).
    pub build: BuildConfig,
    /// Freeform template variables available inside skill templates.
    pub vars: StrMap<String>,
    /// Environment variables with their default values.
    pub env: StrMap<EnvVar>,
    /// Commands treated as available regardless of PATH.
    pub allowed_commands: StrSet,
}

impl SkilletConfig {
    /// The maps and sets of the configuration are well formed.
    pub open spec fn wf(&self) -> bool {
        &&& self.modules.wf()
        &&& self.vars.wf()
        &&& self.env.wf()
        &&& self.allowed_commands.wf()
    }
}

impl Default for SkilletConfig {
    /// One module `default` (sources in `src/skills`, outputs in `skills`,
    /// version `0.1.0`, fragments in `src/skills/_fragments`), lint budgets of
    /// 4000 activation, 100 discovery and 500 fragment tokens with no rule
    /// disabled, the `cl100k_base` tokenizer without URL verification, the
    /// variable `project_name = "my-project"`, the environment variables `CI`
    /// defaulting to `"false"` and `TEAM_NAME` defaulting to `"engineering"`,
    /// and no allowed command.
    fn default() -> (r: Self)
        ensures
            r.wf(),
            r.modules@.dom() == set![ "default"@ ],
            r.modules@["default"@].src_dir@ == "src/skills"@,
            r.modules@["default"@].out_dir@ == "skills"@,
            r.modules@["default"@].version@ == "0.1.0"@,
            r.modules@["default"@].fragments_dir matches Some(d) && d@ == "src/skills/_fragments"@,
            r.modules@["default"@].description is None,
            !r.modules@["default"@].publish,
            r.workspace.fragments_dir is None,
            r.workspace.publish is None,
            r.lint.max_activation_tokens == 4000,
            r.lint.max_discovery_tokens == 100,
            r.lint.max_fragment_tokens == 500,
            r.lint.disable@.len() == 0,
            r.build.tokenizer@ == "cl100k_base"@,
            !r.build.verify_urls,
            r.vars@.dom() == set![ "project_name"@ ],
            r.vars@["project_name"@]@ == "my-project"@,
            r.env@.dom() == set![ "CI"@, "TEAM_NAME"@ ],
            r.env@["CI"@].default@ == "false"@,
            r.env@["TEAM_NAME"@].default@ == "engineering"@,
            r.allowed_commands@.len() == 0,
    {
        let mut modules: StrMap<ModuleConfig> = StrMap::new();
        modules.insert(
            String::from_str("default"),
            ModuleConfig {
                src_dir: String::from_str("src/skills"),
                out_dir: String::from_str("skills"),
                version: String::from_str("0.1.0"),
                fragments_dir: Some(String::from_str("src/skills/_fragments")),
                description: None,
                publish: false,
            },
        );
        let mut vars: StrMap<String> = StrMap::new();
        vars.insert(String::from_str("project_name"), String::from_str("my-project"));
        let mut env: StrMap<EnvVar> = StrMap::new();
        env.insert(String::from_str("CI"), EnvVar { default: String::from_str("false") });
        proof {
            reveal_strlit("CI");
            reveal_strlit("TEAM_NAME");
            assert("CI"@.len() != "TEAM_NAME"@.len());
        }
        env.insert(String::from_str("TEAM_NAME"), EnvVar { default: String::from_str("engineering") });
        let allowed_commands = StrSet::new();
        proof {
            assert(modules@.dom() =~= set![ "default"@ ]);
            assert(vars@.dom() =~= set![ "project_name"@ ]);
            assert(env@.dom() =~= set![ "CI"@, "TEAM_NAME"@ ]);
        }
        SkilletConfig {
            workspace: WorkspaceConfig { fragments_dir: None, publish: None },
            modules,
            lint: LintConfig {
                max_activation_tokens: 4000,
                max_discovery_tokens: 100,
                max_fragment_tokens: 500,
                disable: Vec::new(),
            },
            build: BuildConfig { tokenizer: String::from_str("cl100k_base"), verify_urls: false },
            vars,
            env,
            allowed_commands,
        }
    }
}

/// The strings of `ps` joined with `", "` between them.
pub open spec fn comma_joined(ps: Seq<Seq<char>>) -> Seq<char>
    decreases ps.len(),
{
    if ps.len() == 0 {
        Seq::empty()
    } else if ps.len() == 1 {
        ps[0]
    } else {
        comma_joined(ps.drop_last()) + ", "@ + ps.last()
    }
}

/// Which module's source directory `skillet new` uses: the one named, else
/// the only one; with none, or several and no name, an error.
pub open spec fn module_src_dir(
    workspace: Seq<char>,
    cfg: &SkilletConfig,
    module_name: Option<Seq<char>>,
) -> Result<Seq<char>, Seq<char>> {
    match module_name {
        Some(n) => if cfg.modules@.contains_key(n) {
            Ok(joined(workspace, cfg.modules@[n].src_dir@))
        } else {
            Err("module '"@ + n + "' not found in skillet.toml"@)
        },
        None => if cfg.modules.key_seq().len() == 0 {
            Err("no modules defined in skillet.toml — add a [module.*] section"@)
        } else if cfg.modules.key_seq().len() == 1 {
            Ok(joined(workspace, cfg.modules.val_seq()[0].src_dir@))
        } else {
            Err(
                "multiple modules defined — use --module <name> to specify which one (available: "@
                    + comma_joined(cfg.modules.key_seq()) + ")"@,
            )
        },
    }
}

/// The source directory of the module `skillet new` writes to, under the
/// workspace root `workspace`.
pub fn resolve_module_src_dir(workspace: &str, cfg: &SkilletConfig, module_name: Option<&str>) -> (r: Result<String, String>)
    requires
        cfg.wf(),
    ensures
        match r {
            Ok(d) => module_src_dir(workspace@, cfg, opt_str_view(module_name)) == Ok::<Seq<char>, Seq<char>>(d@),
            Err(e) => module_src_dir(workspace@, cfg, opt_str_view(module_name)) == Err::<Seq<char>, Seq<char>>(e@),
        },
{
    match module_name {
        Some(n) => match cfg.modules.get(n) {
            Some(m) => Ok(join_path(workspace, m.src_dir.as_str())),
            None => Err(concat3("module '", n, "' not found in skillet.toml")),
        },
        None => {
            proof {
                cfg.modules.lemma_entries();
            }
            let count = cfg.modules.len();
            if count == 0 {
                Err(String::from_str("no modules defined in skillet.toml — add a [module.*] section"))
            } else if count == 1 {
                let m = cfg.modules.value_at(0);
                Ok(join_path(workspace, m.src_dir.as_str()))
            } else {
                let mut names = String::from_str(cfg.modules.key_at(0).as_str());
                let mut i: usize = 1;
                proof {
                    assert(cfg.modules.key_seq().subrange(0, 1) =~= seq![cfg.modules.key_seq()[0]]);
                }
                while i < count
                    invariant
                        cfg.wf(),
                        count == cfg.modules.key_seq().len(),
                        1 <= i <= count,
                        names@ == comma_joined(cfg.modules.key_seq().subrange(0, i as int)),
                    decreases count - i,
                {
                    let k = cfg.modules.key_at(i);
                    names = concat3(names.as_str(), ", ", k.as_str());
                    proof {
                        let sub = cfg.modules.key_seq().subrange(0, i + 1);
                        assert(sub.drop_last() =~= cfg.modules.key_seq().subrange(0, i as int));
                        reveal_strlit(", ");
                    }
                    i = i + 1;
                }
                proof {
                    assert(cfg.modules.key_seq().subrange(0, count as int) =~= cfg.modules.key_seq());
                }
                Err(concat3(
                    "multiple modules defined — use --module <name> to specify which one (available: ",
                    names.as_str(),
                    ")",
                ))
            }
        },
    }
}

} // verus!
