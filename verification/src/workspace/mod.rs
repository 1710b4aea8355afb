//! Workspace resolution: the artefacts of a workspace and the shared data the
//! build and lint pipelines read.
//!
//! Artefact types:
//! - **Skills** — `.pan` files under `{skills_src_dir}/{name}/{name}.pan`
//! - **Scripts** — files under `{skills_src_dir}/{skill}/scripts/`
//! - **References** — `.pan` files under `{skills_src_dir}/{skill}/references/**/*.pan`
//! - **Agents** — `.pan` files under `agents/{name}/{name}.pan`
//! - **Fragments** — `.fragment.pan` files under `{fragments_dir}/`
//!
//! Discovering these on disk is the caller's part; [`Workspace::resolve`]
//! takes what was found and computes the rest.
pub mod artefact;
pub mod discover;
pub mod skill;

use vstd::prelude::*;
use vstd::utf8::encode_utf8;

pub use skill::{Reference, Script, Skill};

use crate::collections::{string_views, StrMap, StrSet};
use crate::compiler::compile::{render_fragments, RenderedFragments};
use crate::config::{EnvVar, SkilletConfig};
use crate::hashing::{hash_bytes, sha256_label};
use crate::tokens::counted;

verus! {

/// A discovered agent within the workspace.
#[non_exhaustive]
#[derive(Debug)]
pub struct Agent {
    /// The agent's name, used as its identifier.
    pub name: String,
    /// Absolute path to the `{name}.pan` source file.
    pub source_path: String,
    /// The target path of the agent after compilation.
    pub target_path: String,
}

impl Agent {
    /// An agent with the given name and paths.
    pub fn new(name: String, source_path: String, target_path: String) -> (r: Self)
        ensures
            r.name == name,
            r.source_path == source_path,
            r.target_path == target_path,
    {
        Agent { name, source_path, target_path }
    }
}

/// What was found on disk and in the process environment for a workspace.
#[derive(Debug)]
pub struct Discovery {
    /// Workspace root (where `skillet.toml` lives).
    pub root: String,
    /// The discovered skills, keyed by name.
    pub skills: StrMap<Skill>,
    /// The discovered agents, keyed by name.
    pub agents: StrMap<Agent>,
    /// Raw fragment content keyed by fragment name.
    pub raw_fragments: StrMap<String>,
    /// Path of each fragment file, keyed by fragment name.
    pub fragment_paths: StrMap<String>,
    /// Commands referenced by the sources that were found on `PATH`.
    pub commands_on_path: StrSet,
    /// The process environment, as name → value.
    pub process_env: StrMap<String>,
}

/// Fully-resolved workspace: all artefacts discovered, fragments rendered,
/// commands checked against PATH. Constructed once and shared by build/lint.
#[derive(Debug)]
pub struct Workspace {
    /// Workspace root (where `skillet.toml` lives).
    pub root: String,
    /// All discovered skills, keyed by name.
    pub skills: StrMap<Skill>,
    /// All discovered agents, keyed by name.
    pub agents: StrMap<Agent>,
    /// Raw fragment content keyed by fragment name.
    pub raw_fragments: StrMap<String>,
    /// Pre-rendered fragments (ready for interpolation).
    pub fragments: RenderedFragments,
    /// SHA-256 hash per fragment (`"sha256:<hex>"`).
    pub fragment_hashes: StrMap<String>,
    /// Token count per fragment.
    pub fragment_tokens: StrMap<u32>,
    /// Path of each fragment file.
    pub fragment_paths: StrMap<String>,
    /// Template variables from `[vars]`.
    pub vars: StrMap<String>,
    /// Environment variable declarations from `[env]`.
    pub env: StrMap<EnvVar>,
    /// Commands treated as available regardless of PATH.
    pub allowed_commands: StrSet,
    /// Commands referenced by the sources that were found on `PATH`.
    pub commands_on_path: StrSet,
    /// The process environment, as name → value.
    pub process_env: StrMap<String>,
    /// Tokenizer model used for token counts.
    pub tokenizer: String,
}

impl Workspace {
    /// The maps and sets of the workspace are well formed, and each skill is
    /// recorded under its own name.
    pub open spec fn wf(&self) -> bool {
        &&& self.skills.wf()
        &&& forall|k: Seq<char>| #[trigger] self.skills@.contains_key(k) ==> self.skills@[k].name@ == k
        &&& self.agents.wf()
        &&& self.raw_fragments.wf()
        &&& self.fragments.rendered.wf()
        &&& self.fragments.poisoned.wf()
        &&& self.fragment_hashes.wf()
        &&& self.fragment_tokens.wf()
        &&& self.fragment_paths.wf()
        &&& self.vars.wf()
        &&& self.env.wf()
        &&& self.allowed_commands.wf()
        &&& self.commands_on_path.wf()
        &&& self.process_env.wf()
    }

    /// Resolves the workspace from what was discovered and the configuration:
    /// renders the fragments, hashes them and counts their tokens with
    /// `count_tokens` (text, tokenizer).
    pub fn resolve<F: Fn(&str, &str) -> u32>(
        found: Discovery,
        cfg: &SkilletConfig,
        count_tokens: &F,
    ) -> (r: Self)
        requires
            cfg.wf(),
            found.skills.wf(),
            forall|k: Seq<char>| #[trigger] found.skills@.contains_key(k) ==> found.skills@[k].name@ == k,
            found.agents.wf(),
            found.raw_fragments.wf(),
            found.fragment_paths.wf(),
            found.commands_on_path.wf(),
            found.process_env.wf(),
            forall|id: Seq<char>| #[trigger]
                found.raw_fragments@.contains_key(id) ==> encode_utf8(
                    found.raw_fragments@[id]@,
                ).len() < u32::MAX,
            forall|t: &str, m: &str| count_tokens.requires((t, m)),
        ensures
            r.wf(),
            r.root == found.root,
            r.skills == found.skills,
            r.agents == found.agents,
            r.raw_fragments == found.raw_fragments,
            r.fragment_paths == found.fragment_paths,
            r.commands_on_path == found.commands_on_path,
            r.process_env == found.process_env,
            r.vars@ == cfg.vars@,
            r.env@ == cfg.env@,
            r.allowed_commands@ == cfg.allowed_commands@,
            r.tokenizer@ == cfg.build.tokenizer@,
            forall|id: Seq<char>|
                #[trigger] r.fragments.rendered@.contains_key(id) <==> found.raw_fragments@.contains_key(id)
                    && crate::compiler::compile::fragment_outcome(found.raw_fragments@[id]@) is Rendered,
            forall|id: Seq<char>|
                #[trigger] r.fragments.poisoned@.contains_key(id) <==> found.raw_fragments@.contains_key(id)
                    && crate::compiler::compile::fragment_outcome(found.raw_fragments@[id]@) is Poisoned,
            forall|id: Seq<char>|
                #[trigger] r.fragments.rendered@.contains_key(id) ==> crate::compiler::compile::fragment_outcome(
                    found.raw_fragments@[id]@,
                ) == crate::compiler::compile::FragmentOutcome::Rendered(r.fragments.rendered@[id]@),
            forall|id: Seq<char>|
                #[trigger] r.fragments.poisoned@.contains_key(id) ==> crate::compiler::compile::fragment_outcome(
                    found.raw_fragments@[id]@,
                ) == crate::compiler::compile::FragmentOutcome::Poisoned(r.fragments.poisoned@[id]@),
            r.fragment_hashes@.dom() == found.raw_fragments@.dom(),
            r.fragment_tokens@.dom() == found.raw_fragments@.dom(),
            forall|id: Seq<char>|
                #[trigger] r.fragment_hashes@.contains_key(id) ==> r.fragment_hashes@[id]@
                    == sha256_label(encode_utf8(found.raw_fragments@[id]@)),
            forall|id: Seq<char>|
                #[trigger] r.fragment_tokens@.contains_key(id) ==> counted(
                    *count_tokens,
                    found.raw_fragments@[id]@,
                    cfg.build.tokenizer@,
                    r.fragment_tokens@[id],
                ),
    {
        let fragments = render_fragments(&found.raw_fragments);
        let mut fragment_hashes: StrMap<String> = StrMap::new();
        let mut fragment_tokens: StrMap<u32> = StrMap::new();
        let raw = &found.raw_fragments;
        proof {
            raw.lemma_entries();
        }
        let ghost ks = raw.key_seq();
        let n = raw.len();
        let mut i: usize = 0;
        while i < n
            invariant
                raw.wf(),
                ks == raw.key_seq(),
                n == ks.len(),
                raw.val_seq().len() == ks.len(),
                i <= n,
                forall|t: &str, m: &str| count_tokens.requires((t, m)),
                forall|j: int| 0 <= j < ks.len() ==> #[trigger] raw@[ks[j]] == raw.val_seq()[j],
                forall|id: Seq<char>| raw@.contains_key(id) <==> ks.contains(id),
                fragment_hashes.wf(),
                fragment_tokens.wf(),
                fragment_hashes@.dom() == ks.subrange(0, i as int).to_set(),
                fragment_tokens@.dom() == ks.subrange(0, i as int).to_set(),
                forall|id: Seq<char>|
                    #[trigger] fragment_hashes@.contains_key(id) ==> fragment_hashes@[id]@
                        == sha256_label(encode_utf8(raw@[id]@)),
                forall|id: Seq<char>|
                    #[trigger] fragment_tokens@.contains_key(id) ==> counted(
                        *count_tokens,
                        raw@[id]@,
                        cfg.build.tokenizer@,
                        fragment_tokens@[id],
                    ),
            decreases n - i,
        {
            let name = raw.key_at(i);
            let content = raw.value_at(i);
            let ghost k = ks[i as int];
            proof {
                assert(ks.contains(k));
                assert(raw@[k] == *content);
            }
            let h = hash_bytes(content.as_str().as_bytes());
            fragment_hashes.insert(name.clone(), h);
            let t = crate::tokens::count_tokens(count_tokens, content.as_str(), cfg.build.tokenizer.as_str());
            fragment_tokens.insert(name.clone(), t);
            proof {
                assert(ks.subrange(0, i + 1) =~= ks.subrange(0, i as int).push(k));
                crate::collections::lemma_push_contains(ks.subrange(0, i as int), k);
                assert(fragment_hashes@.dom() =~= ks.subrange(0, i + 1).to_set());
                assert(fragment_tokens@.dom() =~= ks.subrange(0, i + 1).to_set());
            }
            i += 1;
        }
        proof {
            assert(ks.subrange(0, n as int) =~= ks);
            assert(ks.to_set() =~= raw@.dom());
        }
        let vars = cfg.vars.clone_strings();
        let copy_env = |e: &EnvVar| -> (c: EnvVar)
            ensures
                c == *e,
        { e.clone() };
        let env = cfg.env.clone_with(&copy_env);
        let allowed_commands = cfg.allowed_commands.clone_set();
        let tokenizer = cfg.build.tokenizer.clone();
        Workspace {
            root: found.root,
            skills: found.skills,
            agents: found.agents,
            raw_fragments: found.raw_fragments,
            fragments,
            fragment_hashes,
            fragment_tokens,
            fragment_paths: found.fragment_paths,
            vars,
            env,
            allowed_commands,
            commands_on_path: found.commands_on_path,
            process_env: found.process_env,
            tokenizer,
        }
    }

    /// Set of skill names in the workspace.
    pub fn skill_names(&self) -> (r: StrSet)
        requires
            self.skills.wf(),
        ensures
            r.wf(),
            r@ == self.skills@.dom(),
    {
        names_of(&self.skills)
    }

    /// Set of agent names in the workspace.
    pub fn agent_names(&self) -> (r: StrSet)
        requires
            self.agents.wf(),
        ensures
            r.wf(),
            r@ == self.agents@.dom(),
    {
        names_of(&self.agents)
    }

    /// Fragment names present in the workspace, in order.
    pub fn fragment_names(&self) -> (r: Vec<String>)
        requires
            self.raw_fragments.wf(),
        ensures
            string_views(r@) == self.raw_fragments.key_seq(),
    {
        let mut out: Vec<String> = Vec::new();
        let n = self.raw_fragments.len();
        let mut i: usize = 0;
        while i < n
            invariant
                self.raw_fragments.wf(),
                n == self.raw_fragments.key_seq().len(),
                i <= n,
                string_views(out@) == self.raw_fragments.key_seq().subrange(0, i as int),
            decreases n - i,
        {
            let ghost before = out@;
            let s = self.raw_fragments.key_at(i).clone();
            out.push(s);
            proof {
                assert(string_views(out@) =~= string_views(before).push(s@));
                assert(string_views(out@) =~= self.raw_fragments.key_seq().subrange(0, i + 1));
            }
            i += 1;
        }
        proof {
            assert(self.raw_fragments.key_seq().subrange(0, n as int) =~= self.raw_fragments.key_seq());
        }
        out
    }

    /// Relative paths of the files under the skill's `scripts/` directory.
    pub fn get_scripts_for_skill(&self, skill: &Skill) -> (r: StrSet)
        ensures
            r.wf(),
            r@ == files_under(string_views(skill.files@), "scripts/"@),
    {
        files_with_prefix(&skill.files, "scripts/")
    }

    /// Relative paths of the files under the skill's `references/` directory.
    pub fn get_references_for_skill(&self, skill: &Skill) -> (r: StrSet)
        ensures
            r.wf(),
            r@ == files_under(string_views(skill.files@), "references/"@),
    {
        files_with_prefix(&skill.files, "references/")
    }

    /// Relative paths of all files under the skill's source directory.
    pub fn get_source_files_for_skill(&self, skill: &Skill) -> (r: StrSet)
        ensures
            r.wf(),
            r@ == string_views(skill.files@).to_set(),
    {
        let r = files_with_prefix(&skill.files, "");
        proof {
            reveal_strlit("");
            assert(r@ =~= string_views(skill.files@).to_set()) by {
                assert forall|f: Seq<char>| r@.contains(f) <==> string_views(skill.files@).to_set().contains(f) by {
                    assert(f.subrange(0, 0) =~= ""@);
                }
            }
        }
        r
    }
}

/// The files of `files` whose path starts with `prefix`.
pub open spec fn files_under(files: Seq<Seq<char>>, prefix: Seq<char>) -> Set<Seq<char>> {
    Set::new(
        |f: Seq<char>|
            files.contains(f) && prefix.len() <= f.len() && f.subrange(0, prefix.len() as int)
                == prefix,
    )
}

/// Whether `s` starts with `prefix`.
pub fn str_starts_with(s: &str, prefix: &str) -> (r: bool)
    ensures
        r == (prefix@.len() <= s@.len() && s@.subrange(0, prefix@.len() as int) == prefix@),
{
    let b = s.as_bytes();
    let p = prefix.as_bytes();
    let r = crate::text::matches_at(b, 0, p);
    proof {
        crate::text::lemma_prefix_bytes_iff_chars(s@, prefix@);
    }
    r
}

fn files_with_prefix(files: &Vec<String>, prefix: &str) -> (r: StrSet)
    ensures
        r.wf(),
        r@ == files_under(string_views(files@), prefix@),
{
    let mut out = StrSet::new();
    let mut i: usize = 0;
    while i < files.len()
        invariant
            i <= files@.len(),
            out.wf(),
            out@ == files_under(string_views(files@).subrange(0, i as int), prefix@),
        decreases files@.len() - i,
    {
        let ghost before = out@;
        let f = &files[i];
        if str_starts_with(f.as_str(), prefix) {
            out.insert(f.clone());
        }
        proof {
            let fs = string_views(files@);
            assert(fs.subrange(0, i + 1) =~= fs.subrange(0, i as int).push(f@));
            crate::collections::lemma_push_contains(fs.subrange(0, i as int), f@);
            assert(out@ =~= files_under(fs.subrange(0, i + 1), prefix@));
        }
        i += 1;
    }
    proof {
        assert(string_views(files@).subrange(0, files@.len() as int) =~= string_views(files@));
    }
    out
}

fn names_of<V>(m: &StrMap<V>) -> (r: StrSet)
    requires
        m.wf(),
    ensures
        r.wf(),
        r@ == m@.dom(),
{
    let mut out = StrSet::new();
    proof {
        m.lemma_entries();
    }
    let n = m.len();
    let mut i: usize = 0;
    while i < n
        invariant
            m.wf(),
            n == m.key_seq().len(),
            i <= n,
            forall|k: Seq<char>| m@.contains_key(k) <==> m.key_seq().contains(k),
            out.wf(),
            out@ == m.key_seq().subrange(0, i as int).to_set(),
        decreases n - i,
    {
        let k = m.key_at(i).clone();
        let ghost kv = k@;
        out.insert(k);
        proof {
            assert(m.key_seq().subrange(0, i + 1) =~= m.key_seq().subrange(0, i as int).push(kv));
            crate::collections::lemma_push_contains(m.key_seq().subrange(0, i as int), kv);
        }
        i += 1;
    }
    proof {
        assert(m.key_seq().subrange(0, n as int) =~= m.key_seq());
        assert(out@ =~= m@.dom());
    }
    out
}

} // verus!
