//! Discovery rules: which of the entries found under a workspace's
//! directories are skills, agents, scripts, references and fragments, and
//! what they are called.
//!
//! Walking the directories is the caller's part; it hands these functions
//! the names and paths it found, relative paths with `/` separators.
use vstd::prelude::*;

use crate::collections::{sorted_keys, string_views, StrMap, StrSet};
use crate::freshness::{join_path, joined};
use crate::refs::{has_prefix, has_suffix, starts_with};
use crate::text::{concat, slice_str, strip_suffix};
use crate::workspace::skill::{Reference, Script, Skill};
use crate::workspace::Agent;

verus! {

// ── Names ─────────────────────────────────────────────────────────────────────

/// The position of the last `c` in `s`.
pub open spec fn last_index_of(s: Seq<char>, c: char) -> Option<int>
    decreases s.len(),
{
    if s.len() == 0 {
        None
    } else if s.last() == c {
        Some(s.len() - 1)
    } else {
        last_index_of(s.drop_last(), c)
    }
}

/// A file name split into stem and extension, as `Path::file_stem` and
/// `Path::extension` document it: the split is at the final `.`, and a name
/// with no `.` past its first character has no extension.
pub open spec fn split_name(name: Seq<char>) -> (Seq<char>, Option<Seq<char>>) {
    if name == ".."@ {
        (name, None)
    } else {
        match last_index_of(name, '.') {
            Some(k) if k > 0 => (name.subrange(0, k), Some(name.subrange(k + 1, name.len() as int))),
            _ => (name, None),
        }
    }
}

/// The stem of a file name.
pub open spec fn stem_of(name: Seq<char>) -> Seq<char> {
    split_name(name).0
}

/// The extension of a file name.
pub open spec fn ext_of(name: Seq<char>) -> Option<Seq<char>> {
    split_name(name).1
}

/// The last component of a `/`-separated path.
pub open spec fn last_component(p: Seq<char>) -> Seq<char> {
    match last_index_of(p, '/') {
        Some(k) => p.subrange(k + 1, p.len() as int),
        None => p,
    }
}

/// A name starting with `_` or `.` is skipped by discovery.
pub open spec fn is_hidden_name(n: Seq<char>) -> bool {
    n.len() > 0 && (n[0] == '_' || n[0] == '.')
}

proof fn lemma_last_index_bounds(s: Seq<char>, c: char)
    ensures
        last_index_of(s, c) matches Some(k) ==> 0 <= k < s.len() && s[k] == c,
        last_index_of(s, c) matches Some(k) ==> forall|j: int| k < j < s.len() ==> s[j] != c,
        last_index_of(s, c) is None ==> forall|j: int| 0 <= j < s.len() ==> s[j] != c,
    decreases s.len(),
{
    if s.len() > 0 && s.last() != c {
        let t = s.drop_last();
        lemma_last_index_bounds(t, c);
        assert forall|j: int| 0 <= j < t.len() implies t[j] == s[j] by {}
    }
}

/// The position of the last `c` in `s`.
pub fn find_last(s: &str, c: char) -> (r: Option<usize>)
    ensures
        match r {
            Some(k) => last_index_of(s@, c) == Some(k as int) && k < s@.len() && k < usize::MAX,
            None => last_index_of(s@, c) is None,
        },
{
    proof {
        lemma_last_index_bounds(s@, c);
    }
    let n = s.unicode_len();
    let mut i = n;
    proof {
        assert(s@.subrange(0, n as int) =~= s@);
    }
    while i > 0
        invariant
            n == s@.len(),
            i <= n,
            last_index_of(s@, c) == last_index_of(s@.subrange(0, i as int), c),
        decreases i,
    {
        let ch = s.get_char(i - 1);
        if ch == c {
            proof {
                let t = s@.subrange(0, i as int);
                assert(t.last() == c);
            }
            return Some(i - 1);
        }
        proof {
            let t = s@.subrange(0, i as int);
            assert(t.drop_last() =~= s@.subrange(0, i - 1));
        }
        i = i - 1;
    }
    proof {
        assert(s@.subrange(0, 0) =~= Seq::<char>::empty());
    }
    None
}

/// The last component of a path is a suffix of it.
pub proof fn lemma_last_component_len(p: Seq<char>)
    ensures
        last_component(p).len() <= p.len(),
        p.subrange(p.len() - last_component(p).len(), p.len() as int) == last_component(p),
{
    lemma_last_index_bounds(p, '/');
    assert(p.subrange(p.len() - last_component(p).len(), p.len() as int) =~= last_component(p));
}

/// Whether a name is skipped by discovery: it starts with `_` or `.`.
pub fn is_hidden(name: &str) -> (r: bool)
    ensures
        r == is_hidden_name(name@),
{
    let under = starts_with(name, "_");
    let dot = starts_with(name, ".");
    proof {
        reveal_strlit("_");
        reveal_strlit(".");
        let u = "_"@;
        let d = "."@;
        assert(u.len() == 1 && u[0] == '_');
        assert(d.len() == 1 && d[0] == '.');
        if name@.len() > 0 {
            let h = name@.subrange(0, 1);
            assert(h[0] == name@[0]);
            if name@[0] == '_' {
                assert(h =~= u);
            } else {
                assert(h[0] != u[0]);
            }
            if name@[0] == '.' {
                assert(h =~= d);
            } else {
                assert(h[0] != d[0]);
            }
        }
    }
    under || dot
}

/// The stem and extension of a file name.
pub fn split_file_name(name: &str) -> (r: (String, Option<String>))
    ensures
        r.0@ == stem_of(name@),
        match r.1 {
            Some(e) => ext_of(name@) == Some(e@),
            None => ext_of(name@) is None,
        },
{
    proof {
        reveal_strlit("..");
    }
    if crate::text::str_eq(name, "..") {
        return (String::from_str(name), None);
    }
    match find_last(name, '.') {
        Some(k) => {
            if k > 0 {
                let n = name.unicode_len();
                proof {
                    lemma_last_index_bounds(name@, '.');
                }
                let stem = name.substring_char(0, k);
                let ext = name.substring_char(k + 1, n);
                (String::from_str(stem), Some(String::from_str(ext)))
            } else {
                (String::from_str(name), None)
            }
        },
        None => (String::from_str(name), None),
    }
}

/// The last component of a `/`-separated path.
pub fn last_component_of(p: &str) -> (r: String)
    ensures
        r@ == last_component(p@),
{
    match find_last(p, '/') {
        Some(k) => {
            proof {
                lemma_last_index_bounds(p@, '/');
            }
            let n = p.unicode_len();
            String::from_str(p.substring_char(k + 1, n))
        },
        None => String::from_str(p),
    }
}

// ── Scripts and references ────────────────────────────────────────────────────

/// A path relative to a skill directory names a script: a file under
/// `scripts/`.
pub open spec fn is_script_path(f: Seq<char>) -> bool {
    has_prefix(f, "scripts/"@)
}

/// A path relative to a skill directory names a reference: a `.pan` file
/// under `references/`.
pub open spec fn is_reference_path(f: Seq<char>) -> bool {
    has_prefix(f, "references/"@) && ext_of(last_component(f)) == Some("pan"@)
}

/// Where the last component of a `/`-separated path starts.
pub open spec fn component_start(p: Seq<char>) -> int {
    match last_index_of(p, '/') {
        Some(k) => k + 1,
        None => 0,
    }
}

/// The name of the reference at `f`: its path under `references/` with the
/// extension taken off.
pub open spec fn reference_name(f: Seq<char>) -> Seq<char> {
    f.subrange(11, component_start(f)) + stem_of(last_component(f))
}

/// The paths among `files` that `refs` selects: references when it is set,
/// scripts when not.
pub open spec fn selected_paths(files: Seq<Seq<char>>, refs: bool) -> Set<Seq<char>> {
    Set::new(
        |f: Seq<char>|
            files.contains(f) && if refs {
                is_reference_path(f)
            } else {
                is_script_path(f)
            },
    )
}

/// A script as discovery builds it in the skill directory `dir`.
pub open spec fn script_fits(s: Script, dir: Seq<char>) -> bool {
    &&& s.name@ == stem_of(last_component(s.relative_path@))
    &&& s.absolute_path@ == joined(dir, s.relative_path@)
}

/// A reference as discovery builds it in the skill directory `dir`.
pub open spec fn reference_fits(r: Reference, dir: Seq<char>) -> bool {
    &&& r.name@ == reference_name(r.relative_path@)
    &&& r.absolute_path@ == joined(dir, r.relative_path@)
}

/// The relative paths of scripts.
pub open spec fn script_paths(v: Seq<Script>) -> Seq<Seq<char>> {
    v.map_values(|s: Script| s.relative_path@)
}

/// The relative paths of references.
pub open spec fn reference_paths(v: Seq<Reference>) -> Seq<Seq<char>> {
    v.map_values(|r: Reference| r.relative_path@)
}

/// Whether `f` is a reference path.
fn is_reference_file(f: &str) -> (r: bool)
    ensures
        r == is_reference_path(f@),
{
    if !starts_with(f, "references/") {
        return false;
    }
    let comp = last_component_of(f);
    let (_, ext) = split_file_name(comp.as_str());
    proof {
        reveal_strlit("pan");
    }
    match ext {
        Some(e) => crate::text::str_eq(e.as_str(), "pan"),
        None => false,
    }
}

/// The name of the reference at `f`.
fn reference_name_of(f: &str) -> (r: String)
    requires
        is_reference_path(f@),
    ensures
        r@ == reference_name(f@),
{
    proof {
        reveal_strlit("references/");
        lemma_last_index_bounds(f@, '/');
        assert(f@.subrange(0, 11)[10] == '/');
    }
    let start = match find_last(f, '/') {
        Some(k) => k + 1,
        None => 0,
    };
    let dir = f.substring_char(11, start);
    let comp = last_component_of(f);
    let (stem, _) = split_file_name(comp.as_str());
    concat(dir, stem.as_str())
}

/// The paths among `files` that `refs` selects, in order.
fn select_paths(files: &Vec<String>, refs: bool) -> (r: StrSet)
    ensures
        r.wf(),
        r@ == selected_paths(string_views(files@), refs),
{
    let mut set = StrSet::new();
    let mut i: usize = 0;
    while i < files.len()
        invariant
            i <= files@.len(),
            set.wf(),
            set@ == selected_paths(string_views(files@.subrange(0, i as int)), refs),
        decreases files@.len() - i,
    {
        let f = &files[i];
        let keep = if refs {
            is_reference_file(f.as_str())
        } else {
            starts_with(f.as_str(), "scripts/")
        };
        let ghost before = string_views(files@.subrange(0, i as int));
        let ghost after = string_views(files@.subrange(0, i + 1));
        proof {
            assert(after =~= before.push(f@));
            crate::collections::lemma_push_contains(before, f@);
        }
        if keep {
            set.insert(f.clone());
        }
        proof {
            assert(set@ =~= selected_paths(after, refs));
        }
        i = i + 1;
    }
    proof {
        assert(files@.subrange(0, files@.len() as int) =~= files@);
    }
    set
}

/// The scripts of the skill in `skill_dir`, given every file under it as a
/// path relative to it; ordered by relative path.
pub fn resolve_scripts(skill_dir: &str, files: &Vec<String>) -> (r: Vec<Script>)
    ensures
        sorted_keys(script_paths(r@)),
        script_paths(r@).to_set() == selected_paths(string_views(files@), false),
        forall|i: int| 0 <= i < r@.len() ==> script_fits(#[trigger] r@[i], skill_dir@),
{
    let set = select_paths(files, false);
    let paths = set.to_vec();
    proof {
        set.lemma_items();
    }
    let mut out: Vec<Script> = Vec::new();
    let mut i: usize = 0;
    while i < paths.len()
        invariant
            i <= paths@.len(),
            string_views(paths@) == set.item_seq(),
            out@.len() == i,
            script_paths(out@) == string_views(paths@).subrange(0, i as int),
            forall|j: int| 0 <= j < out@.len() ==> script_fits(#[trigger] out@[j], skill_dir@),
        decreases paths@.len() - i,
    {
        let rel = &paths[i];
        let comp = last_component_of(rel.as_str());
        let (name, _) = split_file_name(comp.as_str());
        let absolute_path = join_path(skill_dir, rel.as_str());
        let s = Script { name, relative_path: rel.clone(), absolute_path };
        let ghost prev = out@;
        out.push(s);
        proof {
            assert(out@[i as int].relative_path@ == rel@);
            assert(script_paths(out@) =~= script_paths(prev).push(rel@));
            assert(string_views(paths@).subrange(0, i + 1) =~= string_views(paths@).subrange(0, i as int).push(rel@));
        }
        i = i + 1;
    }
    proof {
        assert(script_paths(out@) =~= set.item_seq());
    }
    out
}

/// The references of the skill in `skill_dir`, given every file under it as
/// a path relative to it; ordered by relative path.
pub fn resolve_references(skill_dir: &str, files: &Vec<String>) -> (r: Vec<Reference>)
    ensures
        sorted_keys(reference_paths(r@)),
        reference_paths(r@).to_set() == selected_paths(string_views(files@), true),
        forall|i: int| 0 <= i < r@.len() ==> reference_fits(#[trigger] r@[i], skill_dir@),
{
    let set = select_paths(files, true);
    let paths = set.to_vec();
    proof {
        set.lemma_items();
    }
    let mut out: Vec<Reference> = Vec::new();
    let mut i: usize = 0;
    while i < paths.len()
        invariant
            i <= paths@.len(),
            string_views(paths@) == set.item_seq(),
            set@ == selected_paths(string_views(files@), true),
            out@.len() == i,
            reference_paths(out@) == string_views(paths@).subrange(0, i as int),
            forall|j: int| 0 <= j < out@.len() ==> reference_fits(#[trigger] out@[j], skill_dir@),
        decreases paths@.len() - i,
    {
        let rel = &paths[i];
        proof {
            assert(string_views(paths@)[i as int] == rel@);
            assert(set.item_seq().contains(rel@));
            assert(set@.contains(rel@));
        }
        let name = reference_name_of(rel.as_str());
        let absolute_path = join_path(skill_dir, rel.as_str());
        let r = Reference { name, relative_path: rel.clone(), absolute_path };
        let ghost prev = out@;
        out.push(r);
        proof {
            assert(out@[i as int].relative_path@ == rel@);
            assert(reference_paths(out@) =~= reference_paths(prev).push(rel@));
            assert(string_views(paths@).subrange(0, i + 1) =~= string_views(paths@).subrange(0, i as int).push(rel@));
        }
        i = i + 1;
    }
    proof {
        assert(reference_paths(out@) =~= set.item_seq());
    }
    out
}

// ── Skills, agents, fragments ─────────────────────────────────────────────────

/// A directory entry found directly under the skills source directory.
#[derive(Debug)]
pub struct SkillDirEntry {
    /// The entry's file name.
    pub name: String,
    /// The entry's path.
    pub path: String,
    /// Whether the entry is a directory.
    pub is_dir: bool,
    /// Whether the directory holds a `{name}.pan` file.
    pub has_source: bool,
    /// Every file under the directory, as a path relative to it with `/`
    /// separators.
    pub files: Vec<String>,
}

/// An entry found directly under the agents directory.
#[derive(Debug)]
pub struct AgentFileEntry {
    /// The entry's file name.
    pub file_name: String,
    /// The entry's path.
    pub path: String,
    /// Whether the entry is a file.
    pub is_file: bool,
}

/// A fragment file that was read: its file name and its content.
#[derive(Debug)]
pub struct FragmentFile {
    /// The file's name, such as `check-adrs.fragment.pan`.
    pub file_name: String,
    /// The file's content.
    pub content: String,
}

/// An entry is a skill: a directory that is not hidden and holds its source.
pub open spec fn is_skill_dir(e: SkillDirEntry) -> bool {
    e.is_dir && !is_hidden_name(e.name@) && e.has_source
}

/// A skill as discovery builds it from the entry `e`, with outputs under
/// `out_dir`.
pub open spec fn skill_fits(s: Skill, e: SkillDirEntry, out_dir: Seq<char>) -> bool {
    &&& s.name@ == e.name@
    &&& s.source_path@ == joined(e.path@, e.name@ + ".pan"@)
    &&& s.src_dir@ == e.path@
    &&& s.target_dir@ == joined(out_dir, e.name@)
    &&& sorted_keys(script_paths(s.scripts@))
    &&& script_paths(s.scripts@).to_set() == selected_paths(string_views(e.files@), false)
    &&& (forall|i: int| 0 <= i < s.scripts@.len() ==> script_fits(#[trigger] s.scripts@[i], e.path@))
    &&& sorted_keys(reference_paths(s.references@))
    &&& reference_paths(s.references@).to_set() == selected_paths(string_views(e.files@), true)
    &&& (forall|i: int|
        0 <= i < s.references@.len() ==> reference_fits(#[trigger] s.references@[i], e.path@))
    &&& string_views(s.files@) == string_views(e.files@)
}

/// An entry is an agent: a `.pan` or `.md` file whose stem is not hidden.
pub open spec fn is_agent_file(f: AgentFileEntry) -> bool {
    &&& f.is_file
    &&& (ext_of(f.file_name@) == Some("pan"@) || ext_of(f.file_name@) == Some("md"@))
    &&& !is_hidden_name(stem_of(f.file_name@))
}

/// An agent as discovery builds it from the entry `f`, with outputs under
/// `out_dir`.
pub open spec fn agent_fits(a: Agent, f: AgentFileEntry, out_dir: Seq<char>) -> bool {
    &&& a.name@ == stem_of(f.file_name@)
    &&& a.source_path@ == f.path@
    &&& a.target_path@ == joined(joined(out_dir, "agents"@), stem_of(f.file_name@) + ".md"@)
}

/// The fragment a file name holds: the name without `.fragment.pan`.
pub open spec fn fragment_of(file_name: Seq<char>) -> Option<Seq<char>> {
    if has_suffix(file_name, ".fragment.pan"@) {
        Some(file_name.subrange(0, file_name.len() - 13))
    } else {
        None
    }
}

/// The skills among the entries found under the skills source directory,
/// keyed by name, with their outputs under `out_dir`.
pub fn discover_skills(out_dir: &str, entries: Vec<SkillDirEntry>) -> (r: StrMap<Skill>)
    ensures
        r.wf(),
        forall|k: Seq<char>|
            r@.contains_key(k) <==> exists|i: int|
                0 <= i < entries@.len() && is_skill_dir(#[trigger] entries@[i]) && entries@[i].name@
                    == k,
        forall|k: Seq<char>|
            #![trigger r@[k]]
            r@.contains_key(k) ==> exists|i: int|
                0 <= i < entries@.len() && is_skill_dir(#[trigger] entries@[i]) && entries@[i].name@
                    == k && skill_fits(r@[k], entries@[i], out_dir@),
{
    let ghost all = entries@;
    let mut rest = entries;
    let mut map: StrMap<Skill> = StrMap::new();
    while rest.len() > 0
        invariant
            map.wf(),
            rest@.len() <= all.len(),
            rest@ == all.subrange(0, rest@.len() as int),
            forall|k: Seq<char>|
                map@.contains_key(k) <==> exists|i: int|
                    rest@.len() <= i < all.len() && is_skill_dir(#[trigger] all[i]) && all[i].name@ == k,
            forall|k: Seq<char>|
                #![trigger map@[k]]
                map@.contains_key(k) ==> exists|i: int|
                    rest@.len() <= i < all.len() && is_skill_dir(#[trigger] all[i]) && all[i].name@ == k
                        && skill_fits(map@[k], all[i], out_dir@),
        decreases rest@.len(),
    {
        let ghost before = rest@;
        let ghost old_map = map@;
        let e = rest.pop().unwrap();
        let ghost at = rest@.len() as int;
        proof {
            assert(rest@ =~= all.subrange(0, at));
            assert(e == all[at]);
        }
        if e.is_dir && !is_hidden(e.name.as_str()) && e.has_source {
            let scripts = resolve_scripts(e.path.as_str(), &e.files);
            let references = resolve_references(e.path.as_str(), &e.files);
            let source_name = concat(e.name.as_str(), ".pan");
            let source_path = join_path(e.path.as_str(), source_name.as_str());
            let target_dir = join_path(out_dir, e.name.as_str());
            let key = e.name.clone();
            let ghost ev = e;
            let skill = Skill {
                name: e.name,
                source_path,
                src_dir: e.path,
                target_dir,
                scripts,
                references,
                files: e.files,
            };
            proof {
                assert(skill_fits(skill, ev, out_dir@));
            }
            map.insert(key, skill);
            proof {
                assert forall|k: Seq<char>|
                    map@.contains_key(k) <==> exists|i: int|
                        rest@.len() <= i < all.len() && is_skill_dir(#[trigger] all[i]) && all[i].name@
                            == k by {
                    if k == ev.name@ {
                        assert(is_skill_dir(all[at]));
                    } else if old_map.contains_key(k) {
                    } else {
                        if exists|i: int|
                            rest@.len() <= i < all.len() && is_skill_dir(#[trigger] all[i])
                                && all[i].name@ == k {
                            let i = choose|i: int|
                                rest@.len() <= i < all.len() && is_skill_dir(#[trigger] all[i])
                                    && all[i].name@ == k;
                            assert(i != at);
                        }
                    }
                }
                assert forall|k: Seq<char>| #[trigger] map@.contains_key(k) implies exists|i: int|
                    rest@.len() <= i < all.len() && is_skill_dir(#[trigger] all[i]) && all[i].name@
                        == k && skill_fits(map@[k], all[i], out_dir@) by {
                    if k == ev.name@ {
                        assert(is_skill_dir(all[at]) && skill_fits(map@[k], all[at], out_dir@));
                    } else {
                        assert(old_map.contains_key(k));
                        assert(map@[k] == old_map[k]);
                    }
                }
            }
        } else {
            proof {
                assert(!is_skill_dir(all[at]));
                assert forall|k: Seq<char>|
                    map@.contains_key(k) <==> exists|i: int|
                        rest@.len() <= i < all.len() && is_skill_dir(#[trigger] all[i]) && all[i].name@
                            == k by {
                    if exists|i: int|
                        rest@.len() <= i < all.len() && is_skill_dir(#[trigger] all[i])
                            && all[i].name@ == k {
                        let i = choose|i: int|
                            rest@.len() <= i < all.len() && is_skill_dir(#[trigger] all[i])
                                && all[i].name@ == k;
                        assert(i != at);
                    }
                }
            }
        }
    }
    map
}

/// Whether the entry `f` is an agent.
fn agent_file(f: &AgentFileEntry) -> (r: Option<String>)
    ensures
        match r {
            Some(stem) => is_agent_file(*f) && stem@ == stem_of(f.file_name@),
            None => !is_agent_file(*f),
        },
{
    if !f.is_file {
        return None;
    }
    let (stem, ext) = split_file_name(f.file_name.as_str());
    proof {
        reveal_strlit("pan");
        reveal_strlit("md");
    }
    let known = match ext {
        Some(e) => crate::text::str_eq(e.as_str(), "pan") || crate::text::str_eq(e.as_str(), "md"),
        None => false,
    };
    if !known || is_hidden(stem.as_str()) {
        return None;
    }
    Some(stem)
}

/// The agents among the entries found under the agents directory, keyed by
/// name, with their outputs under `out_dir`.
pub fn discover_agents(out_dir: &str, entries: Vec<AgentFileEntry>) -> (r: StrMap<Agent>)
    ensures
        r.wf(),
        forall|k: Seq<char>|
            r@.contains_key(k) <==> exists|i: int|
                0 <= i < entries@.len() && is_agent_file(#[trigger] entries@[i]) && stem_of(
                    entries@[i].file_name@,
                ) == k,
        forall|k: Seq<char>|
            #![trigger r@[k]]
            r@.contains_key(k) ==> exists|i: int|
                0 <= i < entries@.len() && is_agent_file(#[trigger] entries@[i]) && stem_of(
                    entries@[i].file_name@,
                ) == k && agent_fits(r@[k], entries@[i], out_dir@),
{
    let ghost all = entries@;
    let mut rest = entries;
    let mut map: StrMap<Agent> = StrMap::new();
    let agents_out = join_path(out_dir, "agents");
    while rest.len() > 0
        invariant
            map.wf(),
            rest@.len() <= all.len(),
            rest@ == all.subrange(0, rest@.len() as int),
            agents_out@ == joined(out_dir@, "agents"@),
            forall|k: Seq<char>|
                map@.contains_key(k) <==> exists|i: int|
                    rest@.len() <= i < all.len() && is_agent_file(#[trigger] all[i]) && stem_of(
                        all[i].file_name@,
                    ) == k,
            forall|k: Seq<char>|
                #![trigger map@[k]]
                map@.contains_key(k) ==> exists|i: int|
                    rest@.len() <= i < all.len() && is_agent_file(#[trigger] all[i]) && stem_of(
                        all[i].file_name@,
                    ) == k && agent_fits(map@[k], all[i], out_dir@),
        decreases rest@.len(),
    {
        let ghost old_map = map@;
        let f = rest.pop().unwrap();
        let ghost at = rest@.len() as int;
        proof {
            assert(rest@ =~= all.subrange(0, at));
            assert(f == all[at]);
        }
        match agent_file(&f) {
            Some(stem) => {
                let target_name = concat(stem.as_str(), ".md");
                let target_path = join_path(agents_out.as_str(), target_name.as_str());
                let key = stem.clone();
                let ghost fv = f;
                let agent = Agent { name: stem, source_path: f.path, target_path };
                proof {
                    assert(agent_fits(agent, fv, out_dir@));
                }
                map.insert(key, agent);
                proof {
                    let kk = stem_of(fv.file_name@);
                    assert forall|k: Seq<char>|
                        map@.contains_key(k) <==> exists|i: int|
                            rest@.len() <= i < all.len() && is_agent_file(#[trigger] all[i])
                                && stem_of(all[i].file_name@) == k by {
                        if k == kk {
                            assert(is_agent_file(all[at]));
                        } else if old_map.contains_key(k) {
                        } else {
                            if exists|i: int|
                                rest@.len() <= i < all.len() && is_agent_file(#[trigger] all[i])
                                    && stem_of(all[i].file_name@) == k {
                                let i = choose|i: int|
                                    rest@.len() <= i < all.len() && is_agent_file(
                                        #[trigger] all[i],
                                    ) && stem_of(all[i].file_name@) == k;
                                assert(i != at);
                            }
                        }
                    }
                    assert forall|k: Seq<char>| #[trigger] map@.contains_key(k) implies exists|i: int|
                        rest@.len() <= i < all.len() && is_agent_file(#[trigger] all[i]) && stem_of(
                            all[i].file_name@,
                        ) == k && agent_fits(map@[k], all[i], out_dir@) by {
                        if k == kk {
                            assert(is_agent_file(all[at]) && agent_fits(map@[k], all[at], out_dir@));
                        } else {
                            assert(old_map.contains_key(k));
                            assert(map@[k] == old_map[k]);
                        }
                    }
                }
            },
            None => {
                proof {
                    assert forall|k: Seq<char>|
                        map@.contains_key(k) <==> exists|i: int|
                            rest@.len() <= i < all.len() && is_agent_file(#[trigger] all[i])
                                && stem_of(all[i].file_name@) == k by {
                        if exists|i: int|
                            rest@.len() <= i < all.len() && is_agent_file(#[trigger] all[i])
                                && stem_of(all[i].file_name@) == k {
                            let i = choose|i: int|
                                rest@.len() <= i < all.len() && is_agent_file(#[trigger] all[i])
                                    && stem_of(all[i].file_name@) == k;
                            assert(i != at);
                        }
                    }
                }
            },
        }
    }
    map
}

/// The fragment a file name holds: the name without `.fragment.pan`, when it
/// ends so.
pub fn fragment_name(file_name: &str) -> (r: Option<String>)
    ensures
        opt_string_view(r) == fragment_of(file_name@),
{
    proof {
        reveal_strlit(".fragment.pan");
    }
    match strip_suffix(file_name, ".fragment.pan") {
        Some(t) => {
            proof {
                assert(file_name@.subrange(0, file_name@.len() - 13) =~= t@);
                assert(file_name@.subrange(file_name@.len() - 13, file_name@.len() as int)
                    =~= ".fragment.pan"@);
            }
            Some(String::from_str(t))
        },
        None => None,
    }
}

/// The view of an optional string.
pub open spec fn opt_string_view(o: Option<String>) -> Option<Seq<char>> {
    match o {
        Some(s) => Some(s@),
        None => None,
    }
}

/// The fragments among the files that were read, keyed by fragment name.
pub fn load_all_fragments(files: Vec<FragmentFile>) -> (r: StrMap<String>)
    ensures
        r.wf(),
        forall|k: Seq<char>|
            r@.contains_key(k) <==> exists|i: int|
                0 <= i < files@.len() && fragment_of(#[trigger] files@[i].file_name@) == Some(k),
        forall|k: Seq<char>|
            #![trigger r@[k]]
            r@.contains_key(k) ==> exists|i: int|
                0 <= i < files@.len() && fragment_of(#[trigger] files@[i].file_name@) == Some(k)
                    && r@[k]@ == files@[i].content@,
{
    let ghost all = files@;
    let mut rest = files;
    let mut map: StrMap<String> = StrMap::new();
    while rest.len() > 0
        invariant
            map.wf(),
            rest@.len() <= all.len(),
            rest@ == all.subrange(0, rest@.len() as int),
            forall|k: Seq<char>|
                map@.contains_key(k) <==> exists|i: int|
                    rest@.len() <= i < all.len() && fragment_of(#[trigger] all[i].file_name@) == Some(k),
            forall|k: Seq<char>|
                #![trigger map@[k]]
                map@.contains_key(k) ==> exists|i: int|
                    rest@.len() <= i < all.len() && fragment_of(#[trigger] all[i].file_name@) == Some(k)
                        && map@[k]@ == all[i].content@,
        decreases rest@.len(),
    {
        let ghost old_map = map@;
        let f = rest.pop().unwrap();
        let ghost at = rest@.len() as int;
        proof {
            assert(rest@ =~= all.subrange(0, at));
            assert(f == all[at]);
        }
        match fragment_name(f.file_name.as_str()) {
            Some(name) => {
                let ghost kk = name@;
                map.insert(name, f.content);
                proof {
                    assert forall|k: Seq<char>|
                        map@.contains_key(k) <==> exists|i: int|
                            rest@.len() <= i < all.len() && fragment_of(#[trigger] all[i].file_name@)
                                == Some(k) by {
                        if k == kk {
                            assert(fragment_of(all[at].file_name@) == Some(k));
                        } else if old_map.contains_key(k) {
                        } else {
                            if exists|i: int|
                                rest@.len() <= i < all.len() && fragment_of(
                                    #[trigger] all[i].file_name@,
                                ) == Some(k) {
                                let i = choose|i: int|
                                    rest@.len() <= i < all.len() && fragment_of(
                                        #[trigger] all[i].file_name@,
                                    ) == Some(k);
                                assert(i != at);
                            }
                        }
                    }
                    assert forall|k: Seq<char>| #[trigger] map@.contains_key(k) implies exists|i: int|
                        rest@.len() <= i < all.len() && fragment_of(#[trigger] all[i].file_name@)
                            == Some(k) && map@[k]@ == all[i].content@ by {
                        if k == kk {
                            assert(fragment_of(all[at].file_name@) == Some(k) && map@[k]@
                                == all[at].content@);
                        } else {
                            assert(old_map.contains_key(k));
                            assert(map@[k] == old_map[k]);
                        }
                    }
                }
            },
            None => {
                proof {
                    assert forall|k: Seq<char>|
                        map@.contains_key(k) <==> exists|i: int|
                            rest@.len() <= i < all.len() && fragment_of(#[trigger] all[i].file_name@)
                                == Some(k) by {
                        if exists|i: int|
                            rest@.len() <= i < all.len() && fragment_of(#[trigger] all[i].file_name@)
                                == Some(k) {
                            let i = choose|i: int|
                                rest@.len() <= i < all.len() && fragment_of(
                                    #[trigger] all[i].file_name@,
                                ) == Some(k);
                            assert(i != at);
                        }
                    }
                }
            },
        }
    }
    map
}

} // verus!
