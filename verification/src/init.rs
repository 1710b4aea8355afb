//! Workspace initialisation, adoption of existing `SKILL.md` outputs, and
//! scaffolding of new skills: the paths they create and the files they copy.
//!
//! Creating directories and copying files is the caller's part.
use vstd::prelude::*;

use crate::freshness::{join_path, joined};
use crate::refs::has_prefix;
use crate::text::concat;
use crate::workspace::discover::{
    ext_of, is_hidden, is_hidden_name, last_component, last_component_of, last_index_of, split_file_name,
    stem_of,
};

verus! {

// ── Reports ───────────────────────────────────────────────────────────────────

/// What `init` created.
#[derive(Debug)]
pub struct InitReport {
    /// Directories created during init.
    pub created_dirs: Vec<String>,
    /// Path to the written `skillet.toml`.
    pub config_path: String,
}

/// What `new` created.
#[derive(Debug)]
pub struct NewReport {
    /// Path to the created skill source.
    pub created: String,
}

/// The layout `init` creates under the workspace root: the skills source
/// directory `src/skills`, the output directory `skills`, the fragments
/// directory `src/skills/_fragments`, and `skillet.toml`.
pub fn init_report(workspace: &str) -> (r: InitReport)
    ensures
        r.created_dirs@.len() == 3,
        r.created_dirs@[0]@ == joined(workspace@, "src/skills"@),
        r.created_dirs@[1]@ == joined(workspace@, "skills"@),
        r.created_dirs@[2]@ == joined(workspace@, "src/skills/_fragments"@),
        r.config_path@ == joined(workspace@, "skillet.toml"@),
{
    let mut created_dirs: Vec<String> = Vec::new();
    created_dirs.push(join_path(workspace, "src/skills"));
    created_dirs.push(join_path(workspace, "skills"));
    created_dirs.push(join_path(workspace, "src/skills/_fragments"));
    InitReport { created_dirs, config_path: join_path(workspace, "skillet.toml") }
}

/// The directory and source file of a new skill `name` under the skills
/// source directory `src_dir`.
pub fn new_skill_paths(src_dir: &str, name: &str) -> (r: (String, String))
    ensures
        r.0@ == joined(src_dir@, name@),
        r.1@ == joined(joined(src_dir@, name@), name@ + ".pan"@),
{
    let dir = join_path(src_dir, name);
    let file_name = concat(name, ".pan");
    let file = join_path(dir.as_str(), file_name.as_str());
    (dir, file)
}

/// The message with which `init` refuses a workspace whose configuration
/// file `config_path` already exists.
pub open spec fn init_refusal(config_path: Seq<char>) -> Seq<char> {
    "skillet.toml already exists at "@ + config_path + ", refusing to overwrite"@
}

/// What `init` does in `workspace`: refuse when its `skillet.toml` already
/// exists (`config_exists`), otherwise create the layout of [`init_report`].
pub fn init_plan(workspace: &str, config_exists: bool) -> (r: Result<InitReport, String>)
    ensures
        r is Err <==> config_exists,
        r matches Err(e) ==> e@ == init_refusal(joined(workspace@, "skillet.toml"@)),
        r matches Ok(rep) ==> {
            &&& rep.created_dirs@.len() == 3
            &&& rep.created_dirs@[0]@ == joined(workspace@, "src/skills"@)
            &&& rep.created_dirs@[1]@ == joined(workspace@, "skills"@)
            &&& rep.created_dirs@[2]@ == joined(workspace@, "src/skills/_fragments"@)
            &&& rep.config_path@ == joined(workspace@, "skillet.toml"@)
        },
{
    let report = init_report(workspace);
    if config_exists {
        let mut msg = String::from_str("skillet.toml already exists at ");
        msg.append(report.config_path.as_str());
        msg.append(", refusing to overwrite");
        Err(msg)
    } else {
        Ok(report)
    }
}

/// The message with which `new` refuses a skill `name` whose directory `dir`
/// already exists.
pub open spec fn new_refusal(name: Seq<char>, dir: Seq<char>) -> Seq<char> {
    "skill '"@ + name + "' already exists at "@ + dir
}

/// What `new` does for skill `name` under `src_dir`: refuse when the skill's
/// directory already exists (`dir_exists`), otherwise create the directory
/// and source file of [`new_skill_paths`].
pub fn new_skill_plan(src_dir: &str, name: &str, dir_exists: bool) -> (r: Result<(String, String), String>)
    ensures
        r is Err <==> dir_exists,
        r matches Err(e) ==> e@ == new_refusal(name@, joined(src_dir@, name@)),
        r matches Ok(p) ==> p.0@ == joined(src_dir@, name@) && p.1@ == joined(
            joined(src_dir@, name@),
            name@ + ".pan"@,
        ),
{
    let (dir, file) = new_skill_paths(src_dir, name);
    if dir_exists {
        let mut msg = String::from_str("skill '");
        msg.append(name);
        msg.append("' already exists at ");
        msg.append(dir.as_str());
        Err(msg)
    } else {
        Ok((dir, file))
    }
}

// ── Adoption ──────────────────────────────────────────────────────────────────

/// A directory entry found directly under the skills output directory.
#[derive(Debug)]
pub struct AdoptDir {
    /// The entry's file name.
    pub name: String,
    /// The entry's path.
    pub path: String,
    /// Whether the entry is a directory.
    pub is_dir: bool,
    /// Whether the directory holds a `SKILL.md`.
    pub has_skill_md: bool,
    /// Every file under the directory, as a path relative to it with `/`
    /// separators.
    pub files: Vec<String>,
    /// Every directory under the directory, as a path relative to it with
    /// `/` separators.
    pub dirs: Vec<String>,
}

/// A file to copy.
#[derive(Debug)]
pub struct CopyOp {
    /// The file copied.
    pub from: String,
    /// Where the copy goes.
    pub to: String,
}

/// What adopting existing outputs does: the directories it creates and the
/// files it copies, in order.
#[derive(Debug)]
pub struct AdoptPlan {
    /// Directories to create.
    pub dirs: Vec<String>,
    /// Files to copy.
    pub copies: Vec<CopyOp>,
}

/// A copy as plain values.
pub open spec fn copy_view(c: CopyOp) -> (Seq<char>, Seq<char>) {
    (c.from@, c.to@)
}

/// An entry is adopted: a directory that is not hidden and holds a `SKILL.md`.
pub open spec fn is_adopted(e: AdoptDir) -> bool {
    e.is_dir && !is_hidden_name(e.name@) && e.has_skill_md
}

/// A path relative to an adopted directory lies in one of its
/// subdirectories.
pub open spec fn in_subdir(f: Seq<char>) -> bool {
    last_index_of(f, '/') is Some
}

/// Where a file of an adopted directory goes, relative to the new source
/// directory: a `.md` file under `reference/` becomes a `.pan` file, any
/// other file keeps its path.
pub open spec fn adopted_path(f: Seq<char>) -> Seq<char> {
    if has_prefix(f, "reference/"@) && ext_of(last_component(f)) == Some("md"@) {
        f.subrange(0, f.len() - last_component(f).len()) + stem_of(last_component(f)) + ".pan"@
    } else {
        f
    }
}

/// The copies for the files of an adopted directory.
pub open spec fn file_copies(from_dir: Seq<char>, to_dir: Seq<char>, fs: Seq<Seq<char>>) -> Seq<(Seq<char>, Seq<char>)>
    decreases fs.len(),
{
    if fs.len() == 0 {
        Seq::empty()
    } else {
        let rest = file_copies(from_dir, to_dir, fs.drop_last());
        if in_subdir(fs.last()) {
            rest.push((joined(from_dir, fs.last()), joined(to_dir, adopted_path(fs.last()))))
        } else {
            rest
        }
    }
}

/// The new source directory of an adopted entry.
pub open spec fn adopted_dir(src_dir: Seq<char>, e: AdoptDir) -> Seq<char> {
    joined(src_dir, e.name@)
}

/// The copies adopting the entries `es` makes: for each adopted entry, its
/// `SKILL.md` becomes `{name}.pan` in the new source directory, then the
/// files of its subdirectories follow.
pub open spec fn adopt_copies(src_dir: Seq<char>, es: Seq<AdoptDir>) -> Seq<(Seq<char>, Seq<char>)>
    decreases es.len(),
{
    if es.len() == 0 {
        Seq::empty()
    } else {
        let rest = adopt_copies(src_dir, es.drop_last());
        let e = es.last();
        if is_adopted(e) {
            let to_dir = adopted_dir(src_dir, e);
            rest.push((joined(e.path@, "SKILL.md"@), joined(to_dir, e.name@ + ".pan"@))) + file_copies(
                e.path@,
                to_dir,
                crate::collections::string_views(e.files@),
            )
        } else {
            rest
        }
    }
}

/// The directories adopting the entries `es` creates: each new source
/// directory, then its subdirectories.
pub open spec fn adopt_dirs(src_dir: Seq<char>, es: Seq<AdoptDir>) -> Seq<Seq<char>>
    decreases es.len(),
{
    if es.len() == 0 {
        Seq::empty()
    } else {
        let rest = adopt_dirs(src_dir, es.drop_last());
        let e = es.last();
        if is_adopted(e) {
            let to_dir = adopted_dir(src_dir, e);
            rest.push(to_dir) + crate::collections::string_views(e.dirs@).map_values(
                |d: Seq<char>| joined(to_dir, d),
            )
        } else {
            rest
        }
    }
}

/// Where a file of an adopted directory goes, relative to the new source
/// directory.
fn adopted_path_of(f: &str) -> (r: String)
    ensures
        r@ == adopted_path(f@),
{
    if !crate::refs::starts_with(f, "reference/") {
        return String::from_str(f);
    }
    let comp = last_component_of(f);
    let (stem, ext) = split_file_name(comp.as_str());
    proof {
        reveal_strlit("md");
    }
    let is_md = match ext {
        Some(e) => crate::text::str_eq(e.as_str(), "md"),
        None => false,
    };
    if !is_md {
        return String::from_str(f);
    }
    let n = f.unicode_len();
    let c = comp.unicode_len();
    proof {
        crate::workspace::discover::lemma_last_component_len(f@);
    }
    let head = f.substring_char(0, n - c);
    let with_stem = concat(head, stem.as_str());
    concat(with_stem.as_str(), ".pan")
}

/// Whether a relative path lies in a subdirectory.
fn in_subdir_of(f: &str) -> (r: bool)
    ensures
        r == in_subdir(f@),
{
    crate::workspace::discover::find_last(f, '/').is_some()
}

/// What adopting the entries found under the skills output directory does,
/// with the new sources under `src_dir`.
pub fn adopt_plan(src_dir: &str, entries: &Vec<AdoptDir>) -> (r: AdoptPlan)
    ensures
        crate::collections::string_views(r.dirs@) == adopt_dirs(src_dir@, entries@),
        r.copies@.map_values(|c: CopyOp| copy_view(c)) == adopt_copies(src_dir@, entries@),
{
    let mut dirs: Vec<String> = Vec::new();
    let mut copies: Vec<CopyOp> = Vec::new();
    let mut i: usize = 0;
    while i < entries.len()
        invariant
            i <= entries@.len(),
            crate::collections::string_views(dirs@) == adopt_dirs(src_dir@, entries@.subrange(0, i as int)),
            copies@.map_values(|c: CopyOp| copy_view(c)) == adopt_copies(src_dir@, entries@.subrange(0, i as int)),
        decreases entries@.len() - i,
    {
        let e = &entries[i];
        let ghost sub = entries@.subrange(0, i + 1);
        proof {
            assert(sub.drop_last() =~= entries@.subrange(0, i as int));
            assert(sub.last() == *e);
        }
        if e.is_dir && !is_hidden(e.name.as_str()) && e.has_skill_md {
            let to_dir = join_path(src_dir, e.name.as_str());
            let ghost dirs0 = crate::collections::string_views(dirs@);
            dirs.push(String::from_str(to_dir.as_str()));
            proof {
                assert(crate::collections::string_views(dirs@) =~= dirs0.push(to_dir@));
            }
            let mut j: usize = 0;
            while j < e.dirs.len()
                invariant
                    j <= e.dirs@.len(),
                    crate::collections::string_views(dirs@) == dirs0.push(to_dir@) + crate::collections::string_views(
                        e.dirs@,
                    ).subrange(0, j as int).map_values(|d: Seq<char>| joined(to_dir@, d)),
                decreases e.dirs@.len() - j,
            {
                let d = join_path(to_dir.as_str(), e.dirs[j].as_str());
                let ghost before = crate::collections::string_views(dirs@);
                dirs.push(d);
                proof {
                    let sv = crate::collections::string_views(e.dirs@);
                    assert(sv.subrange(0, j + 1) =~= sv.subrange(0, j as int).push(e.dirs@[j as int]@));
                    assert(crate::collections::string_views(dirs@) =~= before.push(joined(to_dir@, e.dirs@[j as int]@)));
                    assert(crate::collections::string_views(dirs@) =~= dirs0.push(to_dir@) + sv.subrange(
                        0,
                        j + 1,
                    ).map_values(|d: Seq<char>| joined(to_dir@, d)));
                }
                j = j + 1;
            }
            let skill_md = join_path(e.path.as_str(), "SKILL.md");
            let pan_name = concat(e.name.as_str(), ".pan");
            let pan = join_path(to_dir.as_str(), pan_name.as_str());
            let ghost copies0 = copies@.map_values(|c: CopyOp| copy_view(c));
            copies.push(CopyOp { from: skill_md, to: pan });
            let ghost copies1 = copies@.map_values(|c: CopyOp| copy_view(c));
            proof {
                assert(copies1 =~= copies0.push((joined(e.path@, "SKILL.md"@), joined(to_dir@, e.name@ + ".pan"@))));
            }
            let mut k: usize = 0;
            while k < e.files.len()
                invariant
                    k <= e.files@.len(),
                    copies@.map_values(|c: CopyOp| copy_view(c)) == copies1 + file_copies(
                        e.path@,
                        to_dir@,
                        crate::collections::string_views(e.files@).subrange(0, k as int),
                    ),
                decreases e.files@.len() - k,
            {
                let f = &e.files[k];
                let ghost sv = crate::collections::string_views(e.files@);
                proof {
                    assert(sv.subrange(0, k + 1).drop_last() =~= sv.subrange(0, k as int));
                    assert(sv.subrange(0, k + 1).last() == f@);
                }
                if in_subdir_of(f.as_str()) {
                    let from = join_path(e.path.as_str(), f.as_str());
                    let rel = adopted_path_of(f.as_str());
                    let to = join_path(to_dir.as_str(), rel.as_str());
                    let ghost before = copies@.map_values(|c: CopyOp| copy_view(c));
                    copies.push(CopyOp { from, to });
                    proof {
                        assert(copies@.map_values(|c: CopyOp| copy_view(c)) =~= before.push(
                            (joined(e.path@, f@), joined(to_dir@, adopted_path(f@))),
                        ));
                    }
                }
                k = k + 1;
            }
            proof {
                let svf = crate::collections::string_views(e.files@);
                let svd = crate::collections::string_views(e.dirs@);
                assert(svf.subrange(0, svf.len() as int) =~= svf);
                assert(svd.subrange(0, svd.len() as int) =~= svd);
            }
        }
        i = i + 1;
    }
    proof {
        assert(entries@.subrange(0, entries@.len() as int) =~= entries@);
    }
    AdoptPlan { dirs, copies }
}

} // verus!
