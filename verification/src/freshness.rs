//! Freshness verification: compares the workspace against `skillet.lock`.
//!
//! This is the logic behind `skillet check`, a fast gate that never
//! recompiles. The caller reads the sources, the `SKILL.md` files and the
//! fragments from disk; their hashes are compared with the hashes that the
//! lockfile recorded, giving a [`CheckReport`] sorted by skill name.
use vstd::prelude::*;

use crate::collections::{sorted_keys, StrMap, StrSet};
use crate::hashing::{hash_bytes, sha256_label};
use crate::lockfile::{FragmentLockEntry, Lockfile, SkillEntry};
use crate::parse::opt_view;
use crate::text::{concat, concat3, str_eq, to_decimal};
use crate::workspace::skill::Skill;
use crate::workspace::discover::{last_component, last_component_of};
use crate::workspace::Workspace;

verus! {

// ── What was read from disk ──────────────────────────────────────────────────

/// What reading a file gave.
#[derive(Debug)]
pub enum FileState {
    /// The file does not exist.
    Missing,
    /// The file exists but could not be read.
    Unreadable,
    /// The file's bytes.
    Read(Vec<u8>),
}

/// What reading a file gave, as values.
pub enum FileStateView {
    /// The file does not exist.
    Missing,
    /// The file exists but could not be read.
    Unreadable,
    /// The file's bytes.
    Read(Seq<u8>),
}

impl View for FileState {
    type V = FileStateView;

    open spec fn view(&self) -> FileStateView {
        match self {
            FileState::Missing => FileStateView::Missing,
            FileState::Unreadable => FileStateView::Unreadable,
            FileState::Read(b) => FileStateView::Read(b@),
        }
    }
}

/// The files a freshness check reads, as the caller found them on disk.
#[derive(Debug)]
pub struct DiskState {
    /// Each skill's `.pan` source, by skill name.
    pub sources: StrMap<FileState>,
    /// Each skill's compiled `SKILL.md`, by skill name.
    pub outputs: StrMap<FileState>,
    /// Each fragment's file, by fragment name.
    pub fragments: StrMap<FileState>,
}

impl DiskState {
    /// The maps are well formed.
    pub open spec fn wf(&self) -> bool {
        self.sources.wf() && self.outputs.wf() && self.fragments.wf()
    }
}

/// The state of the file recorded under `k`; a file that was not recorded
/// counts as missing.
pub open spec fn state_at(m: Map<Seq<char>, FileState>, k: Seq<char>) -> FileStateView {
    if m.contains_key(k) {
        m[k]@
    } else {
        FileStateView::Missing
    }
}

// ── Report ───────────────────────────────────────────────────────────────────

/// A single machine-readable staleness difference.
#[derive(Debug)]
pub struct DiffEntry {
    /// The kind of difference (e.g. `source_changed`, `fragment_missing`).
    pub kind: String,
    /// Optional file associated with the difference.
    pub file: Option<String>,
}

/// A staleness difference, as values.
pub struct DiffEntryView {
    /// The kind of difference.
    pub kind: Seq<char>,
    /// The file it concerns, if any.
    pub file: Option<Seq<char>>,
}

impl View for DiffEntry {
    type V = DiffEntryView;

    open spec fn view(&self) -> DiffEntryView {
        DiffEntryView { kind: self.kind@, file: opt_view(self.file) }
    }
}

/// Freshness verdict for one skill.
#[derive(Debug)]
pub struct SkillResult {
    /// Skill name.
    pub name: String,
    /// Whether the skill is up-to-date with the lockfile.
    pub fresh: bool,
    /// Human-readable reasons the skill is stale (empty when fresh).
    pub reasons: Vec<String>,
    /// Machine-readable staleness differences.
    pub diffs: Vec<DiffEntry>,
}

/// A verdict, as values.
pub struct SkillResultView {
    /// Skill name.
    pub name: Seq<char>,
    /// Whether the skill is up-to-date.
    pub fresh: bool,
    /// The reasons it is stale.
    pub reasons: Seq<Seq<char>>,
    /// The differences found.
    pub diffs: Seq<DiffEntryView>,
}

impl View for SkillResult {
    type V = SkillResultView;

    open spec fn view(&self) -> SkillResultView {
        SkillResultView {
            name: self.name@,
            fresh: self.fresh,
            reasons: crate::collections::string_views(self.reasons@),
            diffs: diff_views(self.diffs@),
        }
    }
}

/// The views of a sequence of differences.
pub open spec fn diff_views(ds: Seq<DiffEntry>) -> Seq<DiffEntryView> {
    ds.map_values(|d: DiffEntry| d@)
}

/// Overall `check` output.
#[derive(Debug)]
pub struct CheckReport {
    /// Whether every skill in the workspace is fresh.
    pub fresh: bool,
    /// Per-skill verdicts, sorted by name.
    pub skills: Vec<SkillResult>,
}

/// The names of the verdicts `rs`, in order.
pub open spec fn result_names(rs: Seq<SkillResult>) -> Seq<Seq<char>> {
    rs.map_values(|r: SkillResult| r.name@)
}

// ── What each verdict holds ──────────────────────────────────────────────────

/// The message of a file that could not be read for hashing.
pub open spec fn read_failure(path: Seq<char>) -> Seq<char> {
    "failed to read "@ + path + " for hashing"@
}

/// The `"sha256:<hex>"` hash of a file that could be read.
pub open spec fn file_hash(st: FileStateView) -> Option<Seq<char>> {
    match st {
        FileStateView::Read(b) => Some(sha256_label(b)),
        _ => None,
    }
}

/// `name` appended to the directory `dir`, with a `/` between them unless
/// `dir` is empty or already ends with one; an absolute `name` (one that
/// starts with `/`) stands alone.
pub open spec fn joined(dir: Seq<char>, name: Seq<char>) -> Seq<char> {
    if name.len() > 0 && name[0] == '/' {
        name
    } else if dir.len() == 0 || dir.last() == '/' {
        dir + name
    } else {
        dir + "/"@ + name
    }
}

/// The path of the compiled `SKILL.md` of `skill`.
pub open spec fn skill_md_of(skill: Skill) -> Seq<char> {
    joined(skill.target_dir@, "SKILL.md"@)
}

/// `p` without its trailing separators and trailing `/.` parts, which do
/// not change what the path names.
pub open spec fn trim_path_tail(p: Seq<char>) -> Seq<char>
    decreases p.len(),
{
    if p.len() > 0 && p.last() == '/' {
        trim_path_tail(p.drop_last())
    } else if p.len() >= 2 && p.last() == '.' && p[p.len() - 2] == '/' {
        trim_path_tail(p.drop_last())
    } else {
        p
    }
}

/// The final component of `path`, as `std::path::Path::file_name` gives it
/// for a `/`-separated path: its last part once trailing separators and `.`
/// parts are set aside, unless that is empty (the root, or an empty path),
/// `.` or `..`.
pub open spec fn path_file_name(path: Seq<char>) -> Option<Seq<char>> {
    let c = last_component(trim_path_tail(path));
    if c.len() == 0 || c == seq!['.'] || c == seq!['.', '.'] {
        None
    } else {
        Some(c)
    }
}

/// The final component of `path`, or nothing.
pub open spec fn file_name_or_empty(path: Seq<char>) -> Seq<char> {
    match path_file_name(path) {
        Some(n) => n,
        None => Seq::empty(),
    }
}

/// A difference of the given kind.
pub open spec fn diff(kind: Seq<char>, file: Option<Seq<char>>) -> DiffEntryView {
    DiffEntryView { kind, file }
}

/// What comparing the source of `skill` with its lockfile entry finds.
pub open spec fn source_notes(skill: Skill, entry: SkillEntry, st: FileStateView) -> (
    Seq<Seq<char>>,
    Seq<DiffEntryView>,
) {
    match file_hash(st) {
        None => (seq!["could not hash source: "@ + read_failure(skill.source_path@)], seq![]),
        Some(h) => if h != entry.source_hash@ {
            (
                seq!["source '"@ + file_name_or_empty(skill.source_path@) + "' has changed since last build"@],
                seq![diff("source_changed"@, Some(skill.source_path@))],
            )
        } else {
            (seq![], seq![])
        },
    }
}

/// What comparing the `SKILL.md` of `skill` with its lockfile entry finds.
pub open spec fn output_notes(skill: Skill, entry: SkillEntry, st: FileStateView) -> (
    Seq<Seq<char>>,
    Seq<DiffEntryView>,
) {
    let md = skill_md_of(skill);
    match st {
        FileStateView::Missing => (
            seq!["SKILL.md is missing — run `skillet build`"@],
            seq![diff("skill_md_missing"@, Some(md))],
        ),
        FileStateView::Unreadable => (seq!["could not hash SKILL.md: "@ + read_failure(md)], seq![]),
        FileStateView::Read(b) => if sha256_label(b) != entry.compiled_hash@ {
            (
                seq!["SKILL.md does not match last build — run `skillet build`"@],
                seq![diff("skill_md_changed"@, Some(md))],
            )
        } else {
            (seq![], seq![])
        },
    }
}

/// What comparing `skill` with the lockfile's skill records finds.
pub open spec fn entry_notes(skill: Skill, lock: &Lockfile, disk: &DiskState) -> (
    Seq<Seq<char>>,
    Seq<DiffEntryView>,
) {
    let n = skill.name@;
    if lock.skills@.contains_key(n) {
        let e = lock.skills@[n];
        let s = source_notes(skill, e, state_at(disk.sources@, n));
        let o = output_notes(skill, e, state_at(disk.outputs@, n));
        (s.0 + o.0, s.1 + o.1)
    } else {
        (
            seq!["skill '"@ + n + "' not in lockfile — run `skillet build`"@],
            seq![diff("not_in_lockfile"@, None)],
        )
    }
}

/// The message of a fragment that cannot be hashed.
pub open spec fn fragment_missing_message(f: Seq<char>) -> Seq<char> {
    "fragment '"@ + f + "' is missing — run `skillet build`"@
}

/// The message of a fragment whose hash changed.
pub open spec fn fragment_changed_message(f: Seq<char>) -> Seq<char> {
    "fragment '"@ + f + "' has changed since last build — run `skillet build`"@
}

/// What comparing fragment `f` with its lockfile record finds, if anything.
pub open spec fn fragment_note(ws: &Workspace, disk: &DiskState, f: Seq<char>, fe: FragmentLockEntry) -> Option<
    (Seq<char>, DiffEntryView),
> {
    if !ws.fragment_paths@.contains_key(f) {
        Some((fragment_missing_message(f), diff("fragment_missing"@, None)))
    } else {
        let p = ws.fragment_paths@[f]@;
        match file_hash(state_at(disk.fragments@, f)) {
            None => Some((fragment_missing_message(f), diff("fragment_missing"@, Some(p)))),
            Some(h) => if h != fe.hash@ {
                Some((fragment_changed_message(f), diff("fragment_changed"@, Some(p))))
            } else {
                None
            },
        }
    }
}

/// The note `note` once for each time `used` names skill `n`.
pub open spec fn notes_for_uses(used: Seq<String>, n: Seq<char>, note: (Seq<char>, DiffEntryView)) -> Seq<
    (Seq<char>, DiffEntryView),
>
    decreases used.len(),
{
    if used.len() == 0 {
        Seq::empty()
    } else {
        notes_for_uses(used.drop_last(), n, note) + if used.last()@ == n {
            seq![note]
        } else {
            Seq::empty()
        }
    }
}

/// The fragment notes of skill `n`: for each fragment record, in order,
/// what it finds, once for each time the record lists `n` among its users.
pub open spec fn fragment_notes(
    ws: &Workspace,
    disk: &DiskState,
    ks: Seq<Seq<char>>,
    vs: Seq<FragmentLockEntry>,
    n: Seq<char>,
) -> Seq<(Seq<char>, DiffEntryView)>
    decreases ks.len(),
{
    if ks.len() == 0 || vs.len() < ks.len() {
        Seq::empty()
    } else {
        let j = ks.len() - 1;
        fragment_notes(ws, disk, ks.drop_last(), vs, n) + match fragment_note(ws, disk, ks[j], vs[j]) {
            Some(note) => notes_for_uses(vs[j].used_by@, n, note),
            None => Seq::empty(),
        }
    }
}

/// The verdict for skill `n` of the workspace.
pub open spec fn skill_result(ws: &Workspace, lock: &Lockfile, disk: &DiskState, n: Seq<char>) -> SkillResultView {
    let base = entry_notes(ws.skills@[n], lock, disk);
    let fr = fragment_notes(ws, disk, lock.fragments.key_seq(), lock.fragments.val_seq(), n);
    let reasons = base.0 + fr.map_values(|p: (Seq<char>, DiffEntryView)| p.0);
    SkillResultView {
        name: n,
        fresh: reasons.len() == 0,
        reasons,
        diffs: base.1 + fr.map_values(|p: (Seq<char>, DiffEntryView)| p.1),
    }
}

/// The verdict for a skill that the lockfile records but the workspace no
/// longer has.
pub open spec fn orphan_result(n: Seq<char>) -> SkillResultView {
    SkillResultView {
        name: n,
        fresh: false,
        reasons: seq![
            "skill '"@ + n + "' is in lockfile but source directory no longer exists — run `skillet build`"@
        ],
        diffs: seq![diff("source_dir_missing"@, None)],
    }
}

/// The verdict for the skill named `n`.
pub open spec fn expected_result(ws: &Workspace, lock: &Lockfile, disk: &DiskState, n: Seq<char>) -> SkillResultView {
    if ws.skills@.contains_key(n) {
        skill_result(ws, lock, disk, n)
    } else {
        orphan_result(n)
    }
}

// ── Computing the report ─────────────────────────────────────────────────────

/// The final component of `path`, as `std::path::Path::file_name` gives it.
fn file_name_of(path: &str) -> (r: Option<String>)
    ensures
        opt_view(r) == path_file_name(path@),
{
    let n = path.unicode_len();
    let mut end: usize = n;
    proof {
        assert(path@.subrange(0, n as int) =~= path@);
    }
    while end > 0 && (path.get_char(end - 1) == '/' || (end >= 2 && path.get_char(end - 1) == '.'
        && path.get_char(end - 2) == '/'))
        invariant
            n == path@.len(),
            end <= n,
            trim_path_tail(path@) == trim_path_tail(path@.subrange(0, end as int)),
        decreases end,
    {
        let ghost sub = path@.subrange(0, end as int);
        proof {
            assert(sub.drop_last() =~= path@.subrange(0, end - 1));
        }
        end -= 1;
    }
    let t = path.substring_char(0, end);
    let c = last_component_of(t);
    let k = c.unicode_len();
    if k == 0 || (k == 1 && c.get_char(0) == '.') || (k == 2 && c.get_char(0) == '.' && c.get_char(1) == '.') {
        proof {
            if k == 1 {
                assert(c@ =~= seq!['.']);
            }
            if k == 2 {
                assert(c@ =~= seq!['.', '.']);
            }
        }
        None
    } else {
        proof {
            if c@ == seq!['.'] {
                assert(c@[0] == '.');
            }
            if c@ == seq!['.', '.'] {
                assert(c@[0] == '.' && c@[1] == '.');
            }
        }
        Some(c)
    }
}

/// `name` appended to the directory `dir`, as `Path::join` does for a
/// relative `name`.
pub fn join_path(dir: &str, name: &str) -> (r: String)
    ensures
        r@ == joined(dir@, name@),
{
    if crate::refs::starts_with(name, "/") {
        proof {
            reveal_strlit("/");
            assert(name@.subrange(0, 1)[0] == name@[0]);
        }
        return String::from_str(name);
    }
    proof {
        reveal_strlit("/");
        if name@.len() > 0 && name@[0] == '/' {
            assert(name@.subrange(0, 1) =~= "/"@);
        }
    }
    if dir.is_empty() {
        return concat(dir, name);
    }
    match crate::text::strip_suffix(dir, "/") {
        Some(t) => {
            proof {
                reveal_strlit("/");
                assert(dir@ == t@ + "/"@);
                assert(dir@.last() == (t@ + "/"@)[t@.len() as int]);
                assert(joined(dir@, name@) == dir@ + name@);
            }
            concat(dir, name)
        },
        None => {
            proof {
                reveal_strlit("/");
                assert(dir@.subrange(dir@.len() - 1, dir@.len() as int) =~= seq![dir@.last()]);
                assert("/"@ =~= seq!['/']);
                if dir@.last() == '/' {
                    assert(dir@.subrange(dir@.len() - "/"@.len(), dir@.len() as int) == "/"@);
                }
                assert(joined(dir@, name@) == dir@ + "/"@ + name@);
            }
            concat3(dir, "/", name)
        },
    }
}

/// The path of the compiled `SKILL.md` of `skill`.
pub fn skill_md_path(skill: &Skill) -> (r: String)
    ensures
        r@ == skill_md_of(*skill),
{
    join_path(skill.target_dir.as_str(), "SKILL.md")
}

/// The `"sha256:<hex>"` hash of a file that could be read.
fn hash_state(st: &FileState) -> (r: Option<String>)
    ensures
        opt_view(r) == file_hash(st@),
{
    match st {
        FileState::Read(b) => Some(hash_bytes(b.as_slice())),
        _ => None,
    }
}

/// The state recorded under `k`, missing when none is.
fn state_in<'a>(m: &'a StrMap<FileState>, k: &str, none: &'a FileState) -> (r: &'a FileState)
    requires
        m.wf(),
        none@ == FileStateView::Missing,
    ensures
        r@ == state_at(m@, k@),
{
    match m.get(k) {
        Some(s) => s,
        None => none,
    }
}

/// The message of a file that could not be read for hashing.
fn read_failure_text(prefix: &str, path: &str) -> (r: String)
    ensures
        r@ == prefix@ + read_failure(path@),
{
    let mut s = String::from_str(prefix);
    s.append("failed to read ");
    s.append(path);
    s.append(" for hashing");
    s
}

fn make_diff(kind: &str, file: Option<String>) -> (r: DiffEntry)
    ensures
        r@ == diff(kind@, opt_view(file)),
{
    DiffEntry { kind: String::from_str(kind), file }
}

/// What comparing `skill` with the lockfile's skill records finds.
fn entry_notes_of(skill: &Skill, lock: &Lockfile, disk: &DiskState) -> (r: (Vec<String>, Vec<DiffEntry>))
    requires
        lock.wf(),
        disk.wf(),
    ensures
        crate::collections::string_views(r.0@) == entry_notes(*skill, lock, disk).0,
        diff_views(r.1@) == entry_notes(*skill, lock, disk).1,
{
    let mut reasons: Vec<String> = Vec::new();
    let mut diffs: Vec<DiffEntry> = Vec::new();
    let name = skill.name.as_str();
    let missing = FileState::Missing;
    match lock.skills.get(name) {
        None => {
            let mut msg = String::from_str("skill '");
            msg.append(name);
            msg.append("' not in lockfile — run `skillet build`");
            reasons.push(msg);
            diffs.push(make_diff("not_in_lockfile", None));
        },
        Some(entry) => {
            let src = state_in(&disk.sources, name, &missing);
            match hash_state(src) {
                None => {
                    reasons.push(read_failure_text("could not hash source: ", skill.source_path.as_str()));
                },
                Some(h) => {
                    if !str_eq(h.as_str(), entry.source_hash.as_str()) {
                        let fname = match file_name_of(skill.source_path.as_str()) {
                            Some(f) => f,
                            None => String::new(),
                        };
                        reasons.push(concat3("source '", fname.as_str(), "' has changed since last build"));
                        diffs.push(make_diff("source_changed", Some(skill.source_path.clone())));
                    }
                },
            }
            let md = skill_md_path(skill);
            let out = state_in(&disk.outputs, name, &missing);
            match out {
                FileState::Missing => {
                    reasons.push(String::from_str("SKILL.md is missing — run `skillet build`"));
                    diffs.push(make_diff("skill_md_missing", Some(md)));
                },
                FileState::Unreadable => {
                    reasons.push(read_failure_text("could not hash SKILL.md: ", md.as_str()));
                },
                FileState::Read(b) => {
                    let h = hash_bytes(b.as_slice());
                    if !str_eq(h.as_str(), entry.compiled_hash.as_str()) {
                        reasons.push(String::from_str("SKILL.md does not match last build — run `skillet build`"));
                        diffs.push(make_diff("skill_md_changed", Some(md)));
                    }
                },
            }
        },
    }
    proof {
        assert(crate::collections::string_views(reasons@) =~= entry_notes(*skill, lock, disk).0);
        assert(diff_views(diffs@) =~= entry_notes(*skill, lock, disk).1);
    }
    (reasons, diffs)
}

/// A fragment note, as values.
pub open spec fn note_view(o: Option<(String, DiffEntry)>) -> Option<(Seq<char>, DiffEntryView)> {
    match o {
        Some((m, d)) => Some((m@, d@)),
        None => None,
    }
}

/// The reasons of a sequence of notes.
pub open spec fn note_reasons(ns: Seq<(Seq<char>, DiffEntryView)>) -> Seq<Seq<char>> {
    ns.map_values(|p: (Seq<char>, DiffEntryView)| p.0)
}

/// The differences of a sequence of notes.
pub open spec fn note_diffs(ns: Seq<(Seq<char>, DiffEntryView)>) -> Seq<DiffEntryView> {
    ns.map_values(|p: (Seq<char>, DiffEntryView)| p.1)
}

/// The reasons and differences of notes appended one after the other.
proof fn lemma_notes_concat(a: Seq<(Seq<char>, DiffEntryView)>, b: Seq<(Seq<char>, DiffEntryView)>)
    ensures
        note_reasons(a + b) == note_reasons(a) + note_reasons(b),
        note_diffs(a + b) == note_diffs(a) + note_diffs(b),
{
    assert(note_reasons(a + b) =~= note_reasons(a) + note_reasons(b));
    assert(note_diffs(a + b) =~= note_diffs(a) + note_diffs(b));
}

fn clone_diff(d: &DiffEntry) -> (r: DiffEntry)
    ensures
        r@ == d@,
{
    let file = match &d.file {
        Some(f) => Some(f.clone()),
        None => None,
    };
    DiffEntry { kind: d.kind.clone(), file }
}

/// What comparing fragment `f` with its lockfile record finds, if anything.
fn fragment_note_of(ws: &Workspace, disk: &DiskState, f: &str, fe: &FragmentLockEntry) -> (r: Option<
    (String, DiffEntry),
>)
    requires
        ws.wf(),
        disk.wf(),
    ensures
        note_view(r) == fragment_note(ws, disk, f@, *fe),
{
    let missing = FileState::Missing;
    match ws.fragment_paths.get(f) {
        None => Some((concat3("fragment '", f, "' is missing — run `skillet build`"), make_diff("fragment_missing", None))),
        Some(p) => {
            let st = state_in(&disk.fragments, f, &missing);
            match hash_state(st) {
                None => Some(
                    (
                        concat3("fragment '", f, "' is missing — run `skillet build`"),
                        make_diff("fragment_missing", Some(p.clone())),
                    ),
                ),
                Some(h) => {
                    if !str_eq(h.as_str(), fe.hash.as_str()) {
                        Some(
                            (
                                concat3("fragment '", f, "' has changed since last build — run `skillet build`"),
                                make_diff("fragment_changed", Some(p.clone())),
                            ),
                        )
                    } else {
                        None
                    }
                },
            }
        },
    }
}

/// What comparing each fragment record of the lockfile finds, in key order.
fn all_fragment_notes(ws: &Workspace, lock: &Lockfile, disk: &DiskState) -> (r: Vec<Option<(String, DiffEntry)>>)
    requires
        ws.wf(),
        lock.wf(),
        disk.wf(),
    ensures
        r@.len() == lock.fragments.key_seq().len(),
        forall|j: int|
            0 <= j < r@.len() ==> note_view(#[trigger] r@[j]) == fragment_note(
                ws,
                disk,
                lock.fragments.key_seq()[j],
                lock.fragments.val_seq()[j],
            ),
{
    let mut out: Vec<Option<(String, DiffEntry)>> = Vec::new();
    let n = lock.fragments.len();
    let mut j: usize = 0;
    while j < n
        invariant
            ws.wf(),
            lock.wf(),
            disk.wf(),
            n == lock.fragments.key_seq().len(),
            j <= n,
            out@.len() == j,
            forall|k: int|
                0 <= k < j ==> note_view(#[trigger] out@[k]) == fragment_note(
                    ws,
                    disk,
                    lock.fragments.key_seq()[k],
                    lock.fragments.val_seq()[k],
                ),
        decreases n - j,
    {
        let f = lock.fragments.key_at(j);
        let fe = lock.fragments.value_at(j);
        let note = fragment_note_of(ws, disk, f.as_str(), fe);
        out.push(note);
        j += 1;
    }
    out
}

/// The notes of one fragment for skill `n`: `note` once for each time
/// `used` names `n`, appended to `reasons` and `diffs`.
fn push_uses(
    used: &Vec<String>,
    n: &str,
    note: &(String, DiffEntry),
    reasons: &mut Vec<String>,
    diffs: &mut Vec<DiffEntry>,
)
    ensures
        crate::collections::string_views(final(reasons)@) == crate::collections::string_views(old(reasons)@)
            + note_reasons(notes_for_uses(used@, n@, (note.0@, note.1@))),
        diff_views(final(diffs)@) == diff_views(old(diffs)@) + note_diffs(
            notes_for_uses(used@, n@, (note.0@, note.1@)),
        ),
{
    let ghost nv = (note.0@, note.1@);
    let ghost r0 = crate::collections::string_views(reasons@);
    let ghost d0 = diff_views(diffs@);
    let mut u: usize = 0;
    proof {
        assert(used@.subrange(0, 0) =~= Seq::<String>::empty());
        assert(r0 =~= r0 + note_reasons(Seq::empty()));
        assert(d0 =~= d0 + note_diffs(Seq::empty()));
    }
    while u < used.len()
        invariant
            u <= used@.len(),
            nv == (note.0@, note.1@),
            crate::collections::string_views(reasons@) == r0 + note_reasons(
                notes_for_uses(used@.subrange(0, u as int), n@, nv),
            ),
            diff_views(diffs@) == d0 + note_diffs(notes_for_uses(used@.subrange(0, u as int), n@, nv)),
        decreases used@.len() - u,
    {
        let ghost before = notes_for_uses(used@.subrange(0, u as int), n@, nv);
        let ghost rb = reasons@;
        let ghost db = diffs@;
        proof {
            assert(used@.subrange(0, u + 1).drop_last() =~= used@.subrange(0, u as int));
            assert(used@.subrange(0, u + 1).last() == used@[u as int]);
        }
        if str_eq(used[u].as_str(), n) {
            reasons.push(note.0.clone());
            diffs.push(clone_diff(&note.1));
            proof {
                lemma_notes_concat(before, seq![nv]);
                assert(crate::collections::string_views(reasons@) =~= crate::collections::string_views(rb).push(
                    note.0@,
                ));
                assert(diff_views(diffs@) =~= diff_views(db).push(note.1@));
                assert(note_reasons(seq![nv]) =~= seq![note.0@]);
                assert(note_diffs(seq![nv]) =~= seq![note.1@]);
            }
        } else {
            proof {
                lemma_notes_concat(before, Seq::empty());
                assert(before + Seq::<(Seq<char>, DiffEntryView)>::empty() =~= before);
            }
        }
        u += 1;
    }
    proof {
        assert(used@.subrange(0, used@.len() as int) =~= used@);
    }
}

/// The verdict for skill `n` of the workspace.
fn skill_result_of(
    ws: &Workspace,
    lock: &Lockfile,
    disk: &DiskState,
    notes: &Vec<Option<(String, DiffEntry)>>,
    skill: &Skill,
    n: &str,
) -> (r: SkillResult)
    requires
        ws.wf(),
        lock.wf(),
        disk.wf(),
        ws.skills@.contains_key(n@),
        ws.skills@[n@] == *skill,
        skill.name@ == n@,
        notes@.len() == lock.fragments.key_seq().len(),
        forall|j: int|
            0 <= j < notes@.len() ==> note_view(#[trigger] notes@[j]) == fragment_note(
                ws,
                disk,
                lock.fragments.key_seq()[j],
                lock.fragments.val_seq()[j],
            ),
    ensures
        r@ == skill_result(ws, lock, disk, n@),
{
    let (mut reasons, mut diffs) = entry_notes_of(skill, lock, disk);
    let ghost base = entry_notes(*skill, lock, disk);
    let ghost ks = lock.fragments.key_seq();
    let ghost vs = lock.fragments.val_seq();
    proof {
        lock.fragments.lemma_entries();
        assert(ks.subrange(0, 0).len() == 0);
        assert(base.0 =~= base.0 + note_reasons(Seq::empty()));
        assert(base.1 =~= base.1 + note_diffs(Seq::empty()));
    }
    let mut j: usize = 0;
    while j < notes.len()
        invariant
            lock.wf(),
            ks == lock.fragments.key_seq(),
            vs == lock.fragments.val_seq(),
            vs.len() == ks.len(),
            notes@.len() == ks.len(),
            j <= notes@.len(),
            forall|k: int|
                0 <= k < notes@.len() ==> note_view(#[trigger] notes@[k]) == fragment_note(ws, disk, ks[k], vs[k]),
            crate::collections::string_views(reasons@) == base.0 + note_reasons(
                fragment_notes(ws, disk, ks.subrange(0, j as int), vs, n@),
            ),
            diff_views(diffs@) == base.1 + note_diffs(fragment_notes(ws, disk, ks.subrange(0, j as int), vs, n@)),
        decreases notes@.len() - j,
    {
        let ghost prev = fragment_notes(ws, disk, ks.subrange(0, j as int), vs, n@);
        proof {
            assert(ks.subrange(0, j + 1).drop_last() =~= ks.subrange(0, j as int));
            assert(ks.subrange(0, j + 1)[j as int] == ks[j as int]);
            assert(note_view(notes@[j as int]) == fragment_note(ws, disk, ks[j as int], vs[j as int]));
        }
        match &notes[j] {
            Some(note) => {
                let fe = lock.fragments.value_at(j);
                let ghost added = notes_for_uses(fe.used_by@, n@, (note.0@, note.1@));
                push_uses(&fe.used_by, n, note, &mut reasons, &mut diffs);
                proof {
                    lemma_notes_concat(prev, added);
                    assert(fragment_notes(ws, disk, ks.subrange(0, j + 1), vs, n@) == prev + added);
                }
            },
            None => {
                proof {
                    lemma_notes_concat(prev, Seq::empty());
                    assert(prev + Seq::<(Seq<char>, DiffEntryView)>::empty() =~= prev);
                    assert(fragment_notes(ws, disk, ks.subrange(0, j + 1), vs, n@) == prev);
                }
            },
        }
        proof {
            assert(crate::collections::string_views(reasons@) =~= base.0 + note_reasons(
                fragment_notes(ws, disk, ks.subrange(0, j + 1), vs, n@),
            ));
            assert(diff_views(diffs@) =~= base.1 + note_diffs(
                fragment_notes(ws, disk, ks.subrange(0, j + 1), vs, n@),
            ));
        }
        j += 1;
    }
    proof {
        assert(ks.subrange(0, notes@.len() as int) =~= ks);
    }
    let fresh = reasons.len() == 0;
    SkillResult { name: String::from_str(n), fresh, reasons, diffs }
}

/// The verdict for a skill that the lockfile records but the workspace no
/// longer has.
fn orphan_result_of(n: &str) -> (r: SkillResult)
    ensures
        r@ == orphan_result(n@),
{
    let mut msg = String::from_str("skill '");
    msg.append(n);
    msg.append("' is in lockfile but source directory no longer exists — run `skillet build`");
    let mut reasons: Vec<String> = Vec::new();
    reasons.push(msg);
    let mut diffs: Vec<DiffEntry> = Vec::new();
    diffs.push(make_diff("source_dir_missing", None));
    let r = SkillResult { name: String::from_str(n), fresh: false, reasons, diffs };
    proof {
        assert(r@.reasons =~= orphan_result(n@).reasons);
        assert(r@.diffs =~= orphan_result(n@).diffs);
    }
    r
}

/// Adds the keys of `m` to `set`.
fn insert_keys<V>(set: &mut StrSet, m: &StrMap<V>)
    requires
        old(set).wf(),
        m.wf(),
    ensures
        final(set).wf(),
        final(set)@ == old(set)@.union(m@.dom()),
{
    let ghost s0 = set@;
    let ghost ks = m.key_seq();
    proof {
        m.lemma_entries();
        assert(ks.subrange(0, 0).to_set() =~= Set::<Seq<char>>::empty());
        assert(s0 =~= s0.union(Set::<Seq<char>>::empty()));
    }
    let n = m.len();
    let mut i: usize = 0;
    while i < n
        invariant
            set.wf(),
            m.wf(),
            ks == m.key_seq(),
            n == ks.len(),
            i <= n,
            set@ == s0.union(ks.subrange(0, i as int).to_set()),
        decreases n - i,
    {
        let k = m.key_at(i);
        set.insert(k.clone());
        proof {
            assert(ks.subrange(0, i + 1) =~= ks.subrange(0, i as int).push(ks[i as int]));
            crate::collections::lemma_push_contains(ks.subrange(0, i as int), ks[i as int]);
            assert(set@ =~= s0.union(ks.subrange(0, i + 1).to_set()));
        }
        i += 1;
    }
    proof {
        assert(ks.subrange(0, n as int) =~= ks);
        assert(ks.to_set() =~= m@.dom());
    }
}

/// Compares the workspace with the lockfile, using what was read from disk.
///
/// A skill of the workspace is stale when it is not in the lockfile, when
/// the hash of its source or of its `SKILL.md` differs from the recorded one
/// or cannot be computed, or when a fragment it uses is missing or changed.
/// A skill that only the lockfile records is stale too. The results are
/// sorted by name, and the report is fresh when all of them are.
pub fn verify(ws: &Workspace, lockfile: &Lockfile, disk: &DiskState) -> (r: CheckReport)
    requires
        ws.wf(),
        lockfile.wf(),
        disk.wf(),
    ensures
        sorted_keys(result_names(r.skills@)),
        result_names(r.skills@).to_set() == ws.skills@.dom().union(lockfile.skills@.dom()),
        forall|i: int|
            0 <= i < r.skills@.len() ==> #[trigger] r.skills@[i]@ == expected_result(
                ws,
                lockfile,
                disk,
                r.skills@[i].name@,
            ),
        r.fresh == (forall|i: int| 0 <= i < r.skills@.len() ==> #[trigger] r.skills@[i].fresh),
{
    let notes = all_fragment_notes(ws, lockfile, disk);
    let mut names = StrSet::new();
    insert_keys(&mut names, &ws.skills);
    insert_keys(&mut names, &lockfile.skills);
    let list = names.to_vec();
    proof {
        names.lemma_items();
    }
    let ghost ls = crate::collections::string_views(list@);
    let mut results: Vec<SkillResult> = Vec::new();
    let mut all_fresh = true;
    let mut i: usize = 0;
    while i < list.len()
        invariant
            ws.wf(),
            lockfile.wf(),
            disk.wf(),
            ls == crate::collections::string_views(list@),
            i <= list@.len(),
            results@.len() == i,
            notes@.len() == lockfile.fragments.key_seq().len(),
            forall|j: int|
                0 <= j < notes@.len() ==> note_view(#[trigger] notes@[j]) == fragment_note(
                    ws,
                    disk,
                    lockfile.fragments.key_seq()[j],
                    lockfile.fragments.val_seq()[j],
                ),
            forall|k: int| 0 <= k < i ==> #[trigger] results@[k].name@ == ls[k],
            forall|k: int|
                0 <= k < i ==> #[trigger] results@[k]@ == expected_result(ws, lockfile, disk, results@[k].name@),
            all_fresh == (forall|k: int| 0 <= k < i ==> #[trigger] results@[k].fresh),
        decreases list@.len() - i,
    {
        let n = list[i].as_str();
        let res = match ws.skills.get(n) {
            Some(skill) => skill_result_of(ws, lockfile, disk, &notes, skill, n),
            None => orphan_result_of(n),
        };
        let ghost before = results@;
        let ghost was_fresh = all_fresh;
        let ghost this_fresh = res.fresh;
        all_fresh = all_fresh && res.fresh;
        results.push(res);
        proof {
            assert(results@[i as int].fresh == this_fresh);
            assert(forall|k: int| 0 <= k < i ==> results@[k] == before[k]);
            if all_fresh {
                assert forall|k: int| 0 <= k < i + 1 implies #[trigger] results@[k].fresh by {
                    if k < i {
                        assert(before[k].fresh);
                    }
                }
            } else if !was_fresh {
                let k = choose|k: int| 0 <= k < i && !(#[trigger] before[k].fresh);
                assert(!results@[k].fresh);
            } else {
                assert(!results@[i as int].fresh);
            }
        }
        i += 1;
    }
    proof {
        assert(result_names(results@) =~= ls);
    }
    CheckReport { fresh: all_fresh, skills: results }
}

// ── Laws ──────────────────────────────────────────────────────────────────────

/// The lockfile records what is on disk: every skill of the workspace has an
/// entry with the hashes of its source and of its `SKILL.md` as read, every
/// skill that the lockfile records is in the workspace, and every fragment
/// record has a file whose hash is the recorded one.
pub open spec fn records_disk(ws: &Workspace, lock: &Lockfile, disk: &DiskState) -> bool {
    &&& forall|n: Seq<char>|
        #[trigger] ws.skills@.contains_key(n) ==> lock.skills@.contains_key(n) && file_hash(state_at(disk.sources@, n))
            == Some(lock.skills@[n].source_hash@) && file_hash(state_at(disk.outputs@, n)) == Some(
            lock.skills@[n].compiled_hash@,
        )
    &&& forall|n: Seq<char>| #[trigger] lock.skills@.contains_key(n) ==> ws.skills@.contains_key(n)
    &&& forall|f: Seq<char>|
        #[trigger] lock.fragments@.contains_key(f) ==> ws.fragment_paths@.contains_key(f) && file_hash(
            state_at(disk.fragments@, f),
        ) == Some(lock.fragments@[f].hash@)
}

/// Fragment records that find nothing give a skill no notes.
proof fn lemma_no_fragment_notes(
    ws: &Workspace,
    disk: &DiskState,
    ks: Seq<Seq<char>>,
    vs: Seq<FragmentLockEntry>,
    n: Seq<char>,
)
    requires
        forall|j: int| 0 <= j < ks.len() && j < vs.len() ==> fragment_note(ws, disk, #[trigger] ks[j], vs[j]) is None,
    ensures
        fragment_notes(ws, disk, ks, vs, n).len() == 0,
    decreases ks.len(),
{
    if ks.len() > 0 && vs.len() >= ks.len() {
        let d = ks.drop_last();
        assert forall|j: int| 0 <= j < d.len() && j < vs.len() implies fragment_note(ws, disk, #[trigger] d[j], vs[j]) is None by {
            assert(d[j] == ks[j]);
        }
        lemma_no_fragment_notes(ws, disk, d, vs, n);
        let j = ks.len() - 1;
        assert(fragment_note(ws, disk, ks[j], vs[j]) is None);
    }
}

/// Law: when the lockfile records exactly what is on disk (as after a
/// build), every skill is fresh, so the whole report is.
pub proof fn lemma_recorded_is_fresh(ws: &Workspace, lock: &Lockfile, disk: &DiskState, n: Seq<char>)
    requires
        lock.wf(),
        ws.wf(),
        records_disk(ws, lock, disk),
        ws.skills@.dom().union(lock.skills@.dom()).contains(n),
    ensures
        expected_result(ws, lock, disk, n).fresh,
        expected_result(ws, lock, disk, n).reasons.len() == 0,
{
    assert(ws.skills@.contains_key(n));
    let skill = ws.skills@[n];
    assert(skill.name@ == n);
    let e = lock.skills@[n];
    let src = state_at(disk.sources@, n);
    let out = state_at(disk.outputs@, n);
    assert(source_notes(skill, e, src).0.len() == 0);
    assert(output_notes(skill, e, out).0.len() == 0);
    lock.fragments.lemma_entries();
    let ks = lock.fragments.key_seq();
    let vs = lock.fragments.val_seq();
    assert forall|j: int| 0 <= j < ks.len() && j < vs.len() implies fragment_note(ws, disk, #[trigger] ks[j], vs[j]) is None by {
        assert(lock.fragments@.contains_key(ks[j]));
        assert(lock.fragments@[ks[j]] == vs[j]);
    }
    lemma_no_fragment_notes(ws, disk, ks, vs, n);
}

/// Law: a skill whose source no longer hashes to the recorded value is
/// stale, and says so.
pub proof fn lemma_changed_source_is_stale(ws: &Workspace, lock: &Lockfile, disk: &DiskState, n: Seq<char>)
    requires
        ws.wf(),
        ws.skills@.contains_key(n),
        lock.skills@.contains_key(n),
        file_hash(state_at(disk.sources@, n)) matches Some(h) && h != lock.skills@[n].source_hash@,
    ensures
        !expected_result(ws, lock, disk, n).fresh,
        expected_result(ws, lock, disk, n).reasons[0] == "source '"@ + file_name_or_empty(ws.skills@[n].source_path@)
            + "' has changed since last build"@,
{
    let skill = ws.skills@[n];
    assert(skill.name@ == n);
    let base = entry_notes(skill, lock, disk);
    assert(base.0.len() >= 1);
}

/// The fragment record `fe` lists skill `n` among its users.
pub open spec fn used_by_skill(fe: FragmentLockEntry, n: Seq<char>) -> bool {
    exists|k: int| 0 <= k < fe.used_by@.len() && (#[trigger] fe.used_by@[k])@ == n
}

/// A note repeated for the uses of `n` is absent exactly when `used` does
/// not name `n`.
proof fn lemma_notes_for_uses_empty(used: Seq<String>, n: Seq<char>, note: (Seq<char>, DiffEntryView))
    ensures
        notes_for_uses(used, n, note).len() == 0 <==> !exists|k: int| 0 <= k < used.len() && (#[trigger] used[k])@ == n,
    decreases used.len(),
{
    if used.len() > 0 {
        let init = used.drop_last();
        lemma_notes_for_uses_empty(init, n, note);
        if exists|k: int| 0 <= k < init.len() && (#[trigger] init[k])@ == n {
            let k = choose|k: int| 0 <= k < init.len() && (#[trigger] init[k])@ == n;
            assert(used[k] == init[k]);
        }
        if used.last()@ == n {
            assert(used[used.len() - 1]@ == n);
        }
        if exists|k: int| 0 <= k < used.len() && (#[trigger] used[k])@ == n {
            let k = choose|k: int| 0 <= k < used.len() && (#[trigger] used[k])@ == n;
            if k < init.len() {
                assert(init[k] == used[k]);
            }
        }
    }
}

/// The fragment records give skill `n` no notes exactly when every record
/// that finds something does not list `n` among its users.
proof fn lemma_fragment_notes_empty(
    ws: &Workspace,
    disk: &DiskState,
    ks: Seq<Seq<char>>,
    vs: Seq<FragmentLockEntry>,
    n: Seq<char>,
)
    requires
        vs.len() >= ks.len(),
    ensures
        fragment_notes(ws, disk, ks, vs, n).len() == 0 <==> forall|j: int|
            0 <= j < ks.len() ==> (fragment_note(ws, disk, #[trigger] ks[j], vs[j]) is Some ==> !used_by_skill(
                vs[j],
                n,
            )),
    decreases ks.len(),
{
    if ks.len() > 0 {
        let d = ks.drop_last();
        let j = ks.len() - 1;
        lemma_fragment_notes_empty(ws, disk, d, vs, n);
        if let Some(note) = fragment_note(ws, disk, ks[j], vs[j]) {
            lemma_notes_for_uses_empty(vs[j].used_by@, n, note);
        }
        assert forall|i: int| 0 <= i < d.len() implies d[i] == ks[i] by {}
        if forall|i: int|
            0 <= i < ks.len() ==> (fragment_note(ws, disk, #[trigger] ks[i], vs[i]) is Some ==> !used_by_skill(vs[i], n)) {
            assert forall|i: int|
                0 <= i < d.len() implies (fragment_note(ws, disk, #[trigger] d[i], vs[i]) is Some ==> !used_by_skill(vs[i], n)) by {
                assert(d[i] == ks[i]);
            }
            assert(fragment_note(ws, disk, ks[j], vs[j]) is Some ==> !used_by_skill(vs[j], n));
        }
        if fragment_notes(ws, disk, ks, vs, n).len() == 0 {
            assert forall|i: int|
                0 <= i < ks.len() implies (fragment_note(ws, disk, #[trigger] ks[i], vs[i]) is Some ==> !used_by_skill(vs[i], n)) by {
                if i < d.len() {
                    assert(d[i] == ks[i]);
                    assert(fragment_note(ws, disk, d[i], vs[i]) is Some ==> !used_by_skill(vs[i], n));
                }
            }
        }
    }
}

/// Law: a skill that the workspace has and the lockfile records is fresh
/// exactly when its source and its `SKILL.md` hash to the recorded values,
/// and every fragment record that lists the skill among its users has a
/// fragment file that hashes to the recorded value.
pub proof fn lemma_skill_fresh_iff(ws: &Workspace, lock: &Lockfile, disk: &DiskState, n: Seq<char>)
    requires
        lock.wf(),
        ws.wf(),
        ws.skills@.contains_key(n),
        lock.skills@.contains_key(n),
    ensures
        expected_result(ws, lock, disk, n).fresh <==> {
            &&& file_hash(state_at(disk.sources@, n)) == Some(lock.skills@[n].source_hash@)
            &&& file_hash(state_at(disk.outputs@, n)) == Some(lock.skills@[n].compiled_hash@)
            &&& forall|f: Seq<char>|
                #[trigger] lock.fragments@.contains_key(f) && used_by_skill(lock.fragments@[f], n)
                    ==> ws.fragment_paths@.contains_key(f) && file_hash(state_at(disk.fragments@, f)) == Some(
                    lock.fragments@[f].hash@,
                )
        },
{
    let skill = ws.skills@[n];
    assert(skill.name@ == n);
    let e = lock.skills@[n];
    let src = state_at(disk.sources@, n);
    let out = state_at(disk.outputs@, n);
    lock.fragments.lemma_entries();
    let ks = lock.fragments.key_seq();
    let vs = lock.fragments.val_seq();
    lemma_fragment_notes_empty(ws, disk, ks, vs, n);
    let fr = fragment_notes(ws, disk, ks, vs, n);
    let base = entry_notes(skill, lock, disk);
    let r = skill_result(ws, lock, disk, n);
    assert(r.reasons.len() == base.0.len() + fr.len());
    assert(base.0.len() == source_notes(skill, e, src).0.len() + output_notes(skill, e, out).0.len());
    assert(source_notes(skill, e, src).0.len() == 0 <==> file_hash(src) == Some(e.source_hash@));
    assert(output_notes(skill, e, out).0.len() == 0 <==> file_hash(out) == Some(e.compiled_hash@));
    let frags_ok = forall|f: Seq<char>|
        #[trigger] lock.fragments@.contains_key(f) && used_by_skill(lock.fragments@[f], n)
            ==> ws.fragment_paths@.contains_key(f) && file_hash(state_at(disk.fragments@, f)) == Some(
            lock.fragments@[f].hash@,
        );
    if fr.len() == 0 {
        assert forall|f: Seq<char>|
            #[trigger] lock.fragments@.contains_key(f) && used_by_skill(lock.fragments@[f], n) implies ws.fragment_paths@.contains_key(f)
                && file_hash(state_at(disk.fragments@, f)) == Some(lock.fragments@[f].hash@) by {
            assert(ks.contains(f));
            let j = choose|j: int| 0 <= j < ks.len() && ks[j] == f;
            assert(lock.fragments@[ks[j]] == vs[j]);
            assert(fragment_note(ws, disk, ks[j], vs[j]) is None);
        }
    }
    if frags_ok {
        assert forall|j: int|
            0 <= j < ks.len() implies (fragment_note(ws, disk, #[trigger] ks[j], vs[j]) is Some ==> !used_by_skill(vs[j], n)) by {
            assert(lock.fragments@.contains_key(ks[j]));
            assert(lock.fragments@[ks[j]] == vs[j]);
        }
    }
}

// ── Rendering ─────────────────────────────────────────────────────────────────

/// `" is"` for one, `"s are"` otherwise.
pub open spec fn plural_is(n: nat) -> Seq<char> {
    if n == 1 {
        " is"@
    } else {
        "s are"@
    }
}

/// The lines of the stale verdicts among `rs`: one per reason.
pub open spec fn stale_lines(rs: Seq<SkillResult>) -> Seq<Seq<char>>
    decreases rs.len(),
{
    if rs.len() == 0 {
        Seq::empty()
    } else {
        let r = rs.last();
        stale_lines(rs.drop_last()) + if r.fresh {
            Seq::empty()
        } else {
            crate::collections::string_views(r.reasons@).map_values(
                |m: Seq<char>| "✗ "@ + r.name@ + ": "@ + m,
            )
        }
    }
}

/// How many of `rs` are stale.
pub open spec fn stale_count(rs: Seq<SkillResult>) -> nat
    decreases rs.len(),
{
    if rs.len() == 0 {
        0
    } else {
        stale_count(rs.drop_last()) + if rs.last().fresh {
            0nat
        } else {
            1nat
        }
    }
}

/// The text `skillet check` prints for a report: a line for all fresh, or a
/// line per stale reason, a blank line and the count of stale skills.
pub open spec fn report_text(rs: Seq<SkillResult>) -> Seq<Seq<char>> {
    if stale_count(rs) == 0 {
        seq!["✓ all "@ + crate::text::decimal(rs.len()) + " skill"@ + plural_is(rs.len()) + " up-to-date"@]
    } else {
        stale_lines(rs) + seq![Seq::<char>::empty(), crate::text::decimal(stale_count(rs)) + " skill"@ + plural_is(stale_count(rs)) + " stale"@]
    }
}

/// `" is"` for one, `"s are"` otherwise.
fn plural_is_of(n: usize) -> (r: &'static str)
    ensures
        r@ == plural_is(n as nat),
{
    proof {
        reveal_strlit(" is");
        reveal_strlit("s are");
    }
    if n == 1 {
        " is"
    } else {
        "s are"
    }
}

/// The lines `skillet check` prints for `report`.
pub fn report_lines(report: &CheckReport) -> (r: Vec<String>)
    ensures
        crate::collections::string_views(r@) == report_text(report.skills@),
{
    let rs = &report.skills;
    let mut lines: Vec<String> = Vec::new();
    let mut stale: usize = 0;
    let mut i: usize = 0;
    while i < rs.len()
        invariant
            i <= rs@.len(),
            stale <= i,
            stale == stale_count(rs@.subrange(0, i as int)),
            crate::collections::string_views(lines@) == stale_lines(rs@.subrange(0, i as int)),
        decreases rs@.len() - i,
    {
        let r = &rs[i];
        let ghost before = crate::collections::string_views(lines@);
        proof {
            assert(rs@.subrange(0, i + 1).drop_last() =~= rs@.subrange(0, i as int));
            assert(rs@.subrange(0, i + 1).last() == *r);
        }
        if !r.fresh {
            let mut j: usize = 0;
            while j < r.reasons.len()
                invariant
                    j <= r.reasons@.len(),
                    !r.fresh,
                    crate::collections::string_views(lines@) == before + crate::collections::string_views(
                        r.reasons@,
                    ).subrange(0, j as int).map_values(|m: Seq<char>| "✗ "@ + r.name@ + ": "@ + m),
                decreases r.reasons@.len() - j,
            {
                let head = concat3("✗ ", r.name.as_str(), ": ");
                let line = concat(head.as_str(), r.reasons[j].as_str());
                let ghost prev = crate::collections::string_views(lines@);
                let ghost lv = line@;
                lines.push(line);
                proof {
                    let sv = crate::collections::string_views(r.reasons@);
                    assert(sv.subrange(0, j + 1) =~= sv.subrange(0, j as int).push(sv[j as int]));
                    assert(crate::collections::string_views(lines@) =~= prev.push(lv));
                    assert(crate::collections::string_views(lines@) =~= before + sv.subrange(0, j + 1).map_values(
                        |m: Seq<char>| "✗ "@ + r.name@ + ": "@ + m,
                    ));
                }
                j = j + 1;
            }
            proof {
                let sv = crate::collections::string_views(r.reasons@);
                assert(sv.subrange(0, sv.len() as int) =~= sv);
            }
            stale = stale + 1;
        } else {
            proof {
                assert(before + Seq::<Seq<char>>::empty() =~= before);
            }
        }
        i = i + 1;
    }
    proof {
        assert(rs@.subrange(0, rs@.len() as int) =~= rs@);
    }
    if stale == 0 {
        let n = to_decimal(rs.len() as u64);
        let head = concat3("✓ all ", n.as_str(), " skill");
        let line = concat3(head.as_str(), plural_is_of(rs.len()), " up-to-date");
        let mut out: Vec<String> = Vec::new();
        out.push(line);
        proof {
            reveal_strlit("✓ all ");
            reveal_strlit(" skill");
            reveal_strlit(" up-to-date");
            assert(crate::collections::string_views(out@) =~= report_text(rs@));
        }
        out
    } else {
        let ghost before = crate::collections::string_views(lines@);
        lines.push(String::new());
        let n = to_decimal(stale as u64);
        let head = concat3(n.as_str(), " skill", plural_is_of(stale));
        let line = concat(head.as_str(), " stale");
        let ghost lv = line@;
        lines.push(line);
        proof {
            reveal_strlit(" skill");
            reveal_strlit(" stale");
            assert(crate::collections::string_views(lines@) =~= report_text(rs@));
        }
        lines
    }
}

/// Law: a verdict is fresh exactly when it gives no reason.
pub proof fn lemma_fresh_iff_no_reasons(ws: &Workspace, lock: &Lockfile, disk: &DiskState, n: Seq<char>)
    ensures
        expected_result(ws, lock, disk, n).fresh <==> expected_result(ws, lock, disk, n).reasons.len() == 0,
{
}

/// Law: a skill that the lockfile records but the workspace no longer has is
/// stale, with the single difference `source_dir_missing`.
pub proof fn lemma_orphan_is_stale(ws: &Workspace, lock: &Lockfile, disk: &DiskState, n: Seq<char>)
    requires
        !ws.skills@.contains_key(n),
    ensures
        !expected_result(ws, lock, disk, n).fresh,
        expected_result(ws, lock, disk, n).diffs == seq![diff("source_dir_missing"@, None)],
{
}

/// Law: a skill of the workspace that the lockfile does not record is stale,
/// and its first difference is `not_in_lockfile`.
pub proof fn lemma_unrecorded_is_stale(ws: &Workspace, lock: &Lockfile, disk: &DiskState, n: Seq<char>)
    requires
        ws.wf(),
        ws.skills@.contains_key(n),
        !lock.skills@.contains_key(n),
    ensures
        !expected_result(ws, lock, disk, n).fresh,
        expected_result(ws, lock, disk, n).diffs.len() > 0,
        expected_result(ws, lock, disk, n).diffs[0] == diff("not_in_lockfile"@, None),
{
    assert(ws.skills@[n].name@ == n);
}

} // verus!
