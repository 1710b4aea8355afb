//! Token-budget computation for the `skillet budget` command.
//!
//! Per skill: discovery, activation and transitive token counts and the
//! tokens of each fragment it expands. The recorded values of `skillet.lock`
//! are preferred; where the lockfile has no activation count the row is
//! computed from the files on disk, which the caller reads and hands over as
//! texts keyed by path.
use vstd::prelude::*;
use vstd::string::StringSliceAdditionalSpecFns;
use vstd::utf8::encode_utf8;

use crate::collections::{string_views, StrMap};
use crate::compiler::compile::{discovery_text, discovery_text_of};
use crate::freshness::{join_path, joined, skill_md_of, skill_md_path};
use crate::lockfile::{Lockfile, SkillEntry};
use crate::refs::{extract_path_refs, spec_path_refs};
use crate::text::{concat, concat3, decimal, to_decimal};
use crate::tokens::{count_of, gives_one_count, token_count};
use crate::workspace::skill::{Reference, Skill};
use crate::workspace::Workspace;

verus! {

// ── Data types ──────────────────────────────────────────────────────────────

/// Per-fragment token entry.
#[derive(Debug, Clone)]
pub struct FragmentEntry {
    /// Fragment name.
    pub name: String,
    /// Tokens contributed by this fragment.
    pub tokens: u32,
}

/// Token budget row for a single skill.
#[derive(Debug, Clone)]
pub struct BudgetRow {
    /// Skill name.
    pub skill: String,
    /// Discovery (frontmatter name + description) tokens.
    pub discovery: u32,
    /// Activation (compiled SKILL.md minus fragments) tokens.
    pub activation: u32,
    /// Transitive (compiled + referenced files) tokens.
    pub transitive: u32,
    /// Per-fragment token breakdown.
    pub fragments: Vec<FragmentEntry>,
}

/// A budget row, as values.
pub struct BudgetRowView {
    /// Skill name.
    pub skill: Seq<char>,
    /// Discovery tokens.
    pub discovery: u32,
    /// Activation tokens.
    pub activation: u32,
    /// Transitive tokens.
    pub transitive: u32,
    /// Each fragment with its tokens.
    pub fragments: Seq<(Seq<char>, u32)>,
}

impl View for BudgetRow {
    type V = BudgetRowView;

    open spec fn view(&self) -> BudgetRowView {
        BudgetRowView {
            skill: self.skill@,
            discovery: self.discovery,
            activation: self.activation,
            transitive: self.transitive,
            fragments: self.fragments@.map_values(|f: FragmentEntry| (f.name@, f.tokens)),
        }
    }
}

/// Workspace-level token totals.
#[derive(Debug, Clone)]
pub struct BudgetTotals {
    /// Sum of discovery tokens across all skills.
    pub discovery: u32,
    /// Sum of activation tokens across all skills.
    pub activation: u32,
    /// Sum of transitive tokens across all skills.
    pub transitive: u32,
}

/// Top-level budget report (used for JSON output).
#[derive(Debug, Clone)]
pub struct BudgetReport {
    /// Per-skill rows.
    pub skills: Vec<BudgetRow>,
    /// Workspace-level totals.
    pub totals: BudgetTotals,
}

// ── Arithmetic ───────────────────────────────────────────────────────────────

/// The sum of `ts`.
pub open spec fn token_sum(ts: Seq<u32>) -> nat
    decreases ts.len(),
{
    if ts.len() == 0 {
        0
    } else {
        token_sum(ts.drop_last()) + ts.last() as nat
    }
}

/// `n`, or `u32::MAX` when it is larger.
pub open spec fn capped(n: int) -> u32 {
    if n > u32::MAX {
        u32::MAX
    } else {
        n as u32
    }
}

/// `a - b`, or 0 when `b` is larger.
pub open spec fn less(a: u32, b: nat) -> u32 {
    if a >= b {
        (a - b) as u32
    } else {
        0
    }
}

/// A prefix sums to no more than the whole.
pub proof fn lemma_token_sum_prefix(ts: Seq<u32>, i: int)
    requires
        0 <= i <= ts.len(),
    ensures
        token_sum(ts.subrange(0, i)) <= token_sum(ts),
    decreases ts.len() - i,
{
    if i < ts.len() {
        lemma_token_sum_prefix(ts, i + 1);
        assert(ts.subrange(0, i + 1).drop_last() =~= ts.subrange(0, i));
    } else {
        assert(ts.subrange(0, i) =~= ts);
    }
}

// ── What each row holds ──────────────────────────────────────────────────────

/// The tokens that the lockfile records for fragment `f`, or 0.
pub open spec fn lock_tokens(lock: &Lockfile, f: Seq<char>) -> u32 {
    if lock.fragments@.contains_key(f) {
        lock.fragments@[f].tokens
    } else {
        0
    }
}

/// The tokens that the workspace counted for fragment `f`, or 0.
pub open spec fn ws_tokens(ws: &Workspace, f: Seq<char>) -> u32 {
    if ws.fragment_tokens@.contains_key(f) {
        ws.fragment_tokens@[f]
    } else {
        0
    }
}

/// The lockfile's tokens of each of `names`.
pub open spec fn lock_counts(lock: &Lockfile, names: Seq<String>) -> Seq<u32> {
    names.map_values(|n: String| lock_tokens(lock, n@))
}

/// The workspace's tokens of each of `names`.
pub open spec fn ws_counts(ws: &Workspace, names: Seq<String>) -> Seq<u32> {
    names.map_values(|n: String| ws_tokens(ws, n@))
}

/// Each name of `names` with the count of `counts` at the same place.
pub open spec fn entries(names: Seq<String>, counts: Seq<u32>) -> Seq<(Seq<char>, u32)> {
    Seq::new(names.len(), |i: int| (names[i]@, counts[i]))
}

/// The row of a skill whose lockfile entry `e` records an activation count.
pub open spec fn lock_row(lock: &Lockfile, skill: Skill, e: SkillEntry) -> BudgetRowView {
    let counts = lock_counts(lock, e.fragments_used@);
    BudgetRowView {
        skill: skill.name@,
        discovery: e.discovery_tokens,
        activation: less(e.activation_tokens, token_sum(counts)),
        transitive: e.transitive_tokens,
        fragments: entries(e.fragments_used@, counts),
    }
}

/// The token counts of those of `paths` that `files` holds, in order.
pub open spec fn read_counts<F: Fn(&str, &str) -> u32>(
    count_tokens: F,
    model: Seq<char>,
    files: Map<Seq<char>, String>,
    paths: Seq<Seq<char>>,
) -> Seq<u32>
    decreases paths.len(),
{
    if paths.len() == 0 {
        Seq::empty()
    } else {
        read_counts(count_tokens, model, files, paths.drop_last()) + if files.contains_key(paths.last()) {
            seq![token_count(count_tokens, files[paths.last()]@, model)]
        } else {
            Seq::empty()
        }
    }
}

/// The fragments that the lockfile records for skill `n`, if any.
pub open spec fn recorded_fragments(lock: &Lockfile, n: Seq<char>) -> Seq<String> {
    if lock.skills@.contains_key(n) {
        lock.skills@[n].fragments_used@
    } else {
        Seq::empty()
    }
}

/// The paths of the files that the `ref::` directives of `source` name,
/// relative to the skill's source directory `dir`.
pub open spec fn ref_paths(dir: Seq<char>, source: Seq<char>) -> Seq<Seq<char>> {
    spec_path_refs(source).map_values(|rel: Seq<char>| joined(dir, rel))
}

/// The paths of the reference files of a skill.
pub open spec fn reference_paths(rs: Seq<Reference>) -> Seq<Seq<char>> {
    rs.map_values(|r: Reference| r.absolute_path@)
}

/// The row of `skill` computed from the files on disk, or the error.
pub open spec fn disk_row<F: Fn(&str, &str) -> u32>(
    ws: &Workspace,
    lock: &Lockfile,
    files: Map<Seq<char>, String>,
    skill: Skill,
    count_tokens: F,
    model: Seq<char>,
) -> Result<BudgetRowView, Seq<char>> {
    let md = skill_md_of(skill);
    let n = skill.name@;
    if !files.contains_key(md) {
        Err("SKILL.md not found for '"@ + n + "' — run `skillet build` first"@)
    } else if !files.contains_key(skill.source_path@) {
        Err("failed to read source '"@ + skill.source_path@ + "'"@)
    } else {
        let compiled = files[md]@;
        let ct = token_count(count_tokens, compiled, model);
        let rc = read_counts(count_tokens, model, files, ref_paths(skill.src_dir@, files[skill.source_path@]@));
        let dc = read_counts(count_tokens, model, files, reference_paths(skill.references@));
        let names = recorded_fragments(lock, n);
        let counts = ws_counts(ws, names);
        Ok(
            BudgetRowView {
                skill: n,
                discovery: token_count(count_tokens, discovery_text(compiled), model),
                activation: less(ct, token_sum(counts)),
                transitive: capped(ct + token_sum(rc) + token_sum(dc)),
                fragments: entries(names, counts),
            },
        )
    }
}

/// The row of `skill`: from the lockfile when it records an activation
/// count, from disk otherwise.
pub open spec fn row_for<F: Fn(&str, &str) -> u32>(
    ws: &Workspace,
    lock: &Lockfile,
    files: Map<Seq<char>, String>,
    skill: Skill,
    count_tokens: F,
    model: Seq<char>,
) -> Result<BudgetRowView, Seq<char>> {
    let n = skill.name@;
    if lock.skills@.contains_key(n) && lock.skills@[n].activation_tokens > 0 {
        Ok(lock_row(lock, skill, lock.skills@[n]))
    } else {
        disk_row(ws, lock, files, skill, count_tokens, model)
    }
}

/// Whether `skill` is one of the skills asked for: all when no name is given.
pub open spec fn selected(skill: Skill, name: Option<Seq<char>>) -> bool {
    match name {
        Some(n) => skill.name@ == n,
        None => true,
    }
}

/// The skills of `vs` that are asked for, in order.
pub open spec fn targets(vs: Seq<Skill>, name: Option<Seq<char>>) -> Seq<Skill>
    decreases vs.len(),
{
    if vs.len() == 0 {
        Seq::empty()
    } else {
        targets(vs.drop_last(), name) + if selected(vs.last(), name) {
            seq![vs.last()]
        } else {
            Seq::empty()
        }
    }
}

/// The rows of the skills `ts`, or the error of the first that has one.
pub open spec fn rows_for<F: Fn(&str, &str) -> u32>(
    ws: &Workspace,
    lock: &Lockfile,
    files: Map<Seq<char>, String>,
    ts: Seq<Skill>,
    count_tokens: F,
    model: Seq<char>,
) -> Result<Seq<BudgetRowView>, Seq<char>>
    decreases ts.len(),
{
    if ts.len() == 0 {
        Ok(Seq::empty())
    } else {
        match rows_for(ws, lock, files, ts.drop_last(), count_tokens, model) {
            Err(e) => Err(e),
            Ok(rs) => match row_for(ws, lock, files, ts.last(), count_tokens, model) {
                Err(e) => Err(e),
                Ok(r) => Ok(rs.push(r)),
            },
        }
    }
}

/// The fragment sums of every skill fit in a `u32`: those of the lockfile's
/// counts and those of the workspace's.
pub open spec fn sums_fit(ws: &Workspace, lock: &Lockfile) -> bool {
    forall|n: Seq<char>|
        #[trigger] lock.skills@.contains_key(n) ==> token_sum(lock_counts(lock, lock.skills@[n].fragments_used@))
            <= u32::MAX && token_sum(ws_counts(ws, lock.skills@[n].fragments_used@)) <= u32::MAX
}

/// The views of a sequence of rows.
pub open spec fn row_views(rs: Seq<BudgetRow>) -> Seq<BudgetRowView> {
    rs.map_values(|r: BudgetRow| r@)
}

// ── Computing the rows ───────────────────────────────────────────────────────

/// The fragment entries of `names` with the counts `tokens` gives, and their
/// sum.
fn fragment_entries(names: &Vec<String>, lock: &Lockfile, ws: &Workspace, from_lock: bool) -> (r: (
    Vec<FragmentEntry>,
    u32,
))
    requires
        lock.wf(),
        ws.wf(),
        from_lock ==> token_sum(lock_counts(lock, names@)) <= u32::MAX,
        !from_lock ==> token_sum(ws_counts(ws, names@)) <= u32::MAX,
    ensures
        from_lock ==> r.0@.map_values(|f: FragmentEntry| (f.name@, f.tokens)) == entries(
            names@,
            lock_counts(lock, names@),
        ) && r.1 == token_sum(lock_counts(lock, names@)),
        !from_lock ==> r.0@.map_values(|f: FragmentEntry| (f.name@, f.tokens)) == entries(
            names@,
            ws_counts(ws, names@),
        ) && r.1 == token_sum(ws_counts(ws, names@)),
{
    let ghost counts = if from_lock {
        lock_counts(lock, names@)
    } else {
        ws_counts(ws, names@)
    };
    let mut out: Vec<FragmentEntry> = Vec::new();
    let mut total: u32 = 0;
    let mut i: usize = 0;
    proof {
        assert(counts.subrange(0, 0) =~= Seq::<u32>::empty());
    }
    while i < names.len()
        invariant
            lock.wf(),
            ws.wf(),
            counts.len() == names@.len(),
            counts == (if from_lock {
                lock_counts(lock, names@)
            } else {
                ws_counts(ws, names@)
            }),
            token_sum(counts) <= u32::MAX,
            i <= names@.len(),
            out@.len() == i,
            forall|k: int| 0 <= k < i ==> (#[trigger] out@[k]).name@ == names@[k]@ && out@[k].tokens == counts[k],
            total == token_sum(counts.subrange(0, i as int)),
        decreases names@.len() - i,
    {
        let name = names[i].as_str();
        let tokens = if from_lock {
            match lock.fragments.get(name) {
                Some(f) => f.tokens,
                None => 0,
            }
        } else {
            match ws.fragment_tokens.get(name) {
                Some(t) => *t,
                None => 0,
            }
        };
        proof {
            assert(tokens == counts[i as int]);
            assert(counts.subrange(0, i + 1).drop_last() =~= counts.subrange(0, i as int));
            lemma_token_sum_prefix(counts, i + 1);
        }
        total = total + tokens;
        out.push(FragmentEntry { name: names[i].clone(), tokens });
        i += 1;
    }
    proof {
        assert(counts.subrange(0, names@.len() as int) =~= counts);
        assert(out@.map_values(|f: FragmentEntry| (f.name@, f.tokens)) =~= entries(names@, counts));
    }
    (out, total)
}

/// The row of a skill whose lockfile entry `entry` records an activation
/// count.
fn lock_row_of(lock: &Lockfile, ws: &Workspace, skill: &Skill, entry: &SkillEntry) -> (r: BudgetRow)
    requires
        lock.wf(),
        ws.wf(),
        token_sum(lock_counts(lock, entry.fragments_used@)) <= u32::MAX,
    ensures
        r@ == lock_row(lock, *skill, *entry),
{
    let (fragments, total) = fragment_entries(&entry.fragments_used, lock, ws, true);
    BudgetRow {
        skill: skill.name.clone(),
        discovery: entry.discovery_tokens,
        activation: entry.activation_tokens.saturating_sub(total),
        transitive: entry.transitive_tokens,
        fragments,
    }
}

/// The counts of those of `paths` that `files` holds, added to `start`
/// without going past `u32::MAX`.
fn add_read_counts<F: Fn(&str, &str) -> u32>(
    start: u32,
    paths: &Vec<String>,
    files: &StrMap<String>,
    count_tokens: &F,
    model: &str,
) -> (r: u32)
    requires
        files.wf(),
        forall|t: &str, m: &str| count_tokens.requires((t, m)),
        gives_one_count(*count_tokens),
    ensures
        r == capped(start + token_sum(read_counts(*count_tokens, model@, files@, string_views(paths@)))),
{
    let ghost ps = string_views(paths@);
    let mut total = start;
    let mut i: usize = 0;
    proof {
        assert(ps.subrange(0, 0) =~= Seq::<Seq<char>>::empty());
    }
    while i < paths.len()
        invariant
            files.wf(),
            forall|t: &str, m: &str| count_tokens.requires((t, m)),
            gives_one_count(*count_tokens),
            ps == string_views(paths@),
            i <= paths@.len(),
            total == capped(start + token_sum(read_counts(*count_tokens, model@, files@, ps.subrange(0, i as int)))),
        decreases paths@.len() - i,
    {
        let ghost before = read_counts(*count_tokens, model@, files@, ps.subrange(0, i as int));
        proof {
            assert(ps.subrange(0, i + 1).drop_last() =~= ps.subrange(0, i as int));
            assert(ps.subrange(0, i + 1).last() == paths@[i as int]@);
        }
        match files.get(paths[i].as_str()) {
            Some(text) => {
                let c = count_of(count_tokens, text.as_str(), model);
                total = total.saturating_add(c);
                proof {
                    let now = read_counts(*count_tokens, model@, files@, ps.subrange(0, i + 1));
                    assert(now == before + seq![c]);
                    assert((before + seq![c]).drop_last() =~= before);
                    assert(token_sum(now) == token_sum(before) + c);
                }
            },
            None => {
                proof {
                    assert(before + Seq::<u32>::empty() =~= before);
                }
            },
        }
        i += 1;
    }
    proof {
        assert(ps.subrange(0, paths@.len() as int) =~= ps);
    }
    total
}

/// The paths of the files that the `ref::` directives of `source` name,
/// relative to the directory `dir`.
fn ref_paths_of(dir: &str, source: &str) -> (r: Vec<String>)
    ensures
        string_views(r@) == ref_paths(dir@, source@),
{
    let rels = extract_path_refs(source);
    let mut out: Vec<String> = Vec::new();
    let mut i: usize = 0;
    while i < rels.len()
        invariant
            i <= rels@.len(),
            string_views(rels@) == spec_path_refs(source@),
            string_views(out@) == ref_paths(dir@, source@).subrange(0, i as int),
        decreases rels@.len() - i,
    {
        let ghost before = out@;
        let p = join_path(dir, rels[i].as_str());
        out.push(p);
        proof {
            assert(string_views(out@) =~= string_views(before).push(p@));
            assert(ref_paths(dir@, source@).subrange(0, i + 1) =~= ref_paths(dir@, source@).subrange(
                0,
                i as int,
            ).push(joined(dir@, rels@[i as int]@)));
        }
        i += 1;
    }
    proof {
        assert(ref_paths(dir@, source@).subrange(0, rels@.len() as int) =~= ref_paths(dir@, source@));
    }
    out
}

/// The paths of the reference files of a skill.
fn reference_paths_of(rs: &Vec<Reference>) -> (r: Vec<String>)
    ensures
        string_views(r@) == reference_paths(rs@),
{
    let mut out: Vec<String> = Vec::new();
    let mut i: usize = 0;
    while i < rs.len()
        invariant
            i <= rs@.len(),
            string_views(out@) == reference_paths(rs@).subrange(0, i as int),
        decreases rs@.len() - i,
    {
        let ghost before = out@;
        let p = rs[i].absolute_path.clone();
        out.push(p);
        proof {
            assert(string_views(out@) =~= string_views(before).push(p@));
            assert(reference_paths(rs@).subrange(0, i + 1) =~= reference_paths(rs@).subrange(0, i as int).push(
                rs@[i as int].absolute_path@,
            ));
        }
        i += 1;
    }
    proof {
        assert(reference_paths(rs@).subrange(0, rs@.len() as int) =~= reference_paths(rs@));
    }
    out
}

/// The row of `skill` computed from the files on disk.
fn compute_row_from_disk<F: Fn(&str, &str) -> u32>(
    ws: &Workspace,
    lock: &Lockfile,
    files: &StrMap<String>,
    skill: &Skill,
    count_tokens: &F,
    model: &str,
) -> (r: Result<BudgetRow, String>)
    requires
        ws.wf(),
        lock.wf(),
        files.wf(),
        sums_fit(ws, lock),
        forall|t: &str, m: &str| count_tokens.requires((t, m)),
        gives_one_count(*count_tokens),
    ensures
        r matches Ok(row) ==> disk_row(ws, lock, files@, *skill, *count_tokens, model@) matches Ok(v) && row@ == v,
        r matches Err(e) ==> disk_row(ws, lock, files@, *skill, *count_tokens, model@) matches Err(m) && e@ == m,
{
    let md = skill_md_path(skill);
    let compiled = match files.get(md.as_str()) {
        Some(t) => t,
        None => {
            return Err(concat3("SKILL.md not found for '", skill.name.as_str(), "' — run `skillet build` first"));
        },
    };
    let discovery_text = discovery_text_of(compiled.as_str());
    let discovery = count_of(count_tokens, discovery_text.as_str(), model);
    let compiled_tokens = count_of(count_tokens, compiled.as_str(), model);
    let source = match files.get(skill.source_path.as_str()) {
        Some(t) => t,
        None => {
            return Err(concat3("failed to read source '", skill.source_path.as_str(), "'"));
        },
    };
    let refs = ref_paths_of(skill.src_dir.as_str(), source.as_str());
    let with_refs = add_read_counts(compiled_tokens, &refs, files, count_tokens, model);
    let references = reference_paths_of(&skill.references);
    let transitive = add_read_counts(with_refs, &references, files, count_tokens, model);
    let ghost rc = read_counts(*count_tokens, model@, files@, ref_paths(skill.src_dir@, source@));
    let ghost dc = read_counts(*count_tokens, model@, files@, reference_paths(skill.references@));
    proof {
        if compiled_tokens + token_sum(rc) > u32::MAX {
            assert(with_refs == u32::MAX);
        }
        assert(transitive == capped(compiled_tokens + token_sum(rc) + token_sum(dc)));
    }
    let empty: Vec<String> = Vec::new();
    let names = match lock.skills.get(skill.name.as_str()) {
        Some(e) => &e.fragments_used,
        None => &empty,
    };
    proof {
        assert(names@ == recorded_fragments(lock, skill.name@));
        if lock.skills@.contains_key(skill.name@) {
            assert(token_sum(ws_counts(ws, lock.skills@[skill.name@].fragments_used@)) <= u32::MAX);
        } else {
            assert(ws_counts(ws, names@) =~= Seq::<u32>::empty());
        }
    }
    let (fragments, total) = fragment_entries(names, lock, ws, false);
    Ok(
        BudgetRow {
            skill: skill.name.clone(),
            discovery,
            activation: compiled_tokens.saturating_sub(total),
            transitive,
            fragments,
        },
    )
}

/// The row of `skill`: from the lockfile when it records an activation
/// count, from disk otherwise.
fn compute_row<F: Fn(&str, &str) -> u32>(
    ws: &Workspace,
    lock: &Lockfile,
    files: &StrMap<String>,
    skill: &Skill,
    count_tokens: &F,
    model: &str,
) -> (r: Result<BudgetRow, String>)
    requires
        ws.wf(),
        lock.wf(),
        files.wf(),
        sums_fit(ws, lock),
        forall|t: &str, m: &str| count_tokens.requires((t, m)),
        gives_one_count(*count_tokens),
    ensures
        r matches Ok(row) ==> row_for(ws, lock, files@, *skill, *count_tokens, model@) matches Ok(v) && row@ == v,
        r matches Err(e) ==> row_for(ws, lock, files@, *skill, *count_tokens, model@) matches Err(m) && e@ == m,
{
    match lock.skills.get(skill.name.as_str()) {
        Some(entry) => {
            if entry.activation_tokens > 0 {
                proof {
                    assert(lock.skills@.contains_key(skill.name@));
                }
                return Ok(lock_row_of(lock, ws, skill, entry));
            }
        },
        None => {},
    }
    compute_row_from_disk(ws, lock, files, skill, count_tokens, model)
}

/// Computes budget rows for the given skill, or for all skills when no name
/// is given, in the order of the workspace's skills.
///
/// A skill whose lockfile entry records an activation count takes its
/// counts from the lockfile; another is counted from `files`, the texts of
/// the files the caller could read, by path, with `count_tokens` (text,
/// model `tokenizer`). The first skill that cannot be counted gives the
/// error.
pub fn compute_rows<F: Fn(&str, &str) -> u32>(
    ws: &Workspace,
    lockfile: &Lockfile,
    skill_name: Option<&str>,
    tokenizer: &str,
    files: &StrMap<String>,
    count_tokens: &F,
) -> (r: Result<Vec<BudgetRow>, String>)
    requires
        ws.wf(),
        lockfile.wf(),
        files.wf(),
        sums_fit(ws, lockfile),
        forall|t: &str, m: &str| count_tokens.requires((t, m)),
        gives_one_count(*count_tokens),
    ensures
        r matches Ok(rows) ==> rows_for(
            ws,
            lockfile,
            files@,
            targets(ws.skills.val_seq(), crate::parse::opt_str_view(skill_name)),
            *count_tokens,
            tokenizer@,
        ) matches Ok(v) && row_views(rows@) == v,
        r matches Err(e) ==> rows_for(
            ws,
            lockfile,
            files@,
            targets(ws.skills.val_seq(), crate::parse::opt_str_view(skill_name)),
            *count_tokens,
            tokenizer@,
        ) matches Err(m) && e@ == m,
{
    let ghost name = crate::parse::opt_str_view(skill_name);
    let ghost vs = ws.skills.val_seq();
    proof {
        ws.skills.lemma_entries();
    }
    let n = ws.skills.len();
    let mut rows: Vec<BudgetRow> = Vec::new();
    let mut i: usize = 0;
    while i < n
        invariant
            ws.wf(),
            lockfile.wf(),
            files.wf(),
            sums_fit(ws, lockfile),
            forall|t: &str, m: &str| count_tokens.requires((t, m)),
            gives_one_count(*count_tokens),
            vs == ws.skills.val_seq(),
            n == vs.len(),
            n == ws.skills.key_seq().len(),
            name == crate::parse::opt_str_view(skill_name),
            i <= n,
            rows_for(ws, lockfile, files@, targets(vs.subrange(0, i as int), name), *count_tokens, tokenizer@)
                matches Ok(v) && row_views(rows@) == v,
        decreases n - i,
    {
        let skill = ws.skills.value_at(i);
        let ghost before = targets(vs.subrange(0, i as int), name);
        proof {
            assert(vs.subrange(0, i + 1).drop_last() =~= vs.subrange(0, i as int));
            assert(vs.subrange(0, i + 1).last() == *skill);
        }
        let wanted = match skill_name {
            Some(want) => crate::text::str_eq(skill.name.as_str(), want),
            None => true,
        };
        if wanted {
            let ghost prev = rows@;
            match compute_row(ws, lockfile, files, skill, count_tokens, tokenizer) {
                Ok(row) => {
                    rows.push(row);
                    proof {
                        assert(targets(vs.subrange(0, i + 1), name) == before.push(*skill));
                        assert(before.push(*skill).drop_last() =~= before);
                        assert(row_views(rows@) =~= row_views(prev).push(row@));
                    }
                },
                Err(e) => {
                    proof {
                        assert(targets(vs.subrange(0, i + 1), name) == before.push(*skill));
                        assert(before.push(*skill).drop_last() =~= before);
                        assert(before.push(*skill).last() == *skill);
                        assert(rows_for(ws, lockfile, files@, before.push(*skill), *count_tokens, tokenizer@) == Err::<
                            Seq<BudgetRowView>,
                            Seq<char>,
                        >(e@));
                        lemma_rows_err_stays(ws, lockfile, files@, vs, name, *count_tokens, tokenizer@, i as int + 1, e@);
                    }
                    return Err(e);
                },
            }
        } else {
            proof {
                assert(targets(vs.subrange(0, i + 1), name) =~= before);
            }
        }
        i += 1;
    }
    proof {
        assert(vs.subrange(0, n as int) =~= vs);
    }
    Ok(rows)
}

/// Once the rows of a prefix of the skills fail, the rows of every longer
/// prefix fail the same way.
proof fn lemma_rows_err_stays<F: Fn(&str, &str) -> u32>(
    ws: &Workspace,
    lock: &Lockfile,
    files: Map<Seq<char>, String>,
    vs: Seq<Skill>,
    name: Option<Seq<char>>,
    count_tokens: F,
    model: Seq<char>,
    i: int,
    e: Seq<char>,
)
    requires
        0 <= i <= vs.len(),
        rows_for(ws, lock, files, targets(vs.subrange(0, i), name), count_tokens, model) == Err::<
            Seq<BudgetRowView>,
            Seq<char>,
        >(e),
    ensures
        rows_for(ws, lock, files, targets(vs, name), count_tokens, model) == Err::<Seq<BudgetRowView>, Seq<char>>(e),
    decreases vs.len() - i,
{
    if i < vs.len() {
        let t = targets(vs.subrange(0, i), name);
        assert(vs.subrange(0, i + 1).drop_last() =~= vs.subrange(0, i));
        assert(vs.subrange(0, i + 1).last() == vs[i]);
        if selected(vs[i], name) {
            assert(t.push(vs[i]).drop_last() =~= t);
            assert(targets(vs.subrange(0, i + 1), name) == t.push(vs[i]));
        } else {
            assert(targets(vs.subrange(0, i + 1), name) =~= t);
        }
        lemma_rows_err_stays(ws, lock, files, vs, name, count_tokens, model, i + 1, e);
    } else {
        assert(vs.subrange(0, i) =~= vs);
    }
}

/// The workspace totals of `rows`: the sums of their discovery, activation
/// and transitive tokens.
pub fn totals(rows: &Vec<BudgetRow>) -> (r: BudgetTotals)
    requires
        token_sum(rows@.map_values(|b: BudgetRow| b.discovery)) <= u32::MAX,
        token_sum(rows@.map_values(|b: BudgetRow| b.activation)) <= u32::MAX,
        token_sum(rows@.map_values(|b: BudgetRow| b.transitive)) <= u32::MAX,
    ensures
        r.discovery == token_sum(rows@.map_values(|b: BudgetRow| b.discovery)),
        r.activation == token_sum(rows@.map_values(|b: BudgetRow| b.activation)),
        r.transitive == token_sum(rows@.map_values(|b: BudgetRow| b.transitive)),
{
    let ghost ds = rows@.map_values(|b: BudgetRow| b.discovery);
    let ghost acts = rows@.map_values(|b: BudgetRow| b.activation);
    let ghost ts = rows@.map_values(|b: BudgetRow| b.transitive);
    let mut d: u32 = 0;
    let mut a: u32 = 0;
    let mut t: u32 = 0;
    let mut i: usize = 0;
    proof {
        assert(ds.subrange(0, 0) =~= Seq::<u32>::empty());
        assert(acts.subrange(0, 0) =~= Seq::<u32>::empty());
        assert(ts.subrange(0, 0) =~= Seq::<u32>::empty());
    }
    while i < rows.len()
        invariant
            i <= rows@.len(),
            ds == rows@.map_values(|b: BudgetRow| b.discovery),
            acts == rows@.map_values(|b: BudgetRow| b.activation),
            ts == rows@.map_values(|b: BudgetRow| b.transitive),
            token_sum(ds) <= u32::MAX,
            token_sum(acts) <= u32::MAX,
            token_sum(ts) <= u32::MAX,
            d == token_sum(ds.subrange(0, i as int)),
            a == token_sum(acts.subrange(0, i as int)),
            t == token_sum(ts.subrange(0, i as int)),
        decreases rows@.len() - i,
    {
        proof {
            assert(ds.subrange(0, i + 1).drop_last() =~= ds.subrange(0, i as int));
            assert(acts.subrange(0, i + 1).drop_last() =~= acts.subrange(0, i as int));
            assert(ts.subrange(0, i + 1).drop_last() =~= ts.subrange(0, i as int));
            lemma_token_sum_prefix(ds, i + 1);
            lemma_token_sum_prefix(acts, i + 1);
            lemma_token_sum_prefix(ts, i + 1);
        }
        d = d + rows[i].discovery;
        a = a + rows[i].activation;
        t = t + rows[i].transitive;
        i += 1;
    }
    proof {
        assert(ds.subrange(0, rows@.len() as int) =~= ds);
        assert(acts.subrange(0, rows@.len() as int) =~= acts);
        assert(ts.subrange(0, rows@.len() as int) =~= ts);
    }
    BudgetTotals { discovery: d, activation: a, transitive: t }
}

/// The report of `rows`: the rows with their totals.
pub fn report(rows: Vec<BudgetRow>) -> (r: BudgetReport)
    requires
        token_sum(rows@.map_values(|b: BudgetRow| b.discovery)) <= u32::MAX,
        token_sum(rows@.map_values(|b: BudgetRow| b.activation)) <= u32::MAX,
        token_sum(rows@.map_values(|b: BudgetRow| b.transitive)) <= u32::MAX,
    ensures
        r.skills == rows,
        r.totals.discovery == token_sum(rows@.map_values(|b: BudgetRow| b.discovery)),
        r.totals.activation == token_sum(rows@.map_values(|b: BudgetRow| b.activation)),
        r.totals.transitive == token_sum(rows@.map_values(|b: BudgetRow| b.transitive)),
{
    let totals = totals(&rows);
    BudgetReport { skills: rows, totals }
}

// ── Text table ────────────────────────────────────────────────────────────────

/// The length of `s` in UTF-8 bytes.
pub open spec fn byte_len(s: Seq<char>) -> nat {
    encode_utf8(s).len()
}

/// `n` spaces.
pub open spec fn spaces(n: nat) -> Seq<char> {
    Seq::new(n, |_i: int| ' ')
}

/// `s` padded with spaces after it to `w` characters.
pub open spec fn pad_end(s: Seq<char>, w: nat) -> Seq<char> {
    if s.len() >= w {
        s
    } else {
        s + spaces((w - s.len()) as nat)
    }
}

/// `s` padded with spaces before it to `w` characters.
pub open spec fn pad_start(s: Seq<char>, w: nat) -> Seq<char> {
    if s.len() >= w {
        s
    } else {
        spaces((w - s.len()) as nat) + s
    }
}

/// A fragment with its tokens: `name(tokens)`.
pub open spec fn fragment_item(f: (Seq<char>, u32)) -> Seq<char> {
    f.0 + "("@ + decimal(f.1 as nat) + ")"@
}

/// The fragments of a row, separated by `", "`.
pub open spec fn fragment_text(fs: Seq<(Seq<char>, u32)>) -> Seq<char>
    decreases fs.len(),
{
    if fs.len() == 0 {
        Seq::empty()
    } else if fs.len() == 1 {
        fragment_item(fs[0])
    } else {
        fragment_text(fs.drop_last()) + ", "@ + fragment_item(fs.last())
    }
}

/// The largest of `ns` and `floor`.
pub open spec fn widest(ns: Seq<nat>, floor: nat) -> nat
    decreases ns.len(),
{
    if ns.len() == 0 {
        floor
    } else {
        let w = widest(ns.drop_last(), floor);
        if ns.last() > w {
            ns.last()
        } else {
            w
        }
    }
}

/// The width of the skill column: the longest name in bytes, at least 5.
pub open spec fn skill_width(rows: Seq<BudgetRowView>) -> nat {
    widest(rows.map_values(|r: BudgetRowView| byte_len(r.skill)), 5)
}

/// The width of the fragments column: the longest fragment list in bytes,
/// at least 9.
pub open spec fn fragments_width(rows: Seq<BudgetRowView>) -> nat {
    widest(rows.map_values(|r: BudgetRowView| byte_len(fragment_text(r.fragments))), 9)
}

/// The rule under the header and above the totals.
pub open spec fn rule_line(rows: Seq<BudgetRowView>) -> Seq<char> {
    Seq::new(skill_width(rows) + 2 + 9 + 2 + 10 + 2 + 10 + 2 + fragments_width(rows), |_i: int| '─')
}

/// The header of the table.
pub open spec fn header_line(rows: Seq<BudgetRowView>) -> Seq<char> {
    pad_end("Skill"@, skill_width(rows)) + "  "@ + pad_start("Discovery"@, 9) + "  "@ + pad_start(
        "Activation"@,
        10,
    ) + "  "@ + pad_start("Transitive"@, 10) + "  "@ + pad_end("Fragments"@, fragments_width(rows))
}

/// The line of one row.
pub open spec fn row_line(r: BudgetRowView, sw: nat) -> Seq<char> {
    pad_end(r.skill, sw) + "  "@ + pad_start(decimal(r.discovery as nat), 9) + "  "@ + pad_start(
        decimal(r.activation as nat),
        10,
    ) + "  "@ + pad_start(decimal(r.transitive as nat), 10) + "  "@ + fragment_text(r.fragments)
}

/// The line of the totals.
pub open spec fn total_line(rows: Seq<BudgetRowView>) -> Seq<char> {
    pad_end("TOTAL"@, skill_width(rows)) + "  "@ + pad_start(
        decimal(token_sum(rows.map_values(|r: BudgetRowView| r.discovery))),
        9,
    ) + "  "@ + pad_start(decimal(token_sum(rows.map_values(|r: BudgetRowView| r.activation))), 10)
}

/// The text table `skillet budget` prints for `rows`.
pub open spec fn table_text(rows: Seq<BudgetRowView>) -> Seq<Seq<char>> {
    if rows.len() == 0 {
        seq!["No skills found."@]
    } else {
        seq![header_line(rows), rule_line(rows)] + rows.map_values(
            |r: BudgetRowView| row_line(r, skill_width(rows)),
        ) + seq![rule_line(rows), total_line(rows)]
    }
}

/// `s` padded with spaces after it to `w` characters.
fn padded_end(s: &str, w: usize) -> (r: String)
    ensures
        r@ == pad_end(s@, w as nat),
{
    let n = s.unicode_len();
    let mut out = String::from_str(s);
    if n >= w {
        return out;
    }
    let mut k: usize = n;
    proof {
        assert(s@ + spaces(0) =~= s@);
    }
    while k < w
        invariant
            n == s@.len(),
            n <= k <= w,
            out@ == s@ + spaces((k - n) as nat),
        decreases w - k,
    {
        out.append(" ");
        proof {
            reveal_strlit(" ");
            assert(s@ + spaces((k + 1 - n) as nat) =~= s@ + spaces((k - n) as nat) + " "@);
        }
        k = k + 1;
    }
    out
}

/// `s` padded with spaces before it to `w` characters.
fn padded_start(s: &str, w: usize) -> (r: String)
    ensures
        r@ == pad_start(s@, w as nat),
{
    let n = s.unicode_len();
    if n >= w {
        return String::from_str(s);
    }
    let mut out = String::new();
    let mut k: usize = 0;
    proof {
        assert(spaces(0) =~= Seq::<char>::empty());
    }
    while k < w - n
        invariant
            n == s@.len(),
            n < w,
            k <= w - n,
            out@ == spaces(k as nat),
        decreases w - n - k,
    {
        out.append(" ");
        proof {
            reveal_strlit(" ");
            assert(spaces((k + 1) as nat) =~= spaces(k as nat) + " "@);
        }
        k = k + 1;
    }
    out.append(s);
    out
}

/// The fragments of a row, separated by `", "`.
fn fragment_list(fs: &Vec<FragmentEntry>) -> (r: String)
    ensures
        r@ == fragment_text(fs@.map_values(|f: FragmentEntry| (f.name@, f.tokens))),
{
    let ghost vs = fs@.map_values(|f: FragmentEntry| (f.name@, f.tokens));
    let mut out = String::new();
    let mut i: usize = 0;
    while i < fs.len()
        invariant
            i <= fs@.len(),
            vs == fs@.map_values(|f: FragmentEntry| (f.name@, f.tokens)),
            out@ == fragment_text(vs.subrange(0, i as int)),
        decreases fs@.len() - i,
    {
        let f = &fs[i];
        let t = to_decimal(f.tokens as u64);
        let item = concat3(f.name.as_str(), "(", t.as_str());
        let item = concat(item.as_str(), ")");
        proof {
            reveal_strlit("(");
            reveal_strlit(")");
            reveal_strlit(", ");
            assert(vs.subrange(0, i + 1).drop_last() =~= vs.subrange(0, i as int));
            assert(vs.subrange(0, i + 1).last() == vs[i as int]);
            assert(item@ == fragment_item(vs[i as int]));
        }
        if i == 0 {
            out = item;
            proof {
                assert(vs.subrange(0, 1)[0] == vs[0]);
            }
        } else {
            out = concat3(out.as_str(), ", ", item.as_str());
        }
        i = i + 1;
    }
    proof {
        assert(vs.subrange(0, fs@.len() as int) =~= vs);
    }
    out
}

/// `n` copies of the rule character.
fn rule_of(n: usize) -> (r: String)
    ensures
        r@ == Seq::new(n as nat, |_i: int| '─'),
{
    let mut out = String::new();
    let mut k: usize = 0;
    proof {
        assert(Seq::new(0, |_i: int| '─') =~= Seq::<char>::empty());
    }
    while k < n
        invariant
            k <= n,
            out@ == Seq::new(k as nat, |_i: int| '─'),
        decreases n - k,
    {
        out.append("─");
        proof {
            reveal_strlit("─");
            assert(Seq::new((k + 1) as nat, |_i: int| '─') =~= Seq::new(k as nat, |_i: int| '─') + "─"@);
        }
        k = k + 1;
    }
    out
}

/// The views of budget rows.
pub open spec fn budget_views(rows: Seq<BudgetRow>) -> Seq<BudgetRowView> {
    rows.map_values(|r: BudgetRow| r@)
}

/// The text table `skillet budget` prints for `rows`, line by line.
pub fn budget_table(rows: &Vec<BudgetRow>) -> (r: Vec<String>)
    requires
        token_sum(rows@.map_values(|b: BudgetRow| b.discovery)) <= u32::MAX,
        token_sum(rows@.map_values(|b: BudgetRow| b.activation)) <= u32::MAX,
        skill_width(budget_views(rows@)) + fragments_width(budget_views(rows@)) + 37 <= usize::MAX,
    ensures
        string_views(r@) == table_text(budget_views(rows@)),
{
    let ghost vs = budget_views(rows@);
    let mut out: Vec<String> = Vec::new();
    if rows.len() == 0 {
        out.push(String::from_str("No skills found."));
        proof {
            reveal_strlit("No skills found.");
            assert(string_views(out@) =~= table_text(vs));
        }
        return out;
    }
    // Column widths.
    let mut sw: usize = 5;
    let mut fw: usize = 9;
    let mut texts: Vec<String> = Vec::new();
    let mut i: usize = 0;
    while i < rows.len()
        invariant
            i <= rows@.len(),
            vs == budget_views(rows@),
            skill_width(vs) + fragments_width(vs) + 37 <= usize::MAX,
            sw == widest(vs.subrange(0, i as int).map_values(|r: BudgetRowView| byte_len(r.skill)), 5),
            fw == widest(
                vs.subrange(0, i as int).map_values(|r: BudgetRowView| byte_len(fragment_text(r.fragments))),
                9,
            ),
            texts@.len() == i,
            forall|j: int| 0 <= j < i ==> (#[trigger] texts@[j])@ == fragment_text(vs[j].fragments),
        decreases rows@.len() - i,
    {
        let r = &rows[i];
        let t = fragment_list(&r.fragments);
        let sk = r.skill.as_str();
        let tk = t.as_str();
        let sl = sk.as_bytes().len();
        let tl = tk.as_bytes().len();
        let ghost a = vs.subrange(0, i + 1).map_values(|r: BudgetRowView| byte_len(r.skill));
        let ghost b = vs.subrange(0, i + 1).map_values(|r: BudgetRowView| byte_len(fragment_text(r.fragments)));
        proof {
            assert(a.drop_last() =~= vs.subrange(0, i as int).map_values(|r: BudgetRowView| byte_len(r.skill)));
            assert(b.drop_last() =~= vs.subrange(0, i as int).map_values(
                |r: BudgetRowView| byte_len(fragment_text(r.fragments)),
            ));
            assert(vs[i as int] == r@);
            assert(a[i as int] == byte_len(vs.subrange(0, i + 1)[i as int].skill));
            assert(vs.subrange(0, i + 1)[i as int] == r@);
            assert(sk@ == r.skill@);
            assert(sl == sk.spec_bytes().len());
            assert(a.last() == sl as nat);
            assert(b[i as int] == byte_len(fragment_text(vs.subrange(0, i + 1)[i as int].fragments)));
            assert(tk@ == t@);
            assert(tl == tk.spec_bytes().len());
            assert(b.last() == tl as nat);
            lemma_widest_prefix(vs.map_values(|r: BudgetRowView| byte_len(r.skill)), 5, i + 1);
            lemma_widest_prefix(
                vs.map_values(|r: BudgetRowView| byte_len(fragment_text(r.fragments))),
                9,
                i + 1,
            );
            lemma_widest_bound(vs.map_values(|r: BudgetRowView| byte_len(r.skill)), 5, i + 1);
            lemma_widest_bound(
                vs.map_values(|r: BudgetRowView| byte_len(fragment_text(r.fragments))),
                9,
                i + 1,
            );
            assert(vs.map_values(|r: BudgetRowView| byte_len(r.skill)).subrange(0, i + 1) =~= a);
            assert(vs.map_values(|r: BudgetRowView| byte_len(fragment_text(r.fragments))).subrange(0, i + 1)
                =~= b);
        }
        if sl > sw {
            sw = sl;
        }
        if tl > fw {
            fw = tl;
        }
        proof {
            assert(sw == widest(a, 5));
            assert(fw == widest(b, 9));
        }
        texts.push(t);
        i = i + 1;
    }
    proof {
        assert(vs.subrange(0, rows@.len() as int) =~= vs);
    }
    let rule = rule_of(sw + 2 + 9 + 2 + 10 + 2 + 10 + 2 + fw);
    let h1 = padded_end("Skill", sw);
    let h2 = padded_start("Discovery", 9);
    let h3 = padded_start("Activation", 10);
    let h4 = padded_start("Transitive", 10);
    let h5 = padded_end("Fragments", fw);
    let a = concat3(h1.as_str(), "  ", h2.as_str());
    let b = concat3(a.as_str(), "  ", h3.as_str());
    let c = concat3(b.as_str(), "  ", h4.as_str());
    let header = concat3(c.as_str(), "  ", h5.as_str());
    proof {
        reveal_strlit("  ");
        assert(header@ == header_line(vs));
        assert(rule@ == rule_line(vs));
    }
    out.push(header);
    out.push(String::from_str(rule.as_str()));
    let mut d: u32 = 0;
    let mut act: u32 = 0;
    let mut j: usize = 0;
    proof {
        assert(rows@.map_values(|b: BudgetRow| b.discovery).subrange(0, 0) =~= Seq::<u32>::empty());
        assert(rows@.map_values(|b: BudgetRow| b.activation).subrange(0, 0) =~= Seq::<u32>::empty());
    }
    while j < rows.len()
        invariant
            j <= rows@.len(),
            texts@.len() == rows@.len(),
            vs == budget_views(rows@),
            sw == skill_width(vs),
            forall|k: int| 0 <= k < rows@.len() ==> (#[trigger] texts@[k])@ == fragment_text(vs[k].fragments),
            token_sum(rows@.map_values(|b: BudgetRow| b.discovery)) <= u32::MAX,
            token_sum(rows@.map_values(|b: BudgetRow| b.activation)) <= u32::MAX,
            d == token_sum(rows@.map_values(|b: BudgetRow| b.discovery).subrange(0, j as int)),
            act == token_sum(rows@.map_values(|b: BudgetRow| b.activation).subrange(0, j as int)),
            string_views(out@) == seq![header_line(vs), rule_line(vs)] + vs.subrange(0, j as int).map_values(
                |r: BudgetRowView| row_line(r, skill_width(vs)),
            ),
        decreases rows@.len() - j,
    {
        let r = &rows[j];
        let c1 = padded_end(r.skill.as_str(), sw);
        let ds = to_decimal(r.discovery as u64);
        let c2 = padded_start(ds.as_str(), 9);
        let acs = to_decimal(r.activation as u64);
        let c3 = padded_start(acs.as_str(), 10);
        let ts = to_decimal(r.transitive as u64);
        let c4 = padded_start(ts.as_str(), 10);
        let x = concat3(c1.as_str(), "  ", c2.as_str());
        let y = concat3(x.as_str(), "  ", c3.as_str());
        let z = concat3(y.as_str(), "  ", c4.as_str());
        let line = concat3(z.as_str(), "  ", texts[j].as_str());
        proof {
            reveal_strlit("  ");
            assert(vs[j as int] == r@);
            assert(line@ == row_line(vs[j as int], skill_width(vs)));
            let dsq = rows@.map_values(|b: BudgetRow| b.discovery);
            let asq = rows@.map_values(|b: BudgetRow| b.activation);
            assert(dsq.subrange(0, j + 1).drop_last() =~= dsq.subrange(0, j as int));
            assert(asq.subrange(0, j + 1).drop_last() =~= asq.subrange(0, j as int));
            lemma_token_sum_prefix(dsq, j + 1);
            lemma_token_sum_prefix(asq, j + 1);
        }
        let ghost before = string_views(out@);
        let ghost lv = line@;
        out.push(line);
        d = d + r.discovery;
        act = act + r.activation;
        proof {
            assert(string_views(out@) =~= before.push(lv));
            assert(vs.subrange(0, j + 1) =~= vs.subrange(0, j as int).push(vs[j as int]));
            assert(string_views(out@) =~= seq![header_line(vs), rule_line(vs)] + vs.subrange(0, j + 1).map_values(
                |r: BudgetRowView| row_line(r, skill_width(vs)),
            ));
        }
        j = j + 1;
    }
    let t1 = padded_end("TOTAL", sw);
    let dsum = to_decimal(d as u64);
    let t2 = padded_start(dsum.as_str(), 9);
    let asum = to_decimal(act as u64);
    let t3 = padded_start(asum.as_str(), 10);
    let p = concat3(t1.as_str(), "  ", t2.as_str());
    let total = concat3(p.as_str(), "  ", t3.as_str());
    proof {
        reveal_strlit("  ");
        let dsq = rows@.map_values(|b: BudgetRow| b.discovery);
        let asq = rows@.map_values(|b: BudgetRow| b.activation);
        assert(dsq.subrange(0, rows@.len() as int) =~= dsq);
        assert(asq.subrange(0, rows@.len() as int) =~= asq);
        assert(vs.map_values(|r: BudgetRowView| r.discovery) =~= dsq);
        assert(vs.map_values(|r: BudgetRowView| r.activation) =~= asq);
        assert(total@ == total_line(vs));
        assert(vs.subrange(0, rows@.len() as int) =~= vs);
    }
    let ghost before = string_views(out@);
    out.push(rule);
    out.push(total);
    proof {
        assert(string_views(out@) =~= table_text(vs));
    }
    out
}

/// The widest entry of a prefix is no wider than that of the whole.
proof fn lemma_widest_bound(ns: Seq<nat>, floor: nat, i: int)
    requires
        0 <= i <= ns.len(),
    ensures
        widest(ns.subrange(0, i), floor) <= widest(ns, floor),
    decreases ns.len() - i,
{
    if i < ns.len() {
        lemma_widest_bound(ns, floor, i + 1);
        lemma_widest_prefix(ns, floor, i + 1);
    } else {
        assert(ns.subrange(0, i) =~= ns);
    }
}

/// A prefix's widest entry is the widest of the shorter prefix and the new
/// entry.
proof fn lemma_widest_prefix(ns: Seq<nat>, floor: nat, i: int)
    requires
        0 < i <= ns.len(),
    ensures
        widest(ns.subrange(0, i), floor) == if ns[i - 1] > widest(ns.subrange(0, i - 1), floor) {
            ns[i - 1]
        } else {
            widest(ns.subrange(0, i - 1), floor)
        },
{
    assert(ns.subrange(0, i).drop_last() =~= ns.subrange(0, i - 1));
}

} // verus!
