//! Build orchestration: which skills a build compiles, what it records in
//! the lockfile for each, and how the fragment records are rebuilt from the
//! skill records.
//!
//! Reading sources, writing `SKILL.md` files and the lockfile, and hashing
//! files that the workspace did not load are the caller's part.
use vstd::prelude::*;
use vstd::utf8::encode_utf8;

use crate::collections::{str_lt, string_views, StrMap, StrSet};
use crate::compile::{collect_structured_refs, refs_inventory};
use crate::compiler::check::{check_source_file, diags_view, spec_check, CheckDiag, CheckDiagView, Severity};
use crate::compiler::compile::{body_bytes, compile, compiled_text, discovery_text, used_fragments};
use crate::compiler::parse::spec_parse;
use crate::compiler::PanSource;
use crate::hashing::{hash_bytes, sha256_label};
use crate::lint::rules::duplication::copy_sig;
use crate::lockfile::{FragmentLockEntry, Lockfile, SkillEntry};
use crate::text::{concat, decimal, to_decimal};
use crate::tokens::counted;
use crate::workspace::{Skill, Workspace};

verus! {

// ── Targets ───────────────────────────────────────────────────────────────────

/// The message for a skill that the workspace does not have.
pub open spec fn skill_not_found(name: Seq<char>) -> Seq<char> {
    "skill '"@ + name + "' not found in workspace"@
}

/// The skills a build compiles: the one named, which must exist, or every
/// skill of the workspace in name order.
pub fn select_targets(ws: &Workspace, skill_name: Option<&str>) -> (r: Result<Vec<String>, String>)
    requires
        ws.wf(),
    ensures
        match skill_name {
            Some(n) => if ws.skills@.contains_key(n@) {
                r matches Ok(v) && string_views(v@) == seq![n@]
            } else {
                r matches Err(e) && e@ == skill_not_found(n@)
            },
            None => r matches Ok(v) && string_views(v@) == ws.skills.key_seq(),
        },
{
    match skill_name {
        Some(n) => {
            if ws.skills.contains_key(n) {
                let mut v: Vec<String> = Vec::new();
                v.push(String::from_str(n));
                proof {
                    assert(string_views(v@) =~= seq![n@]);
                }
                Ok(v)
            } else {
                Err(crate::text::concat3("skill '", n, "' not found in workspace"))
            }
        },
        None => {
            let mut v: Vec<String> = Vec::new();
            let mut i: usize = 0;
            let count = ws.skills.len();
            while i < count
                invariant
                    ws.wf(),
                    count == ws.skills.key_seq().len(),
                    i <= count,
                    v@.len() == i,
                    string_views(v@) == ws.skills.key_seq().subrange(0, i as int),
                decreases count - i,
            {
                let k = ws.skills.key_at(i);
                let ghost prev = v@;
                v.push(k.clone());
                proof {
                    assert(v@ == prev.push(v@[i as int]));
                    assert(string_views(v@) =~= string_views(prev).push(k@));
                    assert(string_views(v@) =~= ws.skills.key_seq().subrange(0, i + 1));
                }
                i = i + 1;
            }
            proof {
                assert(ws.skills.key_seq().subrange(0, count as int) =~= ws.skills.key_seq());
            }
            Ok(v)
        },
    }
}

// ── Check diagnostics ─────────────────────────────────────────────────────────

/// The word for a severity.
pub open spec fn level_text(s: Severity) -> Seq<char> {
    match s {
        Severity::Error => "error"@,
        Severity::Warning => "warning"@,
    }
}

/// A check diagnostic of `skill` as a build reports it:
/// `[level] skill message (path:line:col)`.
pub open spec fn diag_line(skill: Seq<char>, path: Seq<char>, d: CheckDiagView) -> Seq<char> {
    "["@ + level_text(d.severity) + "] "@ + skill + " "@ + d.message + " ("@ + path + ":"@
        + decimal(d.line as nat) + ":"@ + decimal(d.col as nat) + ")"@
}

/// The diagnostics as a build reports them.
pub open spec fn diag_lines(skill: Seq<char>, path: Seq<char>, ds: Seq<CheckDiagView>) -> Seq<Seq<char>> {
    ds.map_values(|d: CheckDiagView| diag_line(skill, path, d))
}

/// Some diagnostic is an error.
pub open spec fn has_error(ds: Seq<CheckDiagView>) -> bool {
    exists|i: int| 0 <= i < ds.len() && (#[trigger] ds[i]).severity == Severity::Error
}

/// A check diagnostic of `skill` as a build reports it.
pub fn render_check_diag(skill: &Skill, d: &CheckDiag) -> (r: String)
    ensures
        r@ == diag_line(skill.name@, skill.source_path@, d@),
{
    let level = match d.severity {
        Severity::Error => "error",
        Severity::Warning => "warning",
    };
    let mut s = String::from_str("[");
    s.append(level);
    s.append("] ");
    s.append(skill.name.as_str());
    s.append(" ");
    s.append(d.message.as_str());
    s.append(" (");
    s.append(skill.source_path.as_str());
    s.append(":");
    let line = to_decimal(d.line as u64);
    s.append(line.as_str());
    s.append(":");
    let col = to_decimal(d.col as u64);
    s.append(col.as_str());
    s.append(")");
    proof {
        reveal_strlit("[");
        reveal_strlit("error");
        reveal_strlit("warning");
        reveal_strlit("] ");
        reveal_strlit(" ");
        reveal_strlit(" (");
        reveal_strlit(":");
        reveal_strlit(")");
        assert(s@ =~= diag_line(skill.name@, skill.source_path@, d@));
    }
    s
}

// ── Building one skill ────────────────────────────────────────────────────────

/// The check diagnostics of `skill` whose source is `source`.
pub open spec fn source_check(ws: &Workspace, skill: &Skill, source: Seq<char>) -> Seq<CheckDiagView> {
    spec_check(ws, string_views(skill.files@).to_set(), encode_utf8(source))
}

/// The entry the lockfile held for `name`, if any.
pub open spec fn prev_entry(lock: &Lockfile, name: Seq<char>) -> Option<SkillEntry> {
    if lock.skills@.contains_key(name) {
        Some(lock.skills@[name])
    } else {
        None
    }
}

/// What a build records for a skill whose source is `source`: the hashes of
/// source and output, the token counts, the fragments and refs of the output,
/// and the cached MinHash signature when the output has not changed.
pub open spec fn entry_fits<F: Fn(&str, &str) -> u32>(
    e: SkillEntry,
    prev: Option<SkillEntry>,
    ws: &Workspace,
    source: Seq<char>,
    count_tokens: F,
) -> bool {
    let b = encode_utf8(source);
    let text = compiled_text(ws, b);
    &&& e.source_hash@ == sha256_label(b)
    &&& e.compiled_hash@ == sha256_label(encode_utf8(text))
    &&& counted(count_tokens, text, ws.tokenizer@, e.activation_tokens)
    &&& counted(count_tokens, discovery_text(source), ws.tokenizer@, e.discovery_tokens)
    &&& e.transitive_tokens == 0
    &&& string_views(e.fragments_used@) == used_fragments(ws, spec_parse(body_bytes(b)).0)
    &&& refs_inventory(&e.refs, text)
    &&& e.minhash@ == match prev {
        Some(p) => if p.compiled_hash@ == e.compiled_hash@ {
            p.minhash@
        } else {
            Seq::empty()
        },
        None => Seq::empty(),
    }
}

/// What building one skill gives: its check diagnostics as lines, and its
/// compiled output unless the check found an error.
#[derive(Debug)]
pub struct SkillBuild {
    /// The check diagnostics, rendered.
    pub diagnostics: Vec<String>,
    /// The compiled `SKILL.md` text, when the check found no error.
    pub output: Option<String>,
}

/// Checks and compiles `skill` from its source text and, when the check finds
/// no error, records the build in `lockfile`.
pub fn build_skill<F: Fn(&str, &str) -> u32>(
    ws: &Workspace,
    skill: &Skill,
    source: String,
    lockfile: &mut Lockfile,
    count_tokens: &F,
) -> (r: SkillBuild)
    requires
        ws.wf(),
        old(lockfile).wf(),
        encode_utf8(source@).len() < u32::MAX,
        forall|t: &str, m: &str| count_tokens.requires((t, m)),
    ensures
        final(lockfile).wf(),
        string_views(r.diagnostics@) == diag_lines(
            skill.name@,
            skill.source_path@,
            source_check(ws, skill, source@),
        ),
        r.output is None <==> has_error(source_check(ws, skill, source@)),
        r.output matches Some(t) ==> {
            &&& t@ == compiled_text(ws, encode_utf8(source@))
            &&& final(lockfile).skills@.contains_key(skill.name@)
            &&& final(lockfile).skills@ == old(lockfile).skills@.insert(
                skill.name@,
                final(lockfile).skills@[skill.name@],
            )
            &&& entry_fits(
                final(lockfile).skills@[skill.name@],
                prev_entry(old(lockfile), skill.name@),
                ws,
                source@,
                *count_tokens,
            )
        },
        r.output is None ==> final(lockfile).skills@ == old(lockfile).skills@,
        final(lockfile).fragments@ == old(lockfile).fragments@,
        final(lockfile).meta == old(lockfile).meta,
{
    let ghost src = source@;
    let pan = PanSource::new(source);
    let known = ws.get_source_files_for_skill(skill);
    let diags = check_source_file(ws, &pan, &known);
    let ghost ds = diags_view(diags@);
    let mut lines: Vec<String> = Vec::new();
    let mut failed = false;
    let mut i: usize = 0;
    while i < diags.len()
        invariant
            i <= diags@.len(),
            ds == diags_view(diags@),
            lines@.len() == i,
            string_views(lines@) == diag_lines(skill.name@, skill.source_path@, ds.subrange(0, i as int)),
            failed == has_error(ds.subrange(0, i as int)),
        decreases diags@.len() - i,
    {
        let d = &diags[i];
        let line = render_check_diag(skill, d);
        let ghost prev = lines@;
        let ghost lv = line@;
        lines.push(line);
        if d.severity == Severity::Error {
            failed = true;
        }
        proof {
            let next = ds.subrange(0, i + 1);
            assert(next =~= ds.subrange(0, i as int).push(ds[i as int]));
            assert(ds[i as int] == d@);
            assert(lines@ == prev.push(lines@[i as int]));
            assert(string_views(lines@) =~= string_views(prev).push(lv));
            assert(diag_lines(skill.name@, skill.source_path@, next) =~= diag_lines(
                skill.name@,
                skill.source_path@,
                ds.subrange(0, i as int),
            ).push(diag_line(skill.name@, skill.source_path@, d@)));
            assert(string_views(lines@) =~= diag_lines(skill.name@, skill.source_path@, next));
            if d.severity == Severity::Error {
                assert(next[i as int].severity == Severity::Error);
            } else if has_error(next) {
                let j = choose|j: int| 0 <= j < next.len() && (#[trigger] next[j]).severity == Severity::Error;
                assert(j != i);
                assert(ds.subrange(0, i as int)[j] == next[j]);
            }
            if has_error(ds.subrange(0, i as int)) {
                let j = choose|j: int|
                    0 <= j < ds.subrange(0, i as int).len() && (#[trigger] ds.subrange(0, i as int)[j]).severity
                        == Severity::Error;
                assert(next[j] == ds.subrange(0, i as int)[j]);
            }
        }
        i = i + 1;
    }
    proof {
        assert(ds.subrange(0, diags@.len() as int) =~= ds);
        assert(known@ == string_views(skill.files@).to_set());
        assert(pan.bytes() == encode_utf8(src));
    }
    if failed {
        return SkillBuild { diagnostics: lines, output: None };
    }
    let out = compile(ws, &pan, count_tokens);
    let raw = pan.as_str();
    let source_hash = hash_bytes(raw.as_bytes());
    let compiled_hash = hash_bytes(out.text.as_str().as_bytes());
    let minhash = match lockfile.skills.get(skill.name.as_str()) {
        Some(e) => {
            if crate::text::str_eq(e.compiled_hash.as_str(), compiled_hash.as_str()) {
                copy_sig(&e.minhash)
            } else {
                Vec::new()
            }
        },
        None => Vec::new(),
    };
    let refs = collect_structured_refs(out.text.as_str());
    let text = out.text;
    let copy = String::from_str(text.as_str());
    let entry = SkillEntry {
        source_hash,
        compiled_hash,
        discovery_tokens: out.discovery_tokens,
        activation_tokens: out.activation_tokens,
        transitive_tokens: 0,
        fragments_used: out.fragments_used,
        refs,
        minhash,
    };
    let ghost ev = entry;
    proof {
        assert(entry_fits(ev, prev_entry(lockfile, skill.name@), ws, src, *count_tokens));
    }
    lockfile.skills.insert(skill.name.clone(), entry);
    proof {
        assert(lockfile.skills@[skill.name@] == ev);
    }
    SkillBuild { diagnostics: lines, output: Some(copy) }
}

// ── Fragment records ──────────────────────────────────────────────────────────

/// How many times `xs` lists `f`.
pub open spec fn count_of(xs: Seq<Seq<char>>, f: Seq<char>) -> nat
    decreases xs.len(),
{
    if xs.len() == 0 {
        0
    } else {
        count_of(xs.drop_last(), f) + if xs.last() == f {
            1nat
        } else {
            0nat
        }
    }
}

/// The skills among `ks` (with entries `es`) that list `f`, in order, once
/// per listing.
pub open spec fn users_of(ks: Seq<Seq<char>>, es: Seq<SkillEntry>, f: Seq<char>) -> Seq<Seq<char>>
    decreases ks.len(),
{
    if ks.len() == 0 || es.len() == 0 {
        Seq::empty()
    } else {
        users_of(ks.drop_last(), es.drop_last(), f) + Seq::new(
            count_of(string_views(es.last().fragments_used@), f),
            |_i: int| ks.last(),
        )
    }
}

/// The fragments that the entries `es` list.
pub open spec fn listed_fragments(es: Seq<SkillEntry>) -> Set<Seq<char>> {
    Set::new(
        |f: Seq<char>|
            exists|i: int| 0 <= i < es.len() && string_views((#[trigger] es[i]).fragments_used@).contains(f),
    )
}

/// The record a rebuild writes for the fragment `f`: the skills that use it,
/// in name order, and its hash and token count as the workspace loaded them,
/// or the hash of its file when the workspace did not load it.
pub open spec fn fragment_entry_fits(
    e: FragmentLockEntry,
    f: Seq<char>,
    lock: &Lockfile,
    ws: &Workspace,
    disk: Map<Seq<char>, String>,
) -> bool {
    &&& string_views(e.used_by@) == users_of(lock.skills.key_seq(), lock.skills.val_seq(), f)
    &&& if ws.fragment_hashes@.contains_key(f) {
        &&& e.hash@ == ws.fragment_hashes@[f]@
        &&& e.tokens == if ws.fragment_tokens@.contains_key(f) {
            ws.fragment_tokens@[f]
        } else {
            0u32
        }
    } else if disk.contains_key(f) {
        e.hash@ == disk[f]@ && e.tokens == 0
    } else {
        e.hash@ == Seq::<char>::empty() && e.tokens == 0
    }
}

/// A sequence whose neighbours never step down.
pub open spec fn sorted_loosely(s: Seq<Seq<char>>) -> bool {
    forall|i: int, j: int| 0 <= i < j < s.len() ==> #[trigger] s[i] == #[trigger] s[j] || str_lt(s[i], s[j])
}

proof fn lemma_users_members(ks: Seq<Seq<char>>, es: Seq<SkillEntry>, f: Seq<char>)
    ensures
        forall|x: Seq<char>| #[trigger] users_of(ks, es, f).contains(x) ==> ks.contains(x),
    decreases ks.len(),
{
    if ks.len() > 0 && es.len() > 0 {
        let rest = users_of(ks.drop_last(), es.drop_last(), f);
        lemma_users_members(ks.drop_last(), es.drop_last(), f);
        let tail = Seq::new(count_of(string_views(es.last().fragments_used@), f), |_i: int| ks.last());
        assert forall|x: Seq<char>| #[trigger] users_of(ks, es, f).contains(x) implies ks.contains(x) by {
            let u = users_of(ks, es, f);
            assert(u == rest + tail);
            let j = choose|j: int| 0 <= j < u.len() && u[j] == x;
            if j < rest.len() {
                assert(rest[j] == x);
                assert(rest.contains(x));
                let a = choose|a: int| 0 <= a < ks.drop_last().len() && ks.drop_last()[a] == x;
                assert(ks[a] == x);
            } else {
                assert(tail[j - rest.len()] == x);
                assert(ks[ks.len() - 1] == x);
            }
        }
    }
}

/// The users of a fragment come in name order: a rebuilt record lists them
/// sorted.
pub proof fn lemma_users_sorted(ks: Seq<Seq<char>>, es: Seq<SkillEntry>, f: Seq<char>)
    requires
        crate::collections::sorted_keys(ks),
    ensures
        sorted_loosely(users_of(ks, es, f)),
    decreases ks.len(),
{
    if ks.len() > 0 && es.len() > 0 {
        let pre = ks.drop_last();
        assert(crate::collections::sorted_keys(pre)) by {
            assert forall|i: int, j: int| 0 <= i < j < pre.len() implies str_lt(#[trigger] pre[i], #[trigger] pre[j]) by {
                assert(pre[i] == ks[i] && pre[j] == ks[j]);
            }
        }
        lemma_users_sorted(pre, es.drop_last(), f);
        lemma_users_members(pre, es.drop_last(), f);
        let rest = users_of(pre, es.drop_last(), f);
        let tail = Seq::new(count_of(string_views(es.last().fragments_used@), f), |_i: int| ks.last());
        let u = users_of(ks, es, f);
        assert(u == rest + tail);
        assert forall|i: int, j: int| 0 <= i < j < u.len() implies #[trigger] u[i] == #[trigger] u[j] || str_lt(u[i], u[j]) by {
            if j < rest.len() {
                assert(u[i] == rest[i] && u[j] == rest[j]);
            } else if i >= rest.len() {
                assert(u[i] == ks.last() && u[j] == ks.last());
            } else {
                assert(u[i] == rest[i]);
                assert(rest.contains(rest[i]));
                let a = choose|a: int| 0 <= a < pre.len() && pre[a] == rest[i];
                assert(u[j] == ks[ks.len() - 1]);
                assert(str_lt(ks[a], ks[ks.len() - 1]));
            }
        }
    }
}

/// The fragments that the lockfile's skill records list.
fn listed_in(lock: &Lockfile) -> (r: StrSet)
    requires
        lock.wf(),
    ensures
        r.wf(),
        r@ == listed_fragments(lock.skills.val_seq()),
{
    let ghost es = lock.skills.val_seq();
    let mut set = StrSet::new();
    let n = lock.skills.len();
    proof {
        lock.skills.lemma_entries();
    }
    let mut i: usize = 0;
    while i < n
        invariant
            lock.wf(),
            es == lock.skills.val_seq(),
            es.len() == n,
            n == lock.skills.key_seq().len(),
            i <= n,
            set.wf(),
            set@ == Set::new(
                |f: Seq<char>|
                    exists|a: int| 0 <= a < i && string_views((#[trigger] es[a]).fragments_used@).contains(f),
            ),
        decreases n - i,
    {
        proof {
            lock.skills.lemma_entries();
        }
        let e = lock.skills.value_at(i);
        let ghost before = set@;
        let mut j: usize = 0;
        while j < e.fragments_used.len()
            invariant
                j <= e.fragments_used@.len(),
                set.wf(),
                set@ == before.union(string_views(e.fragments_used@).subrange(0, j as int).to_set()),
            decreases e.fragments_used@.len() - j,
        {
            let f = &e.fragments_used[j];
            set.insert(f.clone());
            proof {
                let sv = string_views(e.fragments_used@);
                assert(sv.subrange(0, j + 1) =~= sv.subrange(0, j as int).push(f@));
                crate::collections::lemma_push_contains(sv.subrange(0, j as int), f@);
                assert(set@ =~= before.union(sv.subrange(0, j + 1).to_set()));
            }
            j = j + 1;
        }
        proof {
            let sv = string_views(e.fragments_used@);
            assert(sv.subrange(0, sv.len() as int) =~= sv);
            assert(*e == es[i as int]);
            assert(set@ =~= Set::new(
                |f: Seq<char>|
                    exists|a: int| 0 <= a < i + 1 && string_views((#[trigger] es[a]).fragments_used@).contains(f),
            )) by {
                assert forall|f: Seq<char>|
                    set@.contains(f) <==> exists|a: int|
                        0 <= a < i + 1 && string_views((#[trigger] es[a]).fragments_used@).contains(f) by {
                    if sv.to_set().contains(f) {
                        assert(string_views(es[i as int].fragments_used@).contains(f));
                    }
                    if exists|a: int| 0 <= a < i + 1 && string_views((#[trigger] es[a]).fragments_used@).contains(f) {
                        let a = choose|a: int|
                            0 <= a < i + 1 && string_views((#[trigger] es[a]).fragments_used@).contains(f);
                        if a == i {
                            assert(sv.to_set().contains(f));
                        }
                    }
                }
            }
        }
        i = i + 1;
    }
    proof {
        assert(set@ =~= listed_fragments(es));
    }
    set
}

/// The skills of the lockfile that list `f`, in name order, once per listing.
fn users_in(lock: &Lockfile, f: &str) -> (r: Vec<String>)
    requires
        lock.wf(),
    ensures
        string_views(r@) == users_of(lock.skills.key_seq(), lock.skills.val_seq(), f@),
{
    let ghost ks = lock.skills.key_seq();
    let ghost es = lock.skills.val_seq();
    proof {
        lock.skills.lemma_entries();
    }
    let n = lock.skills.len();
    let mut out: Vec<String> = Vec::new();
    let mut i: usize = 0;
    while i < n
        invariant
            lock.wf(),
            ks == lock.skills.key_seq(),
            es == lock.skills.val_seq(),
            ks.len() == es.len(),
            n == ks.len(),
            i <= n,
            string_views(out@) == users_of(ks.subrange(0, i as int), es.subrange(0, i as int), f@),
        decreases n - i,
    {
        let k = lock.skills.key_at(i);
        let e = lock.skills.value_at(i);
        let ghost before = string_views(out@);
        let mut j: usize = 0;
        while j < e.fragments_used.len()
            invariant
                j <= e.fragments_used@.len(),
                k@ == ks[i as int],
                string_views(out@) == before + Seq::new(
                    count_of(string_views(e.fragments_used@).subrange(0, j as int), f@),
                    |_x: int| k@,
                ),
            decreases e.fragments_used@.len() - j,
        {
            let g = &e.fragments_used[j];
            let ghost sv = string_views(e.fragments_used@);
            proof {
                assert(sv.subrange(0, j + 1).drop_last() =~= sv.subrange(0, j as int));
                assert(sv.subrange(0, j + 1).last() == g@);
            }
            if crate::text::str_eq(g.as_str(), f) {
                let ghost prev = out@;
                out.push(k.clone());
                proof {
                    assert(string_views(out@) =~= string_views(prev).push(k@));
                    assert(string_views(out@) =~= before + Seq::new(
                        count_of(sv.subrange(0, j + 1), f@),
                        |_x: int| k@,
                    ));
                }
            } else {
                proof {
                    assert(Seq::new(count_of(sv.subrange(0, j + 1), f@), |_x: int| k@) =~= Seq::new(
                        count_of(sv.subrange(0, j as int), f@),
                        |_x: int| k@,
                    ));
                }
            }
            j = j + 1;
        }
        proof {
            let sv = string_views(e.fragments_used@);
            assert(sv.subrange(0, sv.len() as int) =~= sv);
            assert(*e == es[i as int]);
            let ks1 = ks.subrange(0, i + 1);
            let es1 = es.subrange(0, i + 1);
            assert(ks1.drop_last() =~= ks.subrange(0, i as int));
            assert(es1.drop_last() =~= es.subrange(0, i as int));
            assert(ks1.last() == k@);
            assert(es1.last() == *e);
        }
        i = i + 1;
    }
    proof {
        assert(ks.subrange(0, n as int) =~= ks);
        assert(es.subrange(0, n as int) =~= es);
    }
    out
}

/// The fragments that the skill records list and the workspace did not load:
/// their hashes come from their files, which the caller reads.
pub fn fragments_needing_disk_hash(lockfile: &Lockfile, ws: &Workspace) -> (r: Vec<String>)
    requires
        lockfile.wf(),
        ws.wf(),
    ensures
        string_views(r@).to_set() == listed_fragments(lockfile.skills.val_seq()).filter(
            |f: Seq<char>| !ws.fragment_hashes@.contains_key(f),
        ),
{
    let names = listed_in(lockfile);
    let mut out: Vec<String> = Vec::new();
    let n = names.len();
    let mut i: usize = 0;
    while i < n
        invariant
            names.wf(),
            ws.wf(),
            n == names.item_seq().len(),
            i <= n,
            string_views(out@).to_set() == names.item_seq().subrange(0, i as int).to_set().filter(
                |f: Seq<char>| !ws.fragment_hashes@.contains_key(f),
            ),
        decreases n - i,
    {
        let f = names.item_at(i);
        let ghost prev = out@;
        let ghost sub = names.item_seq().subrange(0, i as int);
        proof {
            assert(names.item_seq().subrange(0, i + 1) =~= sub.push(f@));
            crate::collections::lemma_push_contains(sub, f@);
        }
        if !ws.fragment_hashes.contains_key(f.as_str()) {
            out.push(f.clone());
            proof {
                assert(string_views(out@) =~= string_views(prev).push(f@));
                crate::collections::lemma_push_contains(string_views(prev), f@);
            }
        }
        proof {
            assert(string_views(out@).to_set() =~= names.item_seq().subrange(0, i + 1).to_set().filter(
                |f: Seq<char>| !ws.fragment_hashes@.contains_key(f),
            ));
        }
        i = i + 1;
    }
    proof {
        assert(names.item_seq().subrange(0, n as int) =~= names.item_seq());
        assert(names.item_seq().to_set() == names@);
    }
    out
}

/// Rebuilds the fragment records from the skill records: one per listed
/// fragment, with the skills that use it in name order, and its hash and
/// tokens from the workspace, else its hash from `disk_hashes`.
pub fn rebuild_fragment_entries(lockfile: &mut Lockfile, ws: &Workspace, disk_hashes: &StrMap<String>)
    requires
        old(lockfile).wf(),
        ws.wf(),
        disk_hashes.wf(),
    ensures
        final(lockfile).wf(),
        final(lockfile).meta == old(lockfile).meta,
        final(lockfile).skills == old(lockfile).skills,
        final(lockfile).fragments@.dom() == listed_fragments(old(lockfile).skills.val_seq()),
        forall|f: Seq<char>|
            #[trigger] final(lockfile).fragments@.contains_key(f) ==> fragment_entry_fits(
                final(lockfile).fragments@[f],
                f,
                old(lockfile),
                ws,
                disk_hashes@,
            ),
        forall|f: Seq<char>|
            #[trigger] final(lockfile).fragments@.contains_key(f) ==> sorted_loosely(
                string_views(final(lockfile).fragments@[f].used_by@),
            ),
{
    let names = listed_in(lockfile);
    proof {
        names.lemma_items();
        lockfile.skills.lemma_entries();
        assert forall|f: Seq<char>|
            sorted_loosely(#[trigger] users_of(lockfile.skills.key_seq(), lockfile.skills.val_seq(), f)) by {
            lemma_users_sorted(lockfile.skills.key_seq(), lockfile.skills.val_seq(), f);
        }
    }
    let mut frags: StrMap<FragmentLockEntry> = StrMap::new();
    let n = names.len();
    let mut i: usize = 0;
    while i < n
        invariant
            lockfile.wf(),
            ws.wf(),
            disk_hashes.wf(),
            names.wf(),
            names@ == listed_fragments(lockfile.skills.val_seq()),
            n == names.item_seq().len(),
            i <= n,
            frags.wf(),
            frags@.dom() == names.item_seq().subrange(0, i as int).to_set(),
            forall|f: Seq<char>|
                #[trigger] frags@.contains_key(f) ==> fragment_entry_fits(
                    frags@[f],
                    f,
                    lockfile,
                    ws,
                    disk_hashes@,
                ),
        decreases n - i,
    {
        let f = names.item_at(i);
        let used_by = users_in(lockfile, f.as_str());
        let (hash, tokens) = match ws.fragment_hashes.get(f.as_str()) {
            Some(h) => {
                let t = match ws.fragment_tokens.get(f.as_str()) {
                    Some(t) => *t,
                    None => 0u32,
                };
                (String::from_str(h.as_str()), t)
            },
            None => match disk_hashes.get(f.as_str()) {
                Some(h) => (String::from_str(h.as_str()), 0u32),
                None => (String::new(), 0u32),
            },
        };
        let entry = FragmentLockEntry { hash, tokens, used_by };
        let ghost ev = entry;
        let ghost old_frags = frags@;
        proof {
            assert(fragment_entry_fits(ev, f@, lockfile, ws, disk_hashes@));
        }
        frags.insert(f.clone(), entry);
        proof {
            let sub = names.item_seq().subrange(0, i as int);
            assert(names.item_seq().subrange(0, i + 1) =~= sub.push(f@));
            crate::collections::lemma_push_contains(sub, f@);
            assert(frags@.dom() =~= names.item_seq().subrange(0, i + 1).to_set());
            assert forall|g: Seq<char>| #[trigger] frags@.contains_key(g) implies fragment_entry_fits(
                frags@[g],
                g,
                lockfile,
                ws,
                disk_hashes@,
            ) by {
                if g == f@ {
                    assert(frags@[g] == ev);
                } else {
                    assert(old_frags.contains_key(g));
                    assert(frags@[g] == old_frags[g]);
                }
            }
        }
        i = i + 1;
    }
    proof {
        assert(names.item_seq().subrange(0, n as int) =~= names.item_seq());
        assert(names.item_seq().to_set() == names@);
    }
    lockfile.fragments = frags;
}

// ── Laws ──────────────────────────────────────────────────────────────────────

/// Law: a build records the hashes that `skillet check` compares with the
/// files: the source as it was built and the `SKILL.md` as it was written
/// hash to the recorded values.
pub proof fn lemma_build_records_file_hashes<F: Fn(&str, &str) -> u32>(
    e: SkillEntry,
    prev: Option<SkillEntry>,
    ws: &Workspace,
    source: Seq<char>,
    count_tokens: F,
)
    requires
        entry_fits(e, prev, ws, source, count_tokens),
    ensures
        crate::freshness::file_hash(crate::freshness::FileStateView::Read(encode_utf8(source))) == Some(
            e.source_hash@,
        ),
        crate::freshness::file_hash(
            crate::freshness::FileStateView::Read(encode_utf8(compiled_text(ws, encode_utf8(source)))),
        ) == Some(e.compiled_hash@),
{
}

} // verus!
