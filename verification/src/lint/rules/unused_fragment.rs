//! Rule: `unused-fragment` — a fragment that no linted skill includes.
use vstd::prelude::*;

use crate::collections::{string_views, StrSet};
use crate::lint::{diag, diag_views, plain, CompiledSkill, Diagnostic, DiagnosticView, Severity};
use crate::text::concat3;
use crate::workspace::Workspace;

verus! {

/// The fragments that the compiled skills `cs` include.
pub open spec fn used_fragments(cs: Seq<CompiledSkill>) -> Set<Seq<char>>
    decreases cs.len(),
{
    if cs.len() == 0 {
        Set::empty()
    } else {
        used_fragments(cs.drop_last()).union(string_views(cs.last().output.fragments_used@).to_set())
    }
}

/// The findings for the fragments `names` that are not in `used`, in order.
pub open spec fn unused_diags(names: Seq<Seq<char>>, used: Set<Seq<char>>) -> Seq<DiagnosticView>
    decreases names.len(),
{
    if names.len() == 0 {
        Seq::empty()
    } else {
        unused_diags(names.drop_last(), used) + if used.contains(names.last()) {
            Seq::empty()
        } else {
            seq![
                plain(
                    Severity::Warning,
                    "<workspace>"@,
                    "unused-fragment"@,
                    "fragment '"@ + names.last() + "' is not included by any skill"@,
                )
            ]
        }
    }
}

/// The finding that fragment `f` is not included by any skill.
pub open spec fn unused_finding(f: Seq<char>) -> DiagnosticView {
    plain(
        Severity::Warning,
        "<workspace>"@,
        "unused-fragment"@,
        "fragment '"@ + f + "' is not included by any skill"@,
    )
}

/// A fragment counts as used exactly when one of the compiled skills lists
/// it among the fragments it uses.
pub proof fn lemma_used_fragments_members(cs: Seq<CompiledSkill>, f: Seq<char>)
    ensures
        used_fragments(cs).contains(f) <==> exists|i: int, k: int|
            0 <= i < cs.len() && 0 <= k < cs[i].output.fragments_used@.len()
                && (#[trigger] cs[i].output.fragments_used@[k])@ == f,
    decreases cs.len(),
{
    if cs.len() > 0 {
        let init = cs.drop_last();
        let last = cs.last();
        let lv = string_views(last.output.fragments_used@);
        lemma_used_fragments_members(init, f);
        if used_fragments(cs).contains(f) {
            if used_fragments(init).contains(f) {
                let (i, k) = choose|i: int, k: int|
                    0 <= i < init.len() && 0 <= k < init[i].output.fragments_used@.len()
                        && (#[trigger] init[i].output.fragments_used@[k])@ == f;
                assert(cs[i] == init[i]);
            } else {
                assert(lv.to_set().contains(f));
                assert(lv.contains(f));
                let k = choose|k: int| 0 <= k < lv.len() && lv[k] == f;
                assert(cs[cs.len() - 1] == last);
                assert(cs[cs.len() - 1].output.fragments_used@[k]@ == f);
            }
        }
        if exists|i: int, k: int|
            0 <= i < cs.len() && 0 <= k < cs[i].output.fragments_used@.len()
                && (#[trigger] cs[i].output.fragments_used@[k])@ == f {
            let (i, k) = choose|i: int, k: int|
                0 <= i < cs.len() && 0 <= k < cs[i].output.fragments_used@.len()
                    && (#[trigger] cs[i].output.fragments_used@[k])@ == f;
            if i < init.len() {
                assert(init[i] == cs[i]);
                assert(init[i].output.fragments_used@[k]@ == f);
            } else {
                assert(cs[i] == last);
                assert(lv[k] == f);
                assert(lv.contains(f));
                assert(lv.to_set().contains(f));
            }
        }
    }
}

/// The messages of two unused-fragment findings agree only for the same
/// fragment.
proof fn lemma_unused_finding_injective(f: Seq<char>, g: Seq<char>)
    requires
        unused_finding(f) == unused_finding(g),
    ensures
        f == g,
{
    let a = "fragment '"@;
    let b = "' is not included by any skill"@;
    let mf = a + f + b;
    let mg = a + g + b;
    assert(mf == mg);
    assert(f.len() == g.len());
    assert(f =~= mf.subrange(a.len() as int, (a.len() + f.len()) as int));
    assert(g =~= mg.subrange(a.len() as int, (a.len() + g.len()) as int));
}

/// The findings for `names` are, in order, the unused-fragment findings of
/// the names that `used` does not hold.
pub proof fn lemma_unused_diags_members(names: Seq<Seq<char>>, used: Set<Seq<char>>, d: DiagnosticView)
    ensures
        unused_diags(names, used).contains(d) ==> exists|m: int|
            0 <= m < names.len() && !used.contains(#[trigger] names[m]) && d == unused_finding(names[m]),
    decreases names.len(),
{
    if names.len() > 0 {
        let init = names.drop_last();
        lemma_unused_diags_members(init, used, d);
        let prev = unused_diags(init, used);
        if unused_diags(names, used).contains(d) {
            if prev.contains(d) {
                let m = choose|m: int| 0 <= m < init.len() && !used.contains(#[trigger] init[m]) && d == unused_finding(init[m]);
                assert(names[m] == init[m]);
            } else {
                let all = unused_diags(names, used);
                let j = choose|j: int| 0 <= j < all.len() && all[j] == d;
                if j < prev.len() {
                    assert(all[j] == prev[j]);
                    assert(prev.contains(d));
                }
                assert(names[names.len() - 1] == names.last());
            }
        }
    }
}

/// Law: a fragment that one of the compiled skills lists among the
/// fragments it uses is never reported as unused, and every finding is for
/// a fragment of `names` that no compiled skill uses.
pub proof fn lemma_used_fragment_never_reported(
    cs: Seq<CompiledSkill>,
    names: Seq<Seq<char>>,
    i: int,
    k: int,
    d: DiagnosticView,
)
    requires
        0 <= i < cs.len(),
        0 <= k < cs[i].output.fragments_used@.len(),
    ensures
        !unused_diags(names, used_fragments(cs)).contains(unused_finding(cs[i].output.fragments_used@[k]@)),
        unused_diags(names, used_fragments(cs)).contains(d) ==> exists|m: int|
            0 <= m < names.len() && d == unused_finding(#[trigger] names[m]) && forall|p: int, q: int|
                0 <= p < cs.len() && 0 <= q < cs[p].output.fragments_used@.len() ==> (
                #[trigger] cs[p].output.fragments_used@[q])@ != names[m],
{
    let f = cs[i].output.fragments_used@[k]@;
    let used = used_fragments(cs);
    lemma_used_fragments_members(cs, f);
    assert(used.contains(f));
    let u = unused_finding(f);
    lemma_unused_diags_members(names, used, u);
    if unused_diags(names, used).contains(u) {
        let m = choose|m: int| 0 <= m < names.len() && !used.contains(#[trigger] names[m]) && u == unused_finding(names[m]);
        lemma_unused_finding_injective(f, names[m]);
    }
    lemma_unused_diags_members(names, used, d);
    if unused_diags(names, used).contains(d) {
        let m = choose|m: int| 0 <= m < names.len() && !used.contains(#[trigger] names[m]) && d == unused_finding(names[m]);
        lemma_used_fragments_members(cs, names[m]);
        assert forall|p: int, q: int|
            0 <= p < cs.len() && 0 <= q < cs[p].output.fragments_used@.len() implies (
            #[trigger] cs[p].output.fragments_used@[q])@ != names[m] by {}
    }
}

/// The fragments that the compiled skills include.
fn used_set(compiled: &Vec<CompiledSkill>) -> (r: StrSet)
    ensures
        r.wf(),
        r@ == used_fragments(compiled@),
{
    let mut set = StrSet::new();
    let mut i: usize = 0;
    proof {
        assert(compiled@.subrange(0, 0).len() == 0);
    }
    while i < compiled.len()
        invariant
            set.wf(),
            i <= compiled@.len(),
            set@ == used_fragments(compiled@.subrange(0, i as int)),
        decreases compiled@.len() - i,
    {
        let used = &compiled[i].output.fragments_used;
        let ghost uv = string_views(used@);
        let ghost s0 = set@;
        let mut j: usize = 0;
        proof {
            assert(uv.subrange(0, 0).to_set() =~= Set::<Seq<char>>::empty());
            assert(s0 =~= s0.union(Set::<Seq<char>>::empty()));
        }
        while j < used.len()
            invariant
                set.wf(),
                uv == string_views(used@),
                j <= used@.len(),
                set@ == s0.union(uv.subrange(0, j as int).to_set()),
            decreases used@.len() - j,
        {
            set.insert(used[j].clone());
            proof {
                assert(uv.subrange(0, j + 1) =~= uv.subrange(0, j as int).push(uv[j as int]));
                crate::collections::lemma_push_contains(uv.subrange(0, j as int), uv[j as int]);
                assert(set@ =~= s0.union(uv.subrange(0, j + 1).to_set()));
            }
            j += 1;
        }
        proof {
            assert(uv.subrange(0, used@.len() as int) =~= uv);
            assert(compiled@.subrange(0, i + 1).drop_last() =~= compiled@.subrange(0, i as int));
            assert(compiled@.subrange(0, i + 1).last() == compiled@[i as int]);
        }
        i += 1;
    }
    proof {
        assert(compiled@.subrange(0, compiled@.len() as int) =~= compiled@);
    }
    set
}

/// Warns for each fragment of the workspace, in name order, that none of
/// the compiled skills includes.
pub fn check(compiled: &Vec<CompiledSkill>, ws: &Workspace) -> (r: Vec<Diagnostic>)
    requires
        ws.raw_fragments.wf(),
    ensures
        diag_views(r@) == unused_diags(ws.raw_fragments.key_seq(), used_fragments(compiled@)),
{
    let names = ws.fragment_names();
    let ghost nv = string_views(names@);
    if names.len() == 0 {
        proof {
            assert(nv.len() == 0);
        }
        return Vec::new();
    }
    let used = used_set(compiled);
    let mut out: Vec<Diagnostic> = Vec::new();
    let mut i: usize = 0;
    while i < names.len()
        invariant
            used.wf(),
            used@ == used_fragments(compiled@),
            nv == string_views(names@),
            i <= names@.len(),
            diag_views(out@) == unused_diags(nv.subrange(0, i as int), used@),
        decreases names@.len() - i,
    {
        let ghost before = out@;
        let f = names[i].as_str();
        proof {
            assert(nv.subrange(0, i + 1).drop_last() =~= nv.subrange(0, i as int));
            assert(nv.subrange(0, i + 1).last() == f@);
        }
        if !used.contains(f) {
            out.push(diag(Severity::Warning, "<workspace>", "unused-fragment", concat3("fragment '", f, "' is not included by any skill")));
        }
        proof {
            assert(diag_views(out@) =~= unused_diags(nv.subrange(0, i + 1), used@));
        }
        i += 1;
    }
    proof {
        assert(nv.subrange(0, names@.len() as int) =~= nv);
    }
    out
}

} // verus!
