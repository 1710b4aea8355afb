//! The contents of `skillet.lock`: what the last build recorded per skill
//! and per fragment.
//!
//! Reading and writing the file is the caller's part; the library works on
//! the recorded values.
use vstd::prelude::*;

use crate::collections::{string_views, StrMap};

verus! {

/// Structured ref inventory of a compiled skill, each list sorted and
/// without duplicates.
#[derive(Debug, Clone, Default, PartialEq, Eq)]
pub struct SkillRefs {
    /// File paths referenced by `ref::` directives and markdown links.
    pub paths: Vec<String>,
    /// Commands referenced by `cmd::` directives.
    pub commands: Vec<String>,
    /// Skills referenced by `skill::` directives.
    pub skills: Vec<String>,
    /// URLs referenced by markdown links.
    pub urls: Vec<String>,
}

impl SkillRefs {
    /// An inventory with no refs.
    pub fn empty() -> (r: Self)
        ensures
            r.paths@.len() == 0,
            r.commands@.len() == 0,
            r.skills@.len() == 0,
            r.urls@.len() == 0,
    {
        SkillRefs { paths: Vec::new(), commands: Vec::new(), skills: Vec::new(), urls: Vec::new() }
    }
}

/// What the last build recorded for one skill.
#[derive(Debug)]
pub struct SkillEntry {
    /// `"sha256:<hex>"` of the `.pan` source.
    pub source_hash: String,
    /// `"sha256:<hex>"` of the compiled `SKILL.md`.
    pub compiled_hash: String,
    /// Tokens of `"{name} {description}"`.
    pub discovery_tokens: u32,
    /// Tokens of the compiled output.
    pub activation_tokens: u32,
    /// Tokens of the compiled output plus the files it references.
    pub transitive_tokens: u32,
    /// Fragments the skill expands, in first-use order.
    pub fragments_used: Vec<String>,
    /// Refs found in the compiled output.
    pub refs: SkillRefs,
    /// Cached MinHash signature of the compiled output (empty when unknown).
    pub minhash: Vec<u64>,
}

/// What the last build recorded for one fragment.
#[derive(Debug)]
pub struct FragmentLockEntry {
    /// `"sha256:<hex>"` of the fragment source.
    pub hash: String,
    /// Tokens of the fragment source.
    pub tokens: u32,
    /// Skills that expand the fragment, sorted.
    pub used_by: Vec<String>,
}

/// Build metadata.
#[derive(Debug)]
pub struct LockMeta {
    /// Version of the tool that wrote the lockfile.
    pub skillet_version: String,
    /// When the build ran, as an RFC 3339 timestamp.
    pub built_at: String,
    /// Tokenizer model used for the token counts.
    pub tokenizer: String,
}

/// The contents of `skillet.lock`.
#[derive(Debug)]
pub struct Lockfile {
    /// Build metadata, once a build ran.
    pub meta: Option<LockMeta>,
    /// Per-skill records, keyed by skill name.
    pub skills: StrMap<SkillEntry>,
    /// Per-fragment records, keyed by fragment name.
    pub fragments: StrMap<FragmentLockEntry>,
}

impl Lockfile {
    /// The maps are well formed.
    pub open spec fn wf(&self) -> bool {
        self.skills.wf() && self.fragments.wf()
    }

    /// An empty lockfile.
    pub fn new() -> (r: Self)
        ensures
            r.wf(),
            r.meta is None,
            r.skills@ == Map::<Seq<char>, SkillEntry>::empty(),
            r.fragments@ == Map::<Seq<char>, FragmentLockEntry>::empty(),
    {
        Lockfile { meta: None, skills: StrMap::new(), fragments: StrMap::new() }
    }
}

impl Default for Lockfile {
    /// An empty lockfile.
    fn default() -> (r: Self)
        ensures
            r.wf(),
            r.meta is None,
            r.skills@ == Map::<Seq<char>, SkillEntry>::empty(),
            r.fragments@ == Map::<Seq<char>, FragmentLockEntry>::empty(),
    {
        Lockfile::new()
    }
}

/// The signature that the last of `ups` for skill `n` gives, if any.
pub open spec fn last_sig(ups: Seq<(Seq<char>, Seq<u64>)>, n: Seq<char>) -> Option<Seq<u64>>
    decreases ups.len(),
{
    if ups.len() == 0 {
        None
    } else if ups.last().0 == n {
        Some(ups.last().1)
    } else {
        last_sig(ups.drop_last(), n)
    }
}

/// `new` is `old` with the signature of each recorded skill replaced by the
/// last of `ups` for it, and nothing else changed.
pub open spec fn sigs_applied(
    old: Map<Seq<char>, SkillEntry>,
    new: Map<Seq<char>, SkillEntry>,
    ups: Seq<(Seq<char>, Seq<u64>)>,
) -> bool {
    &&& new.dom() == old.dom()
    &&& forall|n: Seq<char>|
        #[trigger] new.contains_key(n) ==> {
            let e = old[n];
            let f = new[n];
            &&& f.source_hash == e.source_hash
            &&& f.compiled_hash == e.compiled_hash
            &&& f.discovery_tokens == e.discovery_tokens
            &&& f.activation_tokens == e.activation_tokens
            &&& f.transitive_tokens == e.transitive_tokens
            &&& f.fragments_used == e.fragments_used
            &&& f.refs == e.refs
            &&& f.minhash@ == match last_sig(ups, n) {
                Some(sig) => sig,
                None => e.minhash@,
            }
        }
}

impl Lockfile {
    /// Records `sig` as the cached signature of skill `name`, when the
    /// lockfile has an entry for it; returns whether it has.
    pub fn set_minhash(&mut self, name: &str, sig: Vec<u64>) -> (r: bool)
        requires
            old(self).wf(),
        ensures
            final(self).wf(),
            final(self).meta == old(self).meta,
            final(self).fragments == old(self).fragments,
            r == old(self).skills@.contains_key(name@),
            sigs_applied(old(self).skills@, final(self).skills@, seq![(name@, sig@)]),
    {
        let ghost before = self.skills@;
        let blank = SkillEntry {
            source_hash: String::new(),
            compiled_hash: String::new(),
            discovery_tokens: 0,
            activation_tokens: 0,
            transitive_tokens: 0,
            fragments_used: Vec::new(),
            refs: SkillRefs::empty(),
            minhash: Vec::new(),
        };
        let ghost sv = sig@;
        match self.skills.replace(name, blank) {
            None => {
                proof {
                    assert(sigs_applied(before, self.skills@, seq![(name@, sv)])) by {
                        assert forall|n: Seq<char>| #[trigger] self.skills@.contains_key(n) implies last_sig(
                            seq![(name@, sv)],
                            n,
                        ) is None by {
                            assert(n != name@);
                            assert(seq![(name@, sv)].last() == (name@, sv));
                            assert(seq![(name@, sv)].drop_last() =~= Seq::<(Seq<char>, Seq<u64>)>::empty());
                            assert(last_sig(Seq::<(Seq<char>, Seq<u64>)>::empty(), n) is None);
                        }
                    }
                }
                false
            },
            Some(e) => {
                let entry = SkillEntry {
                    source_hash: e.source_hash,
                    compiled_hash: e.compiled_hash,
                    discovery_tokens: e.discovery_tokens,
                    activation_tokens: e.activation_tokens,
                    transitive_tokens: e.transitive_tokens,
                    fragments_used: e.fragments_used,
                    refs: e.refs,
                    minhash: sig,
                };
                let ghost ev = entry;
                let _ = self.skills.replace(name, entry);
                proof {
                    assert(self.skills@ =~= before.insert(name@, ev));
                    let one = seq![(name@, sv)];
                    assert(one.last() == (name@, sv));
                    assert(one.drop_last() =~= Seq::<(Seq<char>, Seq<u64>)>::empty());
                    assert(self.skills@.dom() =~= before.dom());
                    assert forall|n: Seq<char>| #[trigger] self.skills@.contains_key(n) implies {
                        let e = before[n];
                        let f = self.skills@[n];
                        &&& f.source_hash == e.source_hash
                        &&& f.compiled_hash == e.compiled_hash
                        &&& f.discovery_tokens == e.discovery_tokens
                        &&& f.activation_tokens == e.activation_tokens
                        &&& f.transitive_tokens == e.transitive_tokens
                        &&& f.fragments_used == e.fragments_used
                        &&& f.refs == e.refs
                        &&& f.minhash@ == match last_sig(one, n) {
                            Some(sig) => sig,
                            None => e.minhash@,
                        }
                    } by {
                        assert(last_sig(Seq::<(Seq<char>, Seq<u64>)>::empty(), n) is None);
                        if n == name@ {
                            assert(last_sig(one, n) == Some(sv));
                        } else {
                            assert(last_sig(one, n) is None);
                        }
                    }
                }
                true
            },
        }
    }

    /// Records each of the signatures `updated` for its skill, when the
    /// lockfile has an entry for it; returns whether any was recorded.
    pub fn apply_minhash(&mut self, updated: Vec<(String, Vec<u64>)>) -> (r: bool)
        requires
            old(self).wf(),
        ensures
            final(self).wf(),
            final(self).meta == old(self).meta,
            final(self).fragments == old(self).fragments,
            r == exists|i: int| 0 <= i < updated@.len() && old(self).skills@.contains_key(#[trigger] updated@[i].0@),
            sigs_applied(
                old(self).skills@,
                final(self).skills@,
                updated@.map_values(|p: (String, Vec<u64>)| (p.0@, p.1@)),
            ),
    {
        let ghost orig = updated@;
        let ghost ups = orig.map_values(|p: (String, Vec<u64>)| (p.0@, p.1@));
        let ghost start = self.skills@;
        let mut rest = updated;
        let total = rest.len();
        let mut changed = false;
        let mut i: usize = 0;
        proof {
            assert(rest@ =~= orig.subrange(0, orig.len() as int));
            assert(sigs_applied(start, self.skills@, ups.subrange(0, 0))) by {
                assert forall|n: Seq<char>| #[trigger] self.skills@.contains_key(n) implies last_sig(
                    ups.subrange(0, 0),
                    n,
                ) is None by {}
            }
        }
        while rest.len() > 0
            invariant
                self.wf(),
                self.meta == old(self).meta,
                self.fragments == old(self).fragments,
                start == old(self).skills@,
                ups == orig.map_values(|p: (String, Vec<u64>)| (p.0@, p.1@)),
                i + rest@.len() == orig.len(),
                orig.len() == total,
                rest@ == orig.subrange(i as int, orig.len() as int),
                changed == exists|k: int| 0 <= k < i && start.contains_key(#[trigger] orig[k].0@),
                sigs_applied(start, self.skills@, ups.subrange(0, i as int)),
            decreases rest@.len(),
        {
            let ghost mid = self.skills@;
            let (name, sig) = rest.remove(0);
            proof {
                assert(orig[i as int] == (name, sig));
                assert(ups[i as int] == (name@, sig@));
            }
            let ghost sv = sig@;
            let found = self.set_minhash(name.as_str(), sig);
            proof {
                assert(start.dom() == mid.dom());
                assert(found == start.contains_key(name@));
                assert(ups.subrange(0, i + 1).drop_last() =~= ups.subrange(0, i as int));
                assert(ups.subrange(0, i + 1).last() == (name@, sv));
                assert(sigs_applied(start, self.skills@, ups.subrange(0, i + 1))) by {
                    assert forall|n: Seq<char>| #[trigger] self.skills@.contains_key(n) implies {
                        let e = start[n];
                        let f = self.skills@[n];
                        &&& f.source_hash == e.source_hash
                        &&& f.compiled_hash == e.compiled_hash
                        &&& f.discovery_tokens == e.discovery_tokens
                        &&& f.activation_tokens == e.activation_tokens
                        &&& f.transitive_tokens == e.transitive_tokens
                        &&& f.fragments_used == e.fragments_used
                        &&& f.refs == e.refs
                        &&& f.minhash@ == match last_sig(ups.subrange(0, i + 1), n) {
                            Some(sig) => sig,
                            None => e.minhash@,
                        }
                    } by {
                        assert(mid.contains_key(n));
                        if n != name@ {
                            assert(last_sig(seq![(name@, sv)], n) == last_sig(Seq::<(Seq<char>, Seq<u64>)>::empty(), n))
                                by {
                                assert(seq![(name@, sv)].drop_last() =~= Seq::<(Seq<char>, Seq<u64>)>::empty());
                            }
                        }
                    }
                }
                if found {
                    assert(start.contains_key(orig[i as int].0@));
                }
                assert(changed || found <==> exists|k: int| 0 <= k < i + 1 && start.contains_key(#[trigger] orig[k].0@))
                    by {
                    if exists|k: int| 0 <= k < i + 1 && start.contains_key(#[trigger] orig[k].0@) {
                        let k = choose|k: int| 0 <= k < i + 1 && start.contains_key(#[trigger] orig[k].0@);
                        if k < i {
                            assert(changed);
                        } else {
                            assert(found);
                        }
                    }
                }
            }
            changed = changed || found;
            i += 1;
        }
        proof {
            assert(ups.subrange(0, i as int) =~= ups);
        }
        changed
    }
}

} // verus!
