//! String-keyed collections kept in byte-lexicographic key order.
//!
//! [`StrMap`] and [`StrSet`] play the part of `BTreeMap<String, V>` and
//! `BTreeSet<String>`: iteration follows the order of the keys' UTF-8 bytes,
//! which is the order of `str`'s `Ord`.
use vstd::prelude::*;
use vstd::string::StringSliceAdditionalSpecFns;
use vstd::utf8::encode_utf8;

use crate::text::lemma_bytes_eq_iff_chars_eq;

verus! {

// ── Byte-lexicographic order ──────────────────────────────────────────────────

/// `a` comes strictly before `b` in byte-lexicographic order.
pub open spec fn lex_lt(a: Seq<u8>, b: Seq<u8>) -> bool
    decreases a.len(),
{
    if a.len() == 0 {
        b.len() > 0
    } else if b.len() == 0 {
        false
    } else if a[0] != b[0] {
        a[0] < b[0]
    } else {
        lex_lt(a.drop_first(), b.drop_first())
    }
}

/// The order of two character sequences: the order of their UTF-8 encodings.
pub open spec fn str_lt(a: Seq<char>, b: Seq<char>) -> bool {
    lex_lt(encode_utf8(a), encode_utf8(b))
}

/// The order is irreflexive.
pub proof fn lemma_lex_irrefl(a: Seq<u8>)
    ensures
        !lex_lt(a, a),
    decreases a.len(),
{
    if a.len() > 0 {
        lemma_lex_irrefl(a.drop_first());
    }
}

/// The order is transitive.
pub proof fn lemma_lex_trans(a: Seq<u8>, b: Seq<u8>, c: Seq<u8>)
    requires
        lex_lt(a, b),
        lex_lt(b, c),
    ensures
        lex_lt(a, c),
    decreases a.len(),
{
    if a.len() > 0 && b.len() > 0 && c.len() > 0 && a[0] == b[0] && b[0] == c[0] {
        lemma_lex_trans(a.drop_first(), b.drop_first(), c.drop_first());
    }
}

/// The order is total on distinct sequences, and asymmetric.
pub proof fn lemma_lex_total(a: Seq<u8>, b: Seq<u8>)
    ensures
        a != b ==> lex_lt(a, b) || lex_lt(b, a),
        !(lex_lt(a, b) && lex_lt(b, a)),
    decreases a.len(),
{
    if a.len() == 0 && b.len() == 0 {
        assert(a =~= b);
    }
    if a.len() > 0 && b.len() > 0 && a[0] == b[0] {
        lemma_lex_total(a.drop_first(), b.drop_first());
        if a != b {
            assert(a.drop_first() != b.drop_first()) by {
                if a.drop_first() == b.drop_first() {
                    assert(a =~= seq![a[0]] + a.drop_first());
                    assert(b =~= seq![b[0]] + b.drop_first());
                }
            }
        }
    }
}

/// Dropping a common prefix does not change the order.
proof fn lemma_lex_common_prefix(a: Seq<u8>, b: Seq<u8>, i: int)
    requires
        0 <= i <= a.len(),
        i <= b.len(),
        a.subrange(0, i) == b.subrange(0, i),
    ensures
        lex_lt(a, b) == lex_lt(a.subrange(i, a.len() as int), b.subrange(i, b.len() as int)),
    decreases i,
{
    if i > 0 {
        assert(a[0] == a.subrange(0, i)[0]);
        assert(b[0] == b.subrange(0, i)[0]);
        assert(a.drop_first().subrange(0, i - 1) =~= a.subrange(0, i).drop_first());
        assert(b.drop_first().subrange(0, i - 1) =~= b.subrange(0, i).drop_first());
        lemma_lex_common_prefix(a.drop_first(), b.drop_first(), i - 1);
        assert(a.drop_first().subrange(i - 1, a.len() - 1) =~= a.subrange(i, a.len() as int));
        assert(b.drop_first().subrange(i - 1, b.len() - 1) =~= b.subrange(i, b.len() as int));
    } else {
        assert(a.subrange(0, a.len() as int) =~= a);
        assert(b.subrange(0, b.len() as int) =~= b);
    }
}

/// Three-way byte-lexicographic comparison: negative, zero or positive as `a`
/// comes before, equals or comes after `b`.
pub fn compare_bytes(a: &[u8], b: &[u8]) -> (r: i8)
    ensures
        r < 0 <==> lex_lt(a@, b@),
        r == 0 <==> a@ == b@,
        r > 0 <==> lex_lt(b@, a@),
{
    let mut i: usize = 0;
    while i < a.len() && i < b.len() && a[i] == b[i]
        invariant
            i <= a@.len(),
            i <= b@.len(),
            a@.subrange(0, i as int) == b@.subrange(0, i as int),
        decreases a@.len() - i,
    {
        assert(a@.subrange(0, i + 1) =~= a@.subrange(0, i as int).push(a@[i as int]));
        assert(b@.subrange(0, i + 1) =~= b@.subrange(0, i as int).push(b@[i as int]));
        i += 1;
    }
    proof {
        lemma_lex_common_prefix(a@, b@, i as int);
        lemma_lex_common_prefix(b@, a@, i as int);
        lemma_lex_irrefl(a@);
        lemma_lex_total(a@, b@);
        let ra = a@.subrange(i as int, a@.len() as int);
        let rb = b@.subrange(i as int, b@.len() as int);
        if i < a.len() && i < b.len() {
            assert(ra[0] == a@[i as int]);
            assert(rb[0] == b@[i as int]);
        }
        if i == a.len() && i == b.len() {
            assert(a@ =~= a@.subrange(0, i as int));
            assert(b@ =~= b@.subrange(0, i as int));
        }
        if a@ == b@ {
            assert(i == a.len() && i == b.len()) by {
                if i < a.len() && i < b.len() {
                    assert(a@[i as int] == b@[i as int]);
                }
            }
        }
    }
    if i < a.len() && i < b.len() {
        if a[i] < b[i] {
            -1
        } else {
            1
        }
    } else if i < a.len() {
        1
    } else if i < b.len() {
        -1
    } else {
        0
    }
}

/// Three-way comparison of two strings, in the order of `str`'s `Ord`.
pub fn compare_str(a: &str, b: &str) -> (r: i8)
    ensures
        r < 0 <==> str_lt(a@, b@),
        r == 0 <==> a@ == b@,
        r > 0 <==> str_lt(b@, a@),
{
    proof {
        lemma_bytes_eq_iff_chars_eq(a@, b@);
    }
    compare_bytes(a.as_bytes(), b.as_bytes())
}

/// The keys of `ks` are in strictly increasing order.
pub open spec fn sorted_keys(ks: Seq<Seq<char>>) -> bool {
    forall|i: int, j: int| 0 <= i < j < ks.len() ==> str_lt(#[trigger] ks[i], #[trigger] ks[j])
}

/// Strictly increasing keys are distinct.
pub proof fn lemma_sorted_distinct(ks: Seq<Seq<char>>)
    requires
        sorted_keys(ks),
    ensures
        forall|i: int, j: int| 0 <= i < ks.len() && 0 <= j < ks.len() && i != j ==> ks[i] != ks[j],
{
    assert forall|i: int, j: int|
        0 <= i < ks.len() && 0 <= j < ks.len() && i != j implies ks[i] != ks[j] by {
        lemma_lex_irrefl(encode_utf8(ks[i]));
        if i < j {
            assert(str_lt(ks[i], ks[j]));
        } else {
            assert(str_lt(ks[j], ks[i]));
        }
    }
}

/// Two strictly increasing sequences with the same members are equal.
pub proof fn lemma_sorted_unique(a: Seq<Seq<char>>, b: Seq<Seq<char>>)
    requires
        sorted_keys(a),
        sorted_keys(b),
        a.to_set() == b.to_set(),
    ensures
        a == b,
    decreases a.len(),
{
    if a.len() == 0 {
        if b.len() > 0 {
            assert(b.to_set().contains(b[0]));
            assert(a.to_set().contains(b[0]));
        }
        assert(a =~= b);
    } else {
        assert(a.to_set().contains(a[0]));
        assert(b.to_set().contains(a[0]));
        let j = choose|j: int| 0 <= j < b.len() && b[j] == a[0];
        assert(b.to_set().contains(b[0]));
        assert(a.to_set().contains(b[0]));
        let i = choose|i: int| 0 <= i < a.len() && a[i] == b[0];
        if i > 0 && j > 0 {
            assert(str_lt(a[0], a[i]));
            assert(str_lt(b[0], b[j]));
            lemma_lex_total(encode_utf8(a[0]), encode_utf8(b[0]));
        }
        assert(a[0] == b[0]) by {
            if i > 0 && j == 0 {
            } else if i == 0 {
            } else {
                lemma_lex_total(encode_utf8(a[0]), encode_utf8(b[0]));
            }
        }
        lemma_sorted_distinct(a);
        lemma_sorted_distinct(b);
        let ta = a.drop_first();
        let tb = b.drop_first();
        assert(sorted_keys(ta)) by {
            assert forall|x: int, y: int| 0 <= x < y < ta.len() implies str_lt(#[trigger] ta[x], #[trigger] ta[y]) by {
                assert(ta[x] == a[x + 1] && ta[y] == a[y + 1]);
            }
        }
        assert(sorted_keys(tb)) by {
            assert forall|x: int, y: int| 0 <= x < y < tb.len() implies str_lt(#[trigger] tb[x], #[trigger] tb[y]) by {
                assert(tb[x] == b[x + 1] && tb[y] == b[y + 1]);
            }
        }
        assert(ta.to_set() =~= tb.to_set()) by {
            assert forall|x: Seq<char>| ta.to_set().contains(x) <==> tb.to_set().contains(x) by {
                if ta.to_set().contains(x) {
                    let k = choose|k: int| 0 <= k < ta.len() && ta[k] == x;
                    assert(a[k + 1] == x);
                    assert(a.to_set().contains(x));
                    assert(b.to_set().contains(x));
                    let m = choose|m: int| 0 <= m < b.len() && b[m] == x;
                    assert(m != 0);
                    assert(tb[m - 1] == x);
                }
                if tb.to_set().contains(x) {
                    let k = choose|k: int| 0 <= k < tb.len() && tb[k] == x;
                    assert(b[k + 1] == x);
                    assert(b.to_set().contains(x));
                    assert(a.to_set().contains(x));
                    let m = choose|m: int| 0 <= m < a.len() && a[m] == x;
                    assert(m != 0);
                    assert(ta[m - 1] == x);
                }
            }
        }
        lemma_sorted_unique(ta, tb);
        assert(a =~= seq![a[0]] + ta);
        assert(b =~= seq![b[0]] + tb);
    }
}

/// Appending an element adds exactly that element to what a sequence contains.
pub proof fn lemma_push_contains<A>(s: Seq<A>, a: A)
    ensures
        forall|x: A| #[trigger] s.push(a).contains(x) <==> (s.contains(x) || x == a),
        s.push(a).to_set() == s.to_set().insert(a),
{
    assert forall|x: A| #[trigger] s.push(a).contains(x) <==> (s.contains(x) || x == a) by {
        if s.contains(x) {
            let j = choose|j: int| 0 <= j < s.len() && s[j] == x;
            assert(s.push(a)[j] == x);
        }
        if x == a {
            assert(s.push(a)[s.len() as int] == a);
        }
        if s.push(a).contains(x) {
            let j = choose|j: int| 0 <= j < s.push(a).len() && s.push(a)[j] == x;
            if j < s.len() {
                assert(s[j] == x);
            }
        }
    }
    assert(s.push(a).to_set() =~= s.to_set().insert(a));
}

/// The views of a sequence of strings.
pub open spec fn string_views(v: Seq<String>) -> Seq<Seq<char>> {
    v.map_values(|s: String| s@)
}

// ── Map ───────────────────────────────────────────────────────────────────────

/// A map from strings to values, iterated in key order.
#[derive(Debug)]
pub struct StrMap<V> {
    keys: Vec<String>,
    vals: Vec<V>,
}

impl<V> StrMap<V> {
    /// The keys, in order.
    pub closed spec fn key_seq(&self) -> Seq<Seq<char>> {
        string_views(self.keys@)
    }

    /// The values, in key order.
    pub closed spec fn val_seq(&self) -> Seq<V> {
        self.vals@
    }

    /// The keys are strictly increasing and each has one value.
    pub closed spec fn wf(&self) -> bool {
        &&& self.keys@.len() == self.vals@.len()
        &&& sorted_keys(self.key_seq())
    }

    /// The position of `k` among the keys, or -1.
    pub open spec fn index_of(&self, k: Seq<char>) -> int {
        if exists|i: int| 0 <= i < self.key_seq().len() && self.key_seq()[i] == k {
            choose|i: int| 0 <= i < self.key_seq().len() && self.key_seq()[i] == k
        } else {
            -1
        }
    }

    /// The map as a mathematical map.
    pub open spec fn view(&self) -> Map<Seq<char>, V> {
        Map::new(
            |k: Seq<char>| self.index_of(k) >= 0,
            |k: Seq<char>| self.val_seq()[self.index_of(k)],
        )
    }

    /// The invariant gives one entry per key: position `i` holds key `i`'s value.
    pub proof fn lemma_entries(&self)
        requires
            self.wf(),
        ensures
            self.key_seq().len() == self.val_seq().len(),
            sorted_keys(self.key_seq()),
            forall|i: int|
                0 <= i < self.key_seq().len() ==> #[trigger] self.index_of(self.key_seq()[i]) == i,
            forall|k: Seq<char>| self.view().contains_key(k) <==> self.key_seq().contains(k),
            forall|i: int|
                0 <= i < self.key_seq().len() ==> #[trigger] self.view()[self.key_seq()[i]]
                    == self.val_seq()[i],
            self.view().dom().finite(),
            self.view().dom().len() == self.key_seq().len(),
    {
        let ks = self.key_seq();
        lemma_sorted_distinct(ks);
        assert forall|i: int| 0 <= i < ks.len() implies #[trigger] self.index_of(ks[i]) == i by {
            assert(ks[i] == ks[i]);
        }
        assert forall|k: Seq<char>| self.view().contains_key(k) <==> ks.contains(k) by {
            if ks.contains(k) {
                let i = choose|i: int| 0 <= i < ks.len() && ks[i] == k;
                assert(self.index_of(ks[i]) == i);
            }
        }
        ks.unique_seq_to_set();
        assert(self.view().dom() =~= ks.to_set());
    }

    /// Creates an empty map.
    pub fn new() -> (r: Self)
        ensures
            r.wf(),
            r.key_seq().len() == 0,
            r@ == Map::<Seq<char>, V>::empty(),
    {
        let r = StrMap { keys: Vec::new(), vals: Vec::new() };
        assert(r.key_seq() =~= Seq::<Seq<char>>::empty());
        assert(r@ =~= Map::<Seq<char>, V>::empty());
        r
    }

    /// The number of entries.
    pub fn len(&self) -> (r: usize)
        requires
            self.wf(),
        ensures
            r == self.key_seq().len(),
            r == self@.dom().len(),
    {
        proof {
            self.lemma_entries();
        }
        self.keys.len()
    }

    /// Whether the map has no entries.
    pub fn is_empty(&self) -> (r: bool)
        requires
            self.wf(),
        ensures
            r == (self.key_seq().len() == 0),
            r == (self@.dom().len() == 0),
    {
        proof {
            self.lemma_entries();
        }
        self.keys.len() == 0
    }

    /// The key at position `i`.
    pub fn key_at(&self, i: usize) -> (r: &String)
        requires
            i < self.key_seq().len(),
        ensures
            r@ == self.key_seq()[i as int],
    {
        &self.keys[i]
    }

    /// The value at position `i`.
    pub fn value_at(&self, i: usize) -> (r: &V)
        requires
            self.wf(),
            i < self.key_seq().len(),
        ensures
            *r == self.val_seq()[i as int],
    {
        &self.vals[i]
    }

    /// Where `key` is, or where it would go.
    fn search(&self, key: &str) -> (r: (usize, bool))
        requires
            self.wf(),
        ensures
            r.0 <= self.key_seq().len(),
            r.1 ==> r.0 < self.key_seq().len() && self.key_seq()[r.0 as int] == key@,
            !r.1 ==> (forall|i: int| 0 <= i < r.0 ==> str_lt(#[trigger] self.key_seq()[i], key@)),
            !r.1 ==> (forall|i: int|
                r.0 <= i < self.key_seq().len() ==> str_lt(key@, #[trigger] self.key_seq()[i])),
    {
        let mut i: usize = 0;
        while i < self.keys.len()
            invariant
                self.wf(),
                i <= self.key_seq().len(),
                forall|j: int| 0 <= j < i ==> str_lt(#[trigger] self.key_seq()[j], key@),
            decreases self.key_seq().len() - i,
        {
            let c = compare_str(self.keys[i].as_str(), key);
            if c == 0 {
                return (i, true);
            }
            if c > 0 {
                proof {
                    let ks = self.key_seq();
                    assert forall|j: int| i <= j < ks.len() implies str_lt(key@, #[trigger] ks[j]) by {
                        if j > i {
                            assert(str_lt(ks[i as int], ks[j]));
                            lemma_lex_trans(encode_utf8(key@), encode_utf8(ks[i as int]), encode_utf8(ks[j]));
                        }
                    }
                }
                return (i, false);
            }
            i += 1;
        }
        (i, false)
    }

    /// The value of `key`, if any.
    pub fn get(&self, key: &str) -> (r: Option<&V>)
        requires
            self.wf(),
        ensures
            r matches Some(v) ==> self@.contains_key(key@) && self@[key@] == *v,
            r is None ==> !self@.contains_key(key@),
    {
        proof {
            self.lemma_entries();
        }
        let (i, found) = self.search(key);
        if found {
            Some(&self.vals[i])
        } else {
            proof {
                if self.key_seq().contains(key@) {
                    let j = choose|j: int| 0 <= j < self.key_seq().len() && self.key_seq()[j] == key@;
                    lemma_lex_irrefl(encode_utf8(key@));
                    if j < i {
                        assert(str_lt(self.key_seq()[j], key@));
                    } else {
                        assert(str_lt(key@, self.key_seq()[j]));
                    }
                }
            }
            None
        }
    }

    /// Whether `key` has a value.
    pub fn contains_key(&self, key: &str) -> (r: bool)
        requires
            self.wf(),
        ensures
            r == self@.contains_key(key@),
    {
        self.get(key).is_some()
    }

    /// Sets the value of `key` when it has one, giving back the value it had;
    /// leaves the map as it is otherwise.
    pub fn replace(&mut self, key: &str, value: V) -> (r: Option<V>)
        requires
            old(self).wf(),
        ensures
            final(self).wf(),
            old(self)@.contains_key(key@) ==> r == Some(old(self)@[key@]) && final(self)@ == old(self)@.insert(
                key@,
                value,
            ),
            !old(self)@.contains_key(key@) ==> r is None && final(self)@ == old(self)@,
    {
        proof {
            self.lemma_entries();
        }
        let ghost old_keys = self.key_seq();
        let ghost old_vals = self.val_seq();
        let ghost k = key@;
        let ghost old_map = self@;
        let (i, found) = self.search(key);
        if !found {
            proof {
                if self.key_seq().contains(key@) {
                    let j = choose|j: int| 0 <= j < self.key_seq().len() && self.key_seq()[j] == key@;
                    lemma_lex_irrefl(encode_utf8(key@));
                    if j < i {
                        assert(str_lt(self.key_seq()[j], key@));
                    } else {
                        assert(str_lt(key@, self.key_seq()[j]));
                    }
                }
            }
            return None;
        }
        let prev = self.vals.remove(i);
        self.vals.insert(i, value);
        proof {
            assert(self.key_seq() == old_keys);
            assert(self.val_seq() =~= old_vals.update(i as int, value));
            assert(prev == old_vals[i as int]);
            assert(old_map[k] == old_vals[i as int]);
            self.lemma_entries();
            assert(self@ =~= old_map.insert(k, value)) by {
                assert forall|q: Seq<char>| self@.contains_key(q) <==> old_map.insert(k, value).contains_key(q) by {}
                assert forall|q: Seq<char>| #[trigger] self@.contains_key(q) implies self@[q] == old_map.insert(k, value)[q] by {
                    let j = self.index_of(q);
                    assert(0 <= j < old_keys.len());
                    assert(old_keys[j] == q);
                    assert(old_map[q] == old_vals[j]);
                    if q == k {
                        assert(j == i);
                    } else {
                        assert(j != i);
                    }
                }
            }
        }
        Some(prev)
    }

    /// Sets the value of `key`, replacing any value it had.
    pub fn insert(&mut self, key: String, value: V)
        requires
            old(self).wf(),
        ensures
            final(self).wf(),
            final(self)@ == old(self)@.insert(key@, value),
    {
        proof {
            self.lemma_entries();
        }
        let ghost old_keys = self.key_seq();
        let ghost old_vals = self.val_seq();
        let ghost k = key@;
        let ghost old_map = self@;
        let (i, found) = self.search(key.as_str());
        if found {
            self.vals.set(i, value);
            proof {
                assert(self.key_seq() == old_keys);
                assert(self.val_seq() == old_vals.update(i as int, value));
                self.lemma_entries();
                assert(self@ =~= old_map.insert(k, value)) by {
                    assert forall|q: Seq<char>| self@.contains_key(q) <==> old_map.insert(k, value).contains_key(q) by {}
                    assert forall|q: Seq<char>| #[trigger] self@.contains_key(q) implies self@[q] == old_map.insert(k, value)[q] by {
                        let j = self.index_of(q);
                        assert(0 <= j < old_keys.len());
                        assert(old_keys[j] == q);
                        assert(old_map[q] == old_vals[j]);
                        if q == k {
                            assert(j == i);
                        } else {
                            assert(j != i);
                        }
                    }
                }
            }
        } else {
            self.keys.insert(i, key);
            self.vals.insert(i, value);
            proof {
                assert(self.val_seq() == old_vals.insert(i as int, value));
                let ks = self.key_seq();
                assert(ks =~= old_keys.insert(i as int, k));
                assert(sorted_keys(ks)) by {
                    assert forall|a: int, b: int| 0 <= a < b < ks.len() implies str_lt(#[trigger] ks[a], #[trigger] ks[b]) by {
                        if b < i {
                        } else if a < i && b == i {
                        } else if a < i && b > i {
                            assert(ks[b] == old_keys[b - 1]);
                            lemma_lex_trans(encode_utf8(ks[a]), encode_utf8(k), encode_utf8(ks[b]));
                        } else if a == i {
                            assert(ks[b] == old_keys[b - 1]);
                        } else {
                            assert(ks[a] == old_keys[a - 1]);
                            assert(ks[b] == old_keys[b - 1]);
                        }
                    }
                }
                self.lemma_entries();
                assert(self@ =~= old_map.insert(k, value)) by {
                    assert forall|q: Seq<char>| self@.contains_key(q) <==> old_map.insert(k, value).contains_key(q) by {
                        if ks.contains(q) {
                            let j = choose|j: int| 0 <= j < ks.len() && ks[j] == q;
                            if j < i {
                                assert(old_keys[j] == q);
                            } else if j > i {
                                assert(old_keys[j - 1] == q);
                            }
                        }
                        if old_keys.contains(q) {
                            let j = choose|j: int| 0 <= j < old_keys.len() && old_keys[j] == q;
                            if j < i {
                                assert(ks[j] == q);
                            } else {
                                assert(ks[j + 1] == q);
                            }
                        }
                        if q == k {
                            assert(ks[i as int] == q);
                        }
                    }
                    assert forall|q: Seq<char>| #[trigger] self@.contains_key(q) implies self@[q] == old_map.insert(k, value)[q] by {
                        let j = self.index_of(q);
                        assert(ks[j] == q);
                        assert(self@[ks[j]] == self.val_seq()[j]);
                        lemma_lex_irrefl(encode_utf8(k));
                        if j < i {
                            assert(old_keys[j] == q);
                            assert(old_map[old_keys[j]] == old_vals[j]);
                            assert(str_lt(old_keys[j], k));
                            assert(q != k);
                        } else if j > i {
                            assert(old_keys[j - 1] == q);
                            assert(old_map[old_keys[j - 1]] == old_vals[j - 1]);
                            assert(str_lt(k, old_keys[j - 1]));
                            assert(q != k);
                        }
                    }
                }
            }
        }
    }
}

impl<V> StrMap<V> {
    /// A copy of the map, whose values are copied by `copy`.
    pub fn clone_with<F: Fn(&V) -> V>(&self, copy: &F) -> (r: Self)
        requires
            self.wf(),
            forall|v: &V| copy.requires((v,)),
            forall|v: &V, c: V| copy.ensures((v,), c) ==> c == *v,
        ensures
            r.wf(),
            r.key_seq() == self.key_seq(),
            r.val_seq() == self.val_seq(),
            r@ == self@,
    {
        let mut keys: Vec<String> = Vec::new();
        let mut vals: Vec<V> = Vec::new();
        let mut i: usize = 0;
        while i < self.keys.len()
            invariant
                self.wf(),
                forall|v: &V| copy.requires((v,)),
                forall|v: &V, c: V| copy.ensures((v,), c) ==> c == *v,
                i <= self.keys@.len(),
                keys@ == self.keys@.subrange(0, i as int),
                vals@ == self.vals@.subrange(0, i as int),
            decreases self.keys@.len() - i,
        {
            keys.push(self.keys[i].clone());
            let v = copy(&self.vals[i]);
            vals.push(v);
            proof {
                assert(keys@ =~= self.keys@.subrange(0, i + 1));
                assert(vals@ =~= self.vals@.subrange(0, i + 1));
            }
            i += 1;
        }
        proof {
            assert(keys@ =~= self.keys@);
            assert(vals@ =~= self.vals@);
        }
        StrMap { keys, vals }
    }
}

impl StrMap<String> {
    /// A copy of the map.
    pub fn clone_strings(&self) -> (r: Self)
        requires
            self.wf(),
        ensures
            r.wf(),
            r.key_seq() == self.key_seq(),
            r@ == self@,
    {
        let mut keys: Vec<String> = Vec::new();
        let mut vals: Vec<String> = Vec::new();
        let mut i: usize = 0;
        while i < self.keys.len()
            invariant
                self.wf(),
                i <= self.keys@.len(),
                keys@ == self.keys@.subrange(0, i as int),
                vals@ == self.vals@.subrange(0, i as int),
            decreases self.keys@.len() - i,
        {
            keys.push(self.keys[i].clone());
            vals.push(self.vals[i].clone());
            proof {
                assert(keys@ =~= self.keys@.subrange(0, i + 1));
                assert(vals@ =~= self.vals@.subrange(0, i + 1));
            }
            i += 1;
        }
        proof {
            assert(keys@ =~= self.keys@);
            assert(vals@ =~= self.vals@);
        }
        StrMap { keys, vals }
    }
}

// ── Set ───────────────────────────────────────────────────────────────────────

/// A set of strings, iterated in order.
#[derive(Debug)]
pub struct StrSet {
    items: StrMap<()>,
}

impl StrSet {
    /// The members, in order.
    pub closed spec fn item_seq(&self) -> Seq<Seq<char>> {
        self.items.key_seq()
    }

    /// The members are strictly increasing.
    pub closed spec fn wf(&self) -> bool {
        self.items.wf()
    }

    /// The set as a mathematical set.
    pub open spec fn view(&self) -> Set<Seq<char>> {
        self.item_seq().to_set()
    }

    /// The members are sorted and distinct.
    pub proof fn lemma_items(&self)
        requires
            self.wf(),
        ensures
            sorted_keys(self.item_seq()),
            self.view().finite(),
            self.view().len() == self.item_seq().len(),
    {
        self.items.lemma_entries();
        lemma_sorted_distinct(self.item_seq());
        self.item_seq().unique_seq_to_set();
    }

    /// Creates an empty set.
    pub fn new() -> (r: Self)
        ensures
            r.wf(),
            r.item_seq().len() == 0,
            r@ == Set::<Seq<char>>::empty(),
    {
        let r = StrSet { items: StrMap::new() };
        assert(r@ =~= Set::<Seq<char>>::empty());
        r
    }

    /// The number of members.
    pub fn len(&self) -> (r: usize)
        requires
            self.wf(),
        ensures
            r == self.item_seq().len(),
            r == self@.len(),
    {
        proof {
            self.lemma_items();
        }
        self.items.len()
    }

    /// Whether the set is empty.
    pub fn is_empty(&self) -> (r: bool)
        requires
            self.wf(),
        ensures
            r == (self@.len() == 0),
    {
        proof {
            self.lemma_items();
        }
        self.items.is_empty()
    }

    /// The member at position `i`.
    pub fn item_at(&self, i: usize) -> (r: &String)
        requires
            i < self.item_seq().len(),
        ensures
            r@ == self.item_seq()[i as int],
    {
        self.items.key_at(i)
    }

    /// Whether `s` is a member.
    pub fn contains(&self, s: &str) -> (r: bool)
        requires
            self.wf(),
        ensures
            r == self@.contains(s@),
    {
        proof {
            self.items.lemma_entries();
        }
        self.items.contains_key(s)
    }

    /// Adds `s`.
    pub fn insert(&mut self, s: String)
        requires
            old(self).wf(),
        ensures
            final(self).wf(),
            final(self)@ == old(self)@.insert(s@),
    {
        proof {
            self.items.lemma_entries();
        }
        let ghost old_set = self@;
        let ghost k = s@;
        self.items.insert(s, ());
        proof {
            self.items.lemma_entries();
            assert(self@ =~= old_set.insert(k));
        }
    }

    /// A copy of the set.
    pub fn clone_set(&self) -> (r: Self)
        requires
            self.wf(),
        ensures
            r.wf(),
            r.item_seq() == self.item_seq(),
            r@ == self@,
    {
        let mut items: StrMap<()> = StrMap { keys: Vec::new(), vals: Vec::new() };
        let mut i: usize = 0;
        while i < self.items.keys.len()
            invariant
                self.wf(),
                i <= self.items.keys@.len(),
                items.keys@ == self.items.keys@.subrange(0, i as int),
                items.vals@ == self.items.vals@.subrange(0, i as int),
            decreases self.items.keys@.len() - i,
        {
            items.keys.push(self.items.keys[i].clone());
            items.vals.push(());
            proof {
                assert(items.keys@ =~= self.items.keys@.subrange(0, i + 1));
                assert(items.vals@ =~= self.items.vals@.subrange(0, i + 1));
            }
            i += 1;
        }
        proof {
            assert(items.keys@ =~= self.items.keys@);
            assert(items.vals@ =~= self.items.vals@);
        }
        StrSet { items }
    }

    /// The members, in order, as a vector.
    pub fn to_vec(&self) -> (r: Vec<String>)
        requires
            self.wf(),
        ensures
            string_views(r@) == self.item_seq(),
    {
        let mut out: Vec<String> = Vec::new();
        let mut i: usize = 0;
        let n = self.items.len();
        while i < n
            invariant
                self.wf(),
                n == self.item_seq().len(),
                i <= n,
                string_views(out@) == self.item_seq().subrange(0, i as int),
            decreases n - i,
        {
            let ghost before = out@;
            let k = self.items.key_at(i);
            let s = k.clone();
            out.push(s);
            proof {
                assert(out@ == before.push(s));
                assert(s@ == self.item_seq()[i as int]);
                assert(string_views(out@) =~= string_views(before).push(s@));
                assert(string_views(out@) =~= self.item_seq().subrange(0, i + 1));
            }
            i += 1;
        }
        proof {
            assert(self.item_seq().subrange(0, n as int) =~= self.item_seq());
        }
        out
    }
}

// ── First uses ────────────────────────────────────────────────────────────────

/// `used` lists the items of `names` once each, in the order of their first
/// occurrence in `names`: every occurrence of a later item is preceded by an
/// occurrence of each earlier one.
pub open spec fn first_uses<A>(used: Seq<A>, names: Seq<A>) -> bool {
    &&& used.no_duplicates()
    &&& forall|x: A| used.contains(x) <==> names.contains(x)
    &&& forall|i: int, j: int, q: int|
        #![trigger used[i], used[j], names[q]]
        0 <= i < j < used.len() && 0 <= q < names.len() && names[q] == used[j] ==> names.subrange(
            0,
            q,
        ).contains(used[i])
}

/// Nothing is used of no names.
pub proof fn lemma_first_uses_empty<A>()
    ensures
        first_uses(Seq::<A>::empty(), Seq::<A>::empty()),
{
}

/// Appending a name keeps the list of first uses, extended by the name when
/// it is new.
pub proof fn lemma_first_uses_push<A>(used: Seq<A>, names: Seq<A>, x: A)
    requires
        first_uses(used, names),
    ensures
        first_uses(if used.contains(x) { used } else { used.push(x) }, names.push(x)),
{
    let n2 = names.push(x);
    let u2 = if used.contains(x) { used } else { used.push(x) };
    assert forall|y: A| u2.contains(y) <==> n2.contains(y) by {
        if n2.contains(y) {
            let k = choose|k: int| 0 <= k < n2.len() && n2[k] == y;
            if k < names.len() {
                assert(names[k] == y);
                assert(used.contains(y));
                let m = choose|m: int| 0 <= m < used.len() && used[m] == y;
                assert(u2[m] == y);
            } else if !used.contains(x) {
                assert(u2[used.len() as int] == y);
            }
        }
        if u2.contains(y) {
            let k = choose|k: int| 0 <= k < u2.len() && u2[k] == y;
            if k < used.len() {
                assert(used[k] == y);
                assert(names.contains(y));
                let m = choose|m: int| 0 <= m < names.len() && names[m] == y;
                assert(n2[m] == y);
            } else {
                assert(n2[names.len() as int] == y);
            }
        }
    }
    assert forall|i: int, j: int| 0 <= i < j < u2.len() implies u2[i] != u2[j] by {
        if j == used.len() {
            assert(u2[i] == used[i]);
            assert(used.contains(used[i]));
        } else {
            assert(u2[i] == used[i] && u2[j] == used[j]);
        }
    }
    assert forall|i: int, j: int, q: int|
        #![trigger u2[i], u2[j], n2[q]]
        0 <= i < j < u2.len() && 0 <= q < n2.len() && n2[q] == u2[j] implies n2.subrange(
        0,
        q,
    ).contains(u2[i]) by {
        assert(u2[i] == used[i]);
        if q < names.len() && j < used.len() {
            assert(u2[j] == used[j]);
            assert(names[q] == used[j]);
            assert(names.subrange(0, q).contains(used[i]));
            let p = choose|p: int| 0 <= p < q && names.subrange(0, q)[p] == used[i];
            assert(n2.subrange(0, q)[p] == used[i]);
        } else {
            if q < names.len() {
                assert(u2[j] == x);
                assert(names[q] == x);
                assert(names.contains(x));
                assert(used.contains(x));
                assert(false);
            }
            assert(used.contains(used[i]));
            assert(names.contains(used[i]));
            let p = choose|p: int| 0 <= p < names.len() && names[p] == used[i];
            if q == names.len() {
                assert(n2.subrange(0, q)[p] == used[i]);
            } else {
                assert(false);
            }
        }
    }
}

} // verus!
