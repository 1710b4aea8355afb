//! Byte-level text support shared by the lexer, the parser and the ref scanners.
//!
//! Text is modelled by its UTF-8 byte sequence (`s.spec_bytes()`), and a
//! `&str` by its character sequence (`s@`); the two are related by vstd's
//! `encode_utf8` / `decode_utf8`.
use vstd::prelude::*;
use vstd::string::StringSliceAdditionalSpecFns;
use vstd::utf8::*;

verus! {

/// The byte is ASCII (a complete one-byte UTF-8 scalar).
pub open spec fn is_ascii_byte(x: u8) -> bool {
    x < 128
}

/// Index `i` is a position between two scalars of `b` (or one of its ends).
pub open spec fn at_boundary(b: Seq<u8>, i: int) -> bool {
    &&& 0 <= i <= b.len()
    &&& (i == b.len() || !is_continuation_byte(b[i]))
}

/// A valid UTF-8 sequence is never started by a continuation byte.
pub proof fn lemma_valid_first_not_continuation(b: Seq<u8>)
    requires
        valid_utf8(b),
        b.len() > 0,
    ensures
        !is_continuation_byte(b[0]),
{
}

/// Positions that are not inside a multi-byte scalar are character boundaries.
pub proof fn lemma_at_boundary_is_char_boundary(b: Seq<u8>, i: int)
    requires
        valid_utf8(b),
        at_boundary(b, i),
    ensures
        is_char_boundary(b, i),
{
    if i == b.len() {
        is_char_boundary_start_end_of_seq(b);
    } else {
        is_char_boundary_iff_not_is_continuation_byte(b, i);
    }
}

/// The byte after an ASCII byte starts a new scalar.
pub proof fn lemma_after_ascii(b: Seq<u8>, j: int)
    requires
        valid_utf8(b),
        0 <= j < b.len(),
        is_ascii_byte(b[j]),
    ensures
        at_boundary(b, j + 1),
{
    is_char_boundary_iff_not_is_continuation_byte(b, j);
    valid_utf8_split(b, j);
    let r = b.subrange(j, b.len() as int);
    assert(r[0] == b[j]);
    assert(valid_first_scalar(r));
    assert(length_of_first_scalar(r) == 1);
    let rest = pop_first_scalar(r);
    assert(valid_utf8(rest));
    if j + 1 < b.len() {
        assert(rest[0] == b[j + 1]);
        lemma_valid_first_not_continuation(rest);
    }
}

/// Both ends of a valid sequence are boundaries.
pub proof fn lemma_ends_at_boundary(b: Seq<u8>)
    ensures
        at_boundary(b, b.len() as int),
        b.len() > 0 && valid_utf8(b) ==> at_boundary(b, 0),
{
    if b.len() > 0 && valid_utf8(b) {
        lemma_valid_first_not_continuation(b);
    }
}

/// The encoding of a `&str` is valid UTF-8 and decodes back to its characters.
pub proof fn lemma_str_bytes(s: &str)
    ensures
        valid_utf8(s.spec_bytes()),
        decode_utf8(s.spec_bytes()) == s@,
{
    encode_utf8_valid_utf8(s@);
    encode_utf8_decode_utf8(s@);
}

/// Two `&str` are equal as character sequences exactly when their encodings are.
pub proof fn lemma_bytes_eq_iff_chars_eq(a: Seq<char>, b: Seq<char>)
    ensures
        (encode_utf8(a) == encode_utf8(b)) <==> (a == b),
{
    encode_utf8_decode_utf8(a);
    encode_utf8_decode_utf8(b);
}

/// The text of `s` between byte offsets `start` and `end`, as a borrowed slice.
pub fn slice_str(s: &str, start: usize, end: usize) -> (r: &str)
    requires
        start <= end <= s.spec_bytes().len(),
        at_boundary(s.spec_bytes(), start as int),
        at_boundary(s.spec_bytes(), end as int),
    ensures
        r.spec_bytes() == s.spec_bytes().subrange(start as int, end as int),
        r@ == decode_utf8(s.spec_bytes().subrange(start as int, end as int)),
{
    let ghost b = s.spec_bytes();
    proof {
        lemma_str_bytes(s);
        lemma_at_boundary_is_char_boundary(b, end as int);
    }
    let (head, _tail) = s.split_at(end);
    let ghost h = head.spec_bytes();
    proof {
        assert(h == b.subrange(0, end as int));
        lemma_str_bytes(head);
        assert(at_boundary(h, start as int)) by {
            if start < end {
                assert(h[start as int] == b[start as int]);
            }
        }
        lemma_at_boundary_is_char_boundary(h, start as int);
    }
    let (_pre, mid) = head.split_at(start);
    proof {
        assert(mid.spec_bytes() =~= b.subrange(start as int, end as int));
        lemma_str_bytes(mid);
    }
    mid
}

/// Byte-wise equality of two slices.
pub fn bytes_eq(a: &[u8], b: &[u8]) -> (r: bool)
    ensures
        r == (a@ == b@),
{
    if a.len() != b.len() {
        return false;
    }
    let mut i: usize = 0;
    while i < a.len()
        invariant
            a@.len() == b@.len(),
            0 <= i <= a@.len(),
            forall|k: int| 0 <= k < i ==> a@[k] == b@[k],
        decreases a@.len() - i,
    {
        if a[i] != b[i] {
            return false;
        }
        i += 1;
    }
    assert(a@ =~= b@);
    true
}

/// Character-wise equality of two string slices.
pub fn str_eq(a: &str, b: &str) -> (r: bool)
    ensures
        r == (a@ == b@),
{
    let r = bytes_eq(a.as_bytes(), b.as_bytes());
    proof {
        lemma_bytes_eq_iff_chars_eq(a@, b@);
    }
    r
}

/// `pat` occurs in `b` at byte offset `i`.
pub open spec fn bytes_at(b: Seq<u8>, i: int, pat: Seq<u8>) -> bool {
    &&& 0 <= i
    &&& i + pat.len() <= b.len()
    &&& b.subrange(i, i + pat.len()) == pat
}

/// Whether `pat` occurs in `b` at byte offset `i`.
pub fn matches_at(b: &[u8], i: usize, pat: &[u8]) -> (r: bool)
    ensures
        r == bytes_at(b@, i as int, pat@),
{
    if i > b.len() || pat.len() > b.len() - i {
        return false;
    }
    let mut k: usize = 0;
    while k < pat.len()
        invariant
            i + pat@.len() <= b@.len(),
            b@.len() == b.len(),
            pat@.len() == pat.len(),
            0 <= k <= pat@.len(),
            forall|m: int| 0 <= m < k ==> b@[i + m] == pat@[m],
        decreases pat@.len() - k,
    {
        if b[i + k] != pat[k] {
            assert(b@.subrange(i as int, i + pat@.len())[k as int] != pat@[k as int]);
            return false;
        }
        k += 1;
    }
    assert(b@.subrange(i as int, i + pat@.len()) =~= pat@);
    true
}


// ── Building strings ──────────────────────────────────────────────────────────

/// `a` followed by `b`.
pub fn concat(a: &str, b: &str) -> (r: String)
    ensures
        r@ == a@ + b@,
{
    let mut r = String::from_str(a);
    r.append(b);
    r
}

/// `a`, `b` and `c`, one after the other.
pub fn concat3(a: &str, b: &str, c: &str) -> (r: String)
    ensures
        r@ == a@ + b@ + c@,
{
    let mut r = String::from_str(a);
    r.append(b);
    r.append(c);
    r
}

/// The decimal digits of `n`.
pub open spec fn decimal(n: nat) -> Seq<char>
    decreases n,
{
    if n < 10 {
        seq![digit_char(n)]
    } else {
        decimal(n / 10).push(digit_char(n % 10))
    }
}

/// The character of a decimal digit.
pub open spec fn digit_char(d: nat) -> char {
    if d == 0 {
        '0'
    } else if d == 1 {
        '1'
    } else if d == 2 {
        '2'
    } else if d == 3 {
        '3'
    } else if d == 4 {
        '4'
    } else if d == 5 {
        '5'
    } else if d == 6 {
        '6'
    } else if d == 7 {
        '7'
    } else if d == 8 {
        '8'
    } else {
        '9'
    }
}

fn digit_str(d: u64) -> (r: &'static str)
    requires
        d < 10,
    ensures
        r@ == seq![digit_char(d as nat)],
{
    proof {
        reveal_strlit("0");
        reveal_strlit("1");
        reveal_strlit("2");
        reveal_strlit("3");
        reveal_strlit("4");
        reveal_strlit("5");
        reveal_strlit("6");
        reveal_strlit("7");
        reveal_strlit("8");
        reveal_strlit("9");
    }
    if d == 0 {
        "0"
    } else if d == 1 {
        "1"
    } else if d == 2 {
        "2"
    } else if d == 3 {
        "3"
    } else if d == 4 {
        "4"
    } else if d == 5 {
        "5"
    } else if d == 6 {
        "6"
    } else if d == 7 {
        "7"
    } else if d == 8 {
        "8"
    } else {
        "9"
    }
}

/// The decimal representation of `n`, as `format!("{}", n)` writes it.
pub fn to_decimal(n: u64) -> (r: String)
    ensures
        r@ == decimal(n as nat),
    decreases n,
{
    if n < 10 {
        String::from_str(digit_str(n))
    } else {
        let mut r = to_decimal(n / 10);
        r.append(digit_str(n % 10));
        r
    }
}

// ── Whitespace ────────────────────────────────────────────────────────────────

/// Unicode `White_Space`, the property by which `char::is_whitespace` and
/// `str::trim` decide.
pub open spec fn is_ws(c: char) -> bool {
    let u = c as u32;
    ||| 9 <= u <= 13
    ||| u == 32
    ||| u == 0x85
    ||| u == 0xA0
    ||| u == 0x1680
    ||| 0x2000 <= u <= 0x200A
    ||| u == 0x2028
    ||| u == 0x2029
    ||| u == 0x202F
    ||| u == 0x205F
    ||| u == 0x3000
}

/// `cs` without its leading whitespace.
pub open spec fn trim_start_chars(cs: Seq<char>) -> Seq<char>
    decreases cs.len(),
{
    if cs.len() > 0 && is_ws(cs[0]) {
        trim_start_chars(cs.drop_first())
    } else {
        cs
    }
}

/// `cs` without its trailing whitespace.
pub open spec fn trim_end_chars(cs: Seq<char>) -> Seq<char>
    decreases cs.len(),
{
    if cs.len() > 0 && is_ws(cs.last()) {
        trim_end_chars(cs.drop_last())
    } else {
        cs
    }
}

/// `cs` without leading and trailing whitespace.
pub open spec fn trim_chars(cs: Seq<char>) -> Seq<char> {
    trim_end_chars(trim_start_chars(cs))
}

/// Whether `c` has the Unicode `White_Space` property.
pub fn is_whitespace_char(c: char) -> (r: bool)
    ensures
        r == is_ws(c),
{
    let u = c as u32;
    (9 <= u && u <= 13) || u == 32 || u == 0x85 || u == 0xA0 || u == 0x1680 || (0x2000 <= u && u <= 0x200A)
        || u == 0x2028 || u == 0x2029 || u == 0x202F || u == 0x205F || u == 0x3000
}

/// Leading whitespace up to `i` does not change the trimmed text.
proof fn lemma_trim_start_from(cs: Seq<char>, i: int)
    requires
        0 <= i <= cs.len(),
        forall|k: int| 0 <= k < i ==> is_ws(#[trigger] cs[k]),
    ensures
        trim_start_chars(cs) == trim_start_chars(cs.subrange(i, cs.len() as int)),
    decreases i,
{
    if i == 0 {
        assert(cs.subrange(0, cs.len() as int) =~= cs);
    } else {
        let d = cs.drop_first();
        assert forall|k: int| 0 <= k < i - 1 implies is_ws(#[trigger] d[k]) by {
            assert(d[k] == cs[k + 1]);
        }
        lemma_trim_start_from(d, i - 1);
        assert(d.subrange(i - 1, d.len() as int) =~= cs.subrange(i, cs.len() as int));
    }
}

/// Trailing whitespace from `e` on does not change the trimmed text.
proof fn lemma_trim_end_from(cs: Seq<char>, e: int)
    requires
        0 <= e <= cs.len(),
        forall|k: int| e <= k < cs.len() ==> is_ws(#[trigger] cs[k]),
    ensures
        trim_end_chars(cs) == trim_end_chars(cs.subrange(0, e)),
    decreases cs.len() - e,
{
    if e == cs.len() {
        assert(cs.subrange(0, e) =~= cs);
    } else {
        let d = cs.drop_last();
        assert forall|k: int| e <= k < d.len() implies is_ws(#[trigger] d[k]) by {
            assert(d[k] == cs[k]);
        }
        lemma_trim_end_from(d, e);
        assert(d.subrange(0, e) =~= cs.subrange(0, e));
    }
}

/// `s` without its leading Unicode whitespace, as `str::trim_start` gives it.
pub(crate) fn trim_start(s: &str) -> (r: &str)
    ensures
        r@ == trim_start_chars(s@),
{
    let n = s.unicode_len();
    let mut i: usize = 0;
    while i < n && is_whitespace_char(s.get_char(i))
        invariant
            n == s@.len(),
            i <= n,
            forall|k: int| 0 <= k < i ==> is_ws(#[trigger] s@[k]),
        decreases n - i,
    {
        i += 1;
    }
    proof {
        lemma_trim_start_from(s@, i as int);
        let t = s@.subrange(i as int, n as int);
        if i < n {
            assert(t[0] == s@[i as int]);
        }
    }
    s.substring_char(i, n)
}

/// `s` without its trailing Unicode whitespace, as `str::trim_end` gives it.
pub(crate) fn trim_end(s: &str) -> (r: &str)
    ensures
        r@ == trim_end_chars(s@),
{
    let n = s.unicode_len();
    let mut e: usize = n;
    while e > 0 && is_whitespace_char(s.get_char(e - 1))
        invariant
            n == s@.len(),
            e <= n,
            forall|k: int| e <= k < n ==> is_ws(#[trigger] s@[k]),
        decreases e,
    {
        e -= 1;
    }
    proof {
        lemma_trim_end_from(s@, e as int);
        let t = s@.subrange(0, e as int);
        if e > 0 {
            assert(t.last() == s@[e - 1]);
        }
    }
    s.substring_char(0, e)
}

/// `s` without its leading and trailing Unicode whitespace, as `str::trim`
/// gives it.
pub(crate) fn trim(s: &str) -> (r: &str)
    ensures
        r@ == trim_chars(s@),
{
    trim_end(trim_start(s))
}

/// The position of the first non-whitespace character of `cs` at or after `i`.
pub open spec fn skip_ws(cs: Seq<char>, i: int) -> int
    decreases cs.len() - i,
{
    if 0 <= i < cs.len() && is_ws(cs[i]) {
        skip_ws(cs, i + 1)
    } else {
        i
    }
}

/// The position of the first whitespace character of `cs` at or after `i`.
pub open spec fn word_end(cs: Seq<char>, i: int) -> int
    decreases cs.len() - i,
{
    if 0 <= i < cs.len() && !is_ws(cs[i]) {
        word_end(cs, i + 1)
    } else {
        i
    }
}

/// The whitespace-separated words of `cs` from position `i` on.
pub open spec fn words_from(cs: Seq<char>, i: int) -> Seq<Seq<char>>
    decreases cs.len() - i,
{
    let s = skip_ws(cs, i);
    if s < i || s >= cs.len() {
        Seq::empty()
    } else {
        let e = word_end(cs, s);
        if e <= s || e > cs.len() {
            Seq::empty()
        } else {
            seq![cs.subrange(s, e)] + words_from(cs, e)
        }
    }
}

/// The whitespace-separated words of `cs`: what `str::split_whitespace` yields.
pub open spec fn words(cs: Seq<char>) -> Seq<Seq<char>> {
    words_from(cs, 0)
}

/// The first whitespace-separated word of `cs`, if it has one: what
/// `split_whitespace().next()` returns.
pub open spec fn first_word(cs: Seq<char>) -> Option<Seq<char>> {
    if words(cs).len() > 0 {
        Some(words(cs)[0])
    } else {
        None
    }
}

/// The first run of characters of `s` without Unicode whitespace, as
/// `split_whitespace().next()` gives it.
pub(crate) fn first_word_of(s: &str) -> (r: Option<&str>)
    ensures
        r matches Some(w) ==> first_word(s@) == Some(w@),
        r is None ==> first_word(s@) is None,
{
    let ghost cs = s@;
    let n = s.unicode_len();
    let mut i: usize = 0;
    while i < n && is_whitespace_char(s.get_char(i))
        invariant
            n == cs.len(),
            cs == s@,
            i <= n,
            skip_ws(cs, 0) == skip_ws(cs, i as int),
        decreases n - i,
    {
        i += 1;
    }
    proof {
        assert(skip_ws(cs, i as int) == i as int);
    }
    if i == n {
        proof {
            assert(words(cs) =~= Seq::<Seq<char>>::empty());
        }
        return None;
    }
    let mut j: usize = i;
    while j < n && !is_whitespace_char(s.get_char(j))
        invariant
            n == cs.len(),
            cs == s@,
            i <= j <= n,
            word_end(cs, i as int) == word_end(cs, j as int),
        decreases n - j,
    {
        j += 1;
    }
    proof {
        assert(word_end(cs, j as int) == j as int);
        assert(j > i) by {
            if j == i {
                assert(!is_ws(cs[i as int]));
                assert(word_end(cs, i as int) == word_end(cs, i + 1));
            }
        }
        assert(words(cs) == seq![cs.subrange(i as int, j as int)] + words_from(cs, j as int));
        assert(words(cs)[0] == cs.subrange(i as int, j as int));
    }
    Some(s.substring_char(i, j))
}

/// The views of a sequence of string slices.
pub open spec fn str_views(v: Seq<&str>) -> Seq<Seq<char>> {
    v.map_values(|s: &str| s@)
}

/// Calls `str::split_whitespace`: the runs of characters without Unicode
/// whitespace, in order.
#[verifier::external_body]
pub(crate) fn split_whitespace(s: &str) -> (r: Vec<&str>)
    ensures
        str_views(r@) == words(s@),
{
    s.split_whitespace().collect()
}

// ── Byte searches ─────────────────────────────────────────────────────────────

/// The first position at or after `from` where `pat` occurs in `b`.
pub open spec fn find_from(b: Seq<u8>, pat: Seq<u8>, from: int) -> Option<int>
    decreases b.len() + 1 - from,
{
    if from < 0 || from + pat.len() > b.len() {
        None
    } else if bytes_at(b, from, pat) {
        Some(from)
    } else {
        find_from(b, pat, from + 1)
    }
}

/// Where the first occurrence of `pat` at or after `from` is.
pub fn find_bytes(b: &[u8], pat: &[u8], from: usize) -> (r: Option<usize>)
    ensures
        r matches Some(i) ==> find_from(b@, pat@, from as int) == Some(i as int),
        r is None ==> find_from(b@, pat@, from as int) is None,
{
    if pat.len() == 0 {
        if from <= b.len() {
            assert(bytes_at(b@, from as int, pat@)) by {
                assert(b@.subrange(from as int, from as int) =~= pat@);
            }
            return Some(from);
        }
        return None;
    }
    let mut i = from;
    while i <= b.len() && pat.len() <= b.len() - i
        invariant
            from <= i,
            pat@.len() >= 1,
            find_from(b@, pat@, i as int) == find_from(b@, pat@, from as int),
        decreases b@.len() - i,
    {
        if matches_at(b, i, pat) {
            return Some(i);
        }
        i += 1;
    }
    None
}


// ── Encoding of concatenations and prefixes ───────────────────────────────────

/// The encoding of a concatenation is the concatenation of the encodings.
pub proof fn lemma_encode_concat(a: Seq<char>, b: Seq<char>)
    ensures
        encode_utf8(a + b) == encode_utf8(a) + encode_utf8(b),
    decreases a.len(),
{
    if a.len() == 0 {
        assert(a + b =~= b);
        assert(encode_utf8(a) + encode_utf8(b) =~= encode_utf8(b));
    } else {
        lemma_encode_concat(a.drop_first(), b);
        assert((a + b).drop_first() =~= a.drop_first() + b);
        assert((a + b)[0] == a[0]);
        assert(encode_utf8(a + b) =~= encode_scalar(a[0] as u32) + encode_utf8(a.drop_first() + b));
        assert(encode_utf8(a) + encode_utf8(b) =~= encode_scalar(a[0] as u32) + (encode_utf8(
            a.drop_first(),
        ) + encode_utf8(b)));
    }
}

/// `p` is a prefix of `s` exactly when its encoding is a prefix of `s`'s encoding.
pub proof fn lemma_prefix_bytes_iff_chars(s: Seq<char>, p: Seq<char>)
    ensures
        bytes_at(encode_utf8(s), 0, encode_utf8(p)) <==> (p.len() <= s.len() && s.subrange(
            0,
            p.len() as int,
        ) == p),
{
    let bs = encode_utf8(s);
    let bp = encode_utf8(p);
    if p.len() <= s.len() && s.subrange(0, p.len() as int) == p {
        let rest = s.subrange(p.len() as int, s.len() as int);
        assert(s =~= p + rest);
        lemma_encode_concat(p, rest);
        assert(bs.subrange(0, bp.len() as int) =~= bp);
    }
    if bytes_at(bs, 0, bp) {
        let l = bp.len() as int;
        encode_utf8_valid_utf8(s);
        encode_utf8_valid_utf8(p);
        encode_utf8_decode_utf8(s);
        encode_utf8_decode_utf8(p);
        assert(bs.subrange(0, l) == bp);
        if !valid_utf8(bs.subrange(l, bs.len() as int)) {
            partial_valid_partial_invalid_utf8(bs, l);
        }
        if l < bs.len() {
            let rest = bs.subrange(l, bs.len() as int);
            lemma_valid_first_not_continuation(rest);
            assert(rest[0] == bs[l]);
            is_char_boundary_iff_not_is_continuation_byte(bs, l);
        } else {
            is_char_boundary_start_end_of_seq(bs);
        }
        decode_utf8_split(bs, l);
        let tail = decode_utf8(bs.subrange(l, bs.len() as int));
        assert(s == p + tail);
        assert(s.subrange(0, p.len() as int) =~= p);
    }
}

/// `n + 1`, truncated to 32 bits, as `(n + 1) as u32` computes it.
pub fn succ_u32(n: usize) -> (r: u32)
    ensures
        r == (n + 1) as u32,
{
    let t: u32 = #[verifier::truncate] (n as u32);
    let r: u32 = t.wrapping_add(1);
    assert(r == (n + 1) as u32) by (bit_vector)
        requires
            t == n as u32,
            r == t.wrapping_add(1),
    ;
    r
}

/// `p` is a suffix of `s` exactly when its encoding is a suffix of `s`'s encoding.
pub proof fn lemma_suffix_bytes_iff_chars(s: Seq<char>, p: Seq<char>)
    ensures
        (encode_utf8(p).len() <= encode_utf8(s).len() && bytes_at(
            encode_utf8(s),
            encode_utf8(s).len() - encode_utf8(p).len(),
            encode_utf8(p),
        )) <==> (p.len() <= s.len() && s.subrange(s.len() - p.len(), s.len() as int) == p),
{
    let bs = encode_utf8(s);
    let bp = encode_utf8(p);
    if p.len() <= s.len() && s.subrange(s.len() - p.len(), s.len() as int) == p {
        let head = s.subrange(0, s.len() - p.len());
        assert(s =~= head + p);
        lemma_encode_concat(head, p);
        assert(bs.subrange(bs.len() - bp.len(), bs.len() as int) =~= bp);
    }
    if bp.len() <= bs.len() && bytes_at(bs, bs.len() - bp.len(), bp) {
        let l = bs.len() - bp.len();
        encode_utf8_valid_utf8(s);
        encode_utf8_valid_utf8(p);
        encode_utf8_decode_utf8(s);
        encode_utf8_decode_utf8(p);
        assert(bs.subrange(l, bs.len() as int) == bp);
        if l < bs.len() {
            lemma_valid_first_not_continuation(bp);
            assert(bp[0] == bs[l]);
            is_char_boundary_iff_not_is_continuation_byte(bs, l);
        } else {
            is_char_boundary_start_end_of_seq(bs);
        }
        decode_utf8_split(bs, l);
        let head = decode_utf8(bs.subrange(0, l));
        assert(s == head + p);
        assert(s.subrange(s.len() - p.len(), s.len() as int) =~= p);
    }
}

// ── Splitting on newlines ─────────────────────────────────────────────────────

/// The pieces of `b` from offset `i` on, split at each newline byte: what
/// `str::split('\n')` yields, as byte ranges `(start, end)`.
pub open spec fn piece_ranges(b: Seq<u8>, i: int) -> Seq<(int, int)>
    decreases b.len() + 1 - i,
{
    if i < 0 || i > b.len() {
        Seq::empty()
    } else {
        match find_from(b, seq![10u8], i) {
            Some(j) => if i <= j < b.len() {
                seq![(i, j)] + piece_ranges(b, j + 1)
            } else {
                seq![(i, b.len() as int)]
            },
            None => seq![(i, b.len() as int)],
        }
    }
}

/// The texts of the byte ranges `rs` of `b`.
pub open spec fn range_texts(b: Seq<u8>, rs: Seq<(int, int)>) -> Seq<Seq<char>> {
    rs.map_values(|r: (int, int)| decode_utf8(b.subrange(r.0, r.1)))
}

/// The pieces of `s` between its newlines, as `str::split('\n')` yields them.
pub open spec fn split_newline(s: &str) -> Seq<Seq<char>> {
    split_newline_bytes(s.spec_bytes())
}

/// The pieces of the text whose bytes are `b`, between its newlines.
pub open spec fn split_newline_bytes(b: Seq<u8>) -> Seq<Seq<char>> {
    range_texts(b, piece_ranges(b, 0))
}

/// Found positions lie at or after the start and hold the pattern.
pub proof fn lemma_find_from_at(b: Seq<u8>, pat: Seq<u8>, from: int)
    requires
        0 <= from,
    ensures
        find_from(b, pat, from) matches Some(i) ==> from <= i && bytes_at(b, i, pat),
        find_from(b, pat, from) is None ==> forall|k: int|
            from <= k && k + pat.len() <= b.len() ==> !bytes_at(b, k, pat),
    decreases b.len() + 1 - from,
{
    if from + pat.len() <= b.len() && !bytes_at(b, from, pat) {
        lemma_find_from_at(b, pat, from + 1);
    }
}

/// Splits `s` at each newline, as `str::split('\n')` does.
pub fn split_newlines(s: &str) -> (r: Vec<&str>)
    ensures
        str_views(r@) == split_newline(s),
{
    let b = s.as_bytes();
    let ghost bs = b@;
    proof {
        lemma_str_bytes(s);
        lemma_ends_at_boundary(bs);
    }
    let nl: [u8; 1] = [10];
    assert(nl@ == seq![10u8]);
    let mut out: Vec<&str> = Vec::new();
    let mut i: usize = 0;
    let len = b.len();
    assert(at_boundary(bs, 0)) by {
        if bs.len() > 0 {
            lemma_valid_first_not_continuation(bs);
        }
    }
    loop
        invariant
            nl@ == seq![10u8],
            b@ == bs,
            len == bs.len(),
            bs == s.spec_bytes(),
            valid_utf8(bs),
            i <= bs.len(),
            at_boundary(bs, i as int),
            str_views(out@) + range_texts(bs, piece_ranges(bs, i as int)) == split_newline(s),
        decreases bs.len() + 1 - i,
    {
        let ghost before = out@;
        proof {
            lemma_find_from_at(bs, seq![10u8], i as int);
        }
        match find_bytes(b, nl.as_slice(), i) {
            Some(j) => {
                proof {
                    assert(bs.subrange(j as int, j + 1)[0] == bs[j as int]);
                    lemma_after_ascii(bs, j as int);
                    assert(j < len);
                }
                let piece = slice_str(s, i, j);
                out.push(piece);
                proof {
                    let rest = piece_ranges(bs, j + 1);
                    assert(piece_ranges(bs, i as int) == seq![(i as int, j as int)] + rest);
                    assert(range_texts(bs, seq![(i as int, j as int)] + rest) =~= seq![piece@] + range_texts(bs, rest));
                    assert(str_views(out@) =~= str_views(before).push(piece@));
                    assert(str_views(out@) + range_texts(bs, rest) =~= str_views(before) + (seq![piece@] + range_texts(bs, rest)));
                }
                i = j + 1;
            },
            None => {
                let piece = slice_str(s, i, b.len());
                out.push(piece);
                proof {
                    assert(piece_ranges(bs, i as int) == seq![(i as int, bs.len() as int)]);
                    assert(range_texts(bs, seq![(i as int, bs.len() as int)]) =~= seq![piece@]);
                    assert(str_views(out@) =~= str_views(before).push(piece@));
                    assert(str_views(out@) =~= split_newline(s));
                }
                return out;
            },
        }
    }
}

/// The pieces of `ps` joined with newlines, as `join("\n")` writes them.
pub open spec fn join_newline(ps: Seq<Seq<char>>) -> Seq<char>
    decreases ps.len(),
{
    if ps.len() == 0 {
        Seq::empty()
    } else if ps.len() == 1 {
        ps[0]
    } else {
        join_newline(ps.drop_last()) + seq!['\n'] + ps.last()
    }
}

/// Joins `parts` with newlines.
pub fn join_newlines(parts: &Vec<String>) -> (r: String)
    ensures
        r@ == join_newline(crate::collections::string_views(parts@)),
{
    let mut out = String::new();
    let mut i: usize = 0;
    proof {
        reveal_strlit("\n");
    }
    while i < parts.len()
        invariant
            i <= parts@.len(),
            out@ == join_newline(crate::collections::string_views(parts@).subrange(0, i as int)),
        decreases parts@.len() - i,
    {
        let ghost ps = crate::collections::string_views(parts@);
        proof {
            assert(ps.subrange(0, i + 1).drop_last() =~= ps.subrange(0, i as int));
            assert(ps.subrange(0, i + 1).last() == parts@[i as int]@);
            reveal_strlit("\n");
        }
        if i > 0 {
            out.append("\n");
        }
        out.append(parts[i].as_str());
        proof {
            if i == 0 {
                assert(out@ =~= parts@[0]@);
            }
        }
        i += 1;
    }
    proof {
        assert(crate::collections::string_views(parts@).subrange(0, parts@.len() as int) =~= crate::collections::string_views(parts@));
    }
    out
}

/// In the encoding of `a + b`, the end of `a` is a boundary, and the two
/// sides decode to `a` and `b`.
pub proof fn lemma_concat_split(a: Seq<char>, b: Seq<char>)
    ensures
        encode_utf8(a + b).subrange(0, encode_utf8(a).len() as int) == encode_utf8(a),
        encode_utf8(a + b).subrange(encode_utf8(a).len() as int, encode_utf8(a + b).len() as int)
            == encode_utf8(b),
        at_boundary(encode_utf8(a + b), encode_utf8(a).len() as int),
        decode_utf8(encode_utf8(a + b).subrange(0, encode_utf8(a).len() as int)) == a,
        decode_utf8(
            encode_utf8(a + b).subrange(encode_utf8(a).len() as int, encode_utf8(a + b).len() as int),
        ) == b,
{
    lemma_encode_concat(a, b);
    let ea = encode_utf8(a);
    let eb = encode_utf8(b);
    let e = encode_utf8(a + b);
    assert(e.subrange(0, ea.len() as int) =~= ea);
    assert(e.subrange(ea.len() as int, e.len() as int) =~= eb);
    encode_utf8_decode_utf8(a);
    encode_utf8_decode_utf8(b);
    encode_utf8_valid_utf8(b);
    if eb.len() > 0 {
        lemma_valid_first_not_continuation(eb);
        assert(e[ea.len() as int] == eb[0]);
    }
}

/// `s` without the suffix `p`, if it ends with it.
pub fn strip_suffix<'a>(s: &'a str, p: &str) -> (r: Option<&'a str>)
    ensures
        r matches Some(t) ==> p@.len() <= s@.len() && s@ == t@ + p@,
        r is None ==> !(p@.len() <= s@.len() && s@.subrange(s@.len() - p@.len(), s@.len() as int) == p@),
{
    let cs = s.as_bytes();
    let ps = p.as_bytes();
    proof {
        lemma_suffix_bytes_iff_chars(s@, p@);
    }
    if ps.len() > cs.len() {
        return None;
    }
    let cut = cs.len() - ps.len();
    if !matches_at(cs, cut, ps) {
        return None;
    }
    let ghost head = s@.subrange(0, s@.len() - p@.len());
    proof {
        assert(s@ =~= head + p@);
        lemma_concat_split(head, p@);
        lemma_str_bytes(s);
        lemma_ends_at_boundary(s.spec_bytes());
    }
    let t = slice_str(s, 0, cut);
    Some(t)
}

/// A line ending's carriage return: `s` without one trailing `\r`.
pub open spec fn strip_cr(x: Seq<char>) -> Seq<char> {
    if x.len() > 0 && x.last() == '\r' {
        x.drop_last()
    } else {
        x
    }
}

/// The lines of a text whose newline-separated pieces are `ps`: what
/// `str::lines` yields. A piece ended by a newline loses one trailing `\r`;
/// an empty last piece is no line.
pub open spec fn lines_of_pieces(ps: Seq<Seq<char>>) -> Seq<Seq<char>> {
    if ps.len() == 0 {
        Seq::empty()
    } else {
        let ended = ps.drop_last().map_values(|x: Seq<char>| strip_cr(x));
        if ps.last().len() == 0 {
            ended
        } else {
            ended.push(ps.last())
        }
    }
}

/// The lines of the text whose bytes are `b`, as `str::lines` yields them.
pub open spec fn text_lines_bytes(b: Seq<u8>) -> Seq<Seq<char>> {
    lines_of_pieces(split_newline_bytes(b))
}

/// The lines of `s`, as `str::lines` yields them.
pub open spec fn text_lines(s: &str) -> Seq<Seq<char>> {
    text_lines_bytes(s.spec_bytes())
}

/// Splits `s` into lines, as `str::lines` does.
pub fn lines(s: &str) -> (r: Vec<&str>)
    ensures
        str_views(r@) == text_lines(s),
{
    let pieces = split_newlines(s);
    let ghost ps = str_views(pieces@);
    let mut out: Vec<&str> = Vec::new();
    let n = pieces.len();
    if n == 0 {
        proof {
            assert(str_views(out@) =~= text_lines(s));
        }
        return out;
    }
    let mut i: usize = 0;
    proof {
        reveal_strlit("\r");
    }
    while i < n - 1
        invariant
            n == pieces@.len(),
            n >= 1,
            ps == str_views(pieces@),
            i <= n - 1,
            str_views(out@) == ps.drop_last().subrange(0, i as int).map_values(|x: Seq<char>| strip_cr(x)),
        decreases n - 1 - i,
    {
        let ghost before = out@;
        proof {
            reveal_strlit("\r");
        }
        let piece = pieces[i];
        let line = match strip_suffix(piece, "\r") {
            Some(t) => t,
            None => piece,
        };
        out.push(line);
        proof {
            assert(ps[i as int] == piece@);
            let x = piece@;
            assert(line@ == strip_cr(x)) by {
                reveal_strlit("\r");
                if x.len() > 0 && x.last() == '\r' {
                    assert(x.subrange(x.len() - 1, x.len() as int) =~= "\r"@);
                    assert(x.drop_last() =~= line@);
                } else {
                    if x.len() >= 1 && x.subrange(x.len() - 1, x.len() as int) == "\r"@ {
                        assert(x.last() == x.subrange(x.len() - 1, x.len() as int)[0]);
                    }
                }
            }
            assert(str_views(out@) =~= str_views(before).push(line@));
            assert(ps.drop_last().subrange(0, i + 1) =~= ps.drop_last().subrange(0, i as int).push(ps[i as int]));
            assert(str_views(out@) =~= ps.drop_last().subrange(0, i + 1).map_values(|x: Seq<char>| strip_cr(x)));
        }
        i += 1;
    }
    let last = pieces[n - 1];
    if !last.is_empty() {
        let ghost before = out@;
        out.push(last);
        proof {
            assert(str_views(out@) =~= str_views(before).push(last@));
        }
    }
    proof {
        assert(ps.drop_last().subrange(0, (n - 1) as int) =~= ps.drop_last());
        assert(ps.last() == last@);
        assert(str_views(out@) =~= text_lines(s));
    }
    out
}

/// `a + b - 1` in 32-bit wrapping arithmetic.
pub open spec fn wrapping_line(a: u32, b: u32) -> u32 {
    ((a as int + b as int - 1) % 0x1_0000_0000) as u32
}

/// `a + b - 1` in 32-bit wrapping arithmetic, as `a.wrapping_add(b).wrapping_sub(1)`.
pub fn line_offset_by(a: u32, b: u32) -> (r: u32)
    ensures
        r == wrapping_line(a, b),
{
    let s = a.wrapping_add(b);
    let r = s.wrapping_sub(1);
    assert(r == ((a as int + b as int - 1) % 0x1_0000_0000) as u32) by (bit_vector)
        requires
            s == a.wrapping_add(b),
            r == s.wrapping_sub(1),
    ;
    r
}

} // verus!
