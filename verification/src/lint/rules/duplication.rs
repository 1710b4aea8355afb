//! Rule: `duplication` — warns when near-verbatim passages are shared across
//! compiled skill outputs, suggesting extraction into a fragment.
//!
//! Uses MinHash signatures and LSH banding to pick candidate pairs of skills
//! before comparing their sentence windows. Signatures are cached in the
//! lockfile and reused when present.
use vstd::prelude::*;
use vstd::string::{StrSliceExecFns, StringSliceAdditionalSpecFns};
use vstd::utf8::{decode_utf8, encode_utf8, valid_utf8};

use crate::collections::string_views;
use crate::collections::{compare_str, str_lt, StrMap, StrSet};
use crate::lint::{copy_diagnostic, diag_views, Diagnostic, DiagnosticView, LintContext, Severity};
use crate::lockfile::Lockfile;
use crate::refs::has_prefix;
use crate::text::{
    at_boundary, bytes_at, find_from, lemma_after_ascii, lemma_ends_at_boundary, lemma_str_bytes, lines, slice_str, str_views,
    text_lines_bytes, trim_chars, trim_start_chars, words,
};

verus! {

// ── Detection constants ───────────────────────────────────────────────────────

/// Minimum number of consecutive sentences that must match to trigger a warning.
pub const MIN_SENTENCES: usize = 3;

/// Number of hash functions for MinHash signatures.
pub const NHASH: usize = 128;

/// Number of LSH bands.
pub const BANDS: usize = 16;

/// Rows per band (NHASH / BANDS).
pub const ROWS: usize = 8;

// ── Joining and normalising ───────────────────────────────────────────────────

/// The pieces of `ps` joined with single spaces, as `join(" ")` writes them.
pub open spec fn join_spaced(ps: Seq<Seq<char>>) -> Seq<char>
    decreases ps.len(),
{
    if ps.len() == 0 {
        Seq::empty()
    } else if ps.len() == 1 {
        ps[0]
    } else {
        join_spaced(ps.drop_last()) + seq![' '] + ps.last()
    }
}

/// Joins `parts` with single spaces.
fn join_strs(parts: &Vec<&str>) -> (r: String)
    ensures
        r@ == join_spaced(str_views(parts@)),
{
    let mut out = String::new();
    let mut i: usize = 0;
    while i < parts.len()
        invariant
            i <= parts@.len(),
            out@ == join_spaced(str_views(parts@).subrange(0, i as int)),
        decreases parts@.len() - i,
    {
        let ghost ps = str_views(parts@);
        proof {
            assert(ps.subrange(0, i + 1).drop_last() =~= ps.subrange(0, i as int));
            assert(ps.subrange(0, i + 1).last() == parts@[i as int]@);
            reveal_strlit(" ");
        }
        if i > 0 {
            out.append(" ");
        }
        out.append(parts[i]);
        proof {
            if i == 0 {
                assert(out@ =~= parts@[0]@);
            }
        }
        i += 1;
    }
    proof {
        assert(str_views(parts@).subrange(0, parts@.len() as int) =~= str_views(parts@));
    }
    out
}

/// Joins `v[from..to]` with single spaces.
fn join_window(v: &Vec<String>, from: usize, to: usize) -> (r: String)
    requires
        from <= to <= v@.len(),
    ensures
        r@ == join_spaced(string_views(v@).subrange(from as int, to as int)),
{
    let ghost ps = string_views(v@).subrange(from as int, to as int);
    let mut out = String::new();
    let mut i: usize = from;
    while i < to
        invariant
            from <= i <= to,
            to <= v@.len(),
            ps == string_views(v@).subrange(from as int, to as int),
            out@ == join_spaced(ps.subrange(0, i - from)),
        decreases to - i,
    {
        proof {
            assert(ps.subrange(0, i + 1 - from).drop_last() =~= ps.subrange(0, i - from));
            assert(ps.subrange(0, i + 1 - from).last() == v@[i as int]@);
            reveal_strlit(" ");
        }
        if i > from {
            out.append(" ");
        }
        out.append(v[i].as_str());
        proof {
            if i == from {
                assert(out@ =~= v@[i as int]@);
            }
        }
        i += 1;
    }
    proof {
        assert(ps.subrange(0, to - from) =~= ps);
    }
    out
}

/// `s` in lowercase, as `str::to_lowercase` maps it.
pub uninterp spec fn lowercase(s: Seq<char>) -> Seq<char>;

/// Calls `str::to_lowercase`.
#[verifier::external_body]
fn to_lowercase(s: &str) -> (r: String)
    ensures
        r@ == lowercase(s@),
{
    s.to_lowercase()
}

/// The words of `s` joined with single spaces, in lowercase.
pub open spec fn normalised(s: Seq<char>) -> Seq<char> {
    lowercase(join_spaced(words(s)))
}

/// Collapses the whitespace of `s` to single spaces and lowercases it.
pub fn normalise(s: &str) -> (r: String)
    ensures
        r@ == normalised(s@),
{
    let ws = crate::text::split_whitespace(s);
    let joined = join_strs(&ws);
    to_lowercase(joined.as_str())
}

// ── Front matter ──────────────────────────────────────────────────────────────

/// A line that closes the front matter: `---`, whitespace aside.
pub open spec fn fence_line(l: Seq<char>) -> bool {
    trim_chars(l) == "---"@
}

/// The position of the first closing line among `ls`.
pub open spec fn first_fence(ls: Seq<Seq<char>>) -> Option<int>
    decreases ls.len(),
{
    if ls.len() == 0 {
        None
    } else if fence_line(ls[0]) {
        Some(0)
    } else {
        match first_fence(ls.drop_first()) {
            Some(k) => Some(k + 1),
            None => None,
        }
    }
}

/// The bytes of the first `k` lines of `ls`, each counted with one byte for
/// its line end.
pub open spec fn lines_bytes(ls: Seq<Seq<char>>, k: int) -> int
    decreases k,
{
    if k <= 0 || k > ls.len() {
        0
    } else {
        lines_bytes(ls, k - 1) + encode_utf8(ls[k - 1]).len() + 1
    }
}

/// Where the front matter of `text` ends: the bytes after its opening line
/// and the offset into them past its closing line; nothing when `text` has
/// no complete front matter.
pub open spec fn frontmatter_cut(text: Seq<char>) -> Option<(Seq<u8>, int)> {
    let t = trim_start_chars(text);
    let tb = encode_utf8(t);
    if !has_prefix(t, "---"@) {
        None
    } else {
        match find_from(tb, seq![10u8], 0) {
            None => None,
            Some(i) => {
                let ab = tb.subrange(i + 1, tb.len() as int);
                match first_fence(text_lines_bytes(ab)) {
                    None => None,
                    Some(k) => Some((ab, lines_bytes(text_lines_bytes(ab), k + 1))),
                }
            },
        }
    }
}

/// The cut past the front matter of `text` falls inside the text and on a
/// character boundary. The line lengths it is counted from leave out a line
/// end's `\r`, so where they do not, it can fall elsewhere.
pub open spec fn strip_ok(text: Seq<char>) -> bool {
    match frontmatter_cut(text) {
        None => true,
        Some((ab, off)) => off <= ab.len() && at_boundary(ab, off),
    }
}

/// `text` without its front matter.
pub open spec fn stripped(text: Seq<char>) -> Seq<char> {
    match frontmatter_cut(text) {
        None => text,
        Some((ab, off)) => decode_utf8(ab.subrange(off, ab.len() as int)),
    }
}

/// Counting more lines counts no fewer bytes.
proof fn lemma_lines_bytes_mono(ls: Seq<Seq<char>>, j: int, k: int)
    requires
        0 <= j <= k <= ls.len(),
    ensures
        lines_bytes(ls, j) <= lines_bytes(ls, k),
    decreases k - j,
{
    if j < k {
        lemma_lines_bytes_mono(ls, j, k - 1);
    }
}

/// The first closing line at or after position `j` of `ls`, when none comes
/// before `j`.
proof fn lemma_first_fence_from(ls: Seq<Seq<char>>, j: int)
    requires
        0 <= j <= ls.len(),
        forall|m: int| 0 <= m < j ==> !fence_line(#[trigger] ls[m]),
    ensures
        first_fence(ls) == (match first_fence(ls.subrange(j, ls.len() as int)) {
            Some(k) => Some(k + j),
            None => None::<int>,
        }),
    decreases j,
{
    if j > 0 {
        assert(!fence_line(ls[0]));
        let d = ls.drop_first();
        assert forall|m: int| 0 <= m < j - 1 implies !fence_line(#[trigger] d[m]) by {
            assert(d[m] == ls[m + 1]);
        }
        lemma_first_fence_from(d, j - 1);
        assert(d.subrange(j - 1, d.len() as int) =~= ls.subrange(j, ls.len() as int));
    } else {
        assert(ls.subrange(0, ls.len() as int) =~= ls);
    }
}

/// The position of the first closing line among `ls`, or their number.
fn fence_index(ls: &Vec<&str>) -> (k: usize)
    ensures
        k <= ls@.len(),
        forall|m: int| 0 <= m < k ==> !fence_line(#[trigger] str_views(ls@)[m]),
        k < ls@.len() ==> fence_line(str_views(ls@)[k as int]),
{
    let mut k: usize = 0;
    while k < ls.len()
        invariant
            k <= ls@.len(),
            forall|m: int| 0 <= m < k ==> !fence_line(#[trigger] str_views(ls@)[m]),
        decreases ls@.len() - k,
    {
        let is_fence = crate::text::str_eq(crate::text::trim(ls[k]), "---");
        proof {
            reveal_strlit("---");
            assert(str_views(ls@)[k as int] == ls@[k as int]@);
        }
        if is_fence {
            return k;
        }
        k += 1;
    }
    k
}

/// Returns `text` without its YAML front matter, when it opens with `---`.
pub fn strip_frontmatter(text: &str) -> (r: &str)
    requires
        strip_ok(text@),
    ensures
        r@ == stripped(text@),
{
    let t = crate::text::trim_start(text);
    if !crate::refs::starts_with(t, "---") {
        return text;
    }
    let tb = t.as_bytes();
    let ghost tbs = tb@;
    proof {
        lemma_str_bytes(t);
        lemma_ends_at_boundary(tbs);
        crate::text::lemma_find_from_at(tbs, seq![10u8], 0);
    }
    let nl: [u8; 1] = [10];
    assert(nl@ == seq![10u8]);
    let i = match crate::text::find_bytes(tb, nl.as_slice(), 0) {
        Some(i) => i,
        None => {
            return text;
        },
    };
    proof {
        assert(bytes_at(tbs, i as int, seq![10u8]));
        assert(i + 1 <= tbs.len());
        assert(tbs.subrange(i as int, i + 1)[0] == tbs[i as int]);
        lemma_after_ascii(tbs, i as int);
    }
    let tlen = tb.len();
    let after = slice_str(t, i + 1, tlen);
    let ghost ab = tbs.subrange(i + 1, tbs.len() as int);
    proof {
        lemma_str_bytes(after);
        assert(after.spec_bytes() == ab);
    }
    let ls = lines(after);
    let ghost lv = str_views(ls@);
    let k = fence_index(&ls);
    proof {
        lemma_first_fence_from(lv, k as int);
    }
    if k == ls.len() {
        proof {
            assert(first_fence(lv.subrange(lv.len() as int, lv.len() as int)) is None);
        }
        return text;
    }
    proof {
        reveal_strlit("---");
        assert(fence_line(lv[k as int]));
        assert(first_fence(lv.subrange(k as int, lv.len() as int)) == Some(0int));
        assert(first_fence(lv) == Some(k as int));
        assert(frontmatter_cut(text@) == Some((ab, lines_bytes(lv, k + 1))));
    }
    let mut offset: usize = 0;
    let mut j: usize = 0;
    while j <= k
        invariant
            lv == str_views(ls@),
            ls@.len() == lv.len(),
            k < lv.len(),
            k < usize::MAX,
            j <= k + 1,
            offset == lines_bytes(lv, j as int),
            lines_bytes(lv, k + 1) <= ab.len(),
            ab.len() <= tbs.len(),
            tbs.len() <= usize::MAX,
        decreases k + 1 - j,
    {
        let line = ls[j];
        proof {
            lemma_str_bytes(line);
            lemma_lines_bytes_mono(lv, j + 1, k + 1);
        }
        offset = offset + line.len() + 1;
        j += 1;
    }
    proof {
        lemma_str_bytes(after);
        lemma_ends_at_boundary(ab);
    }
    let alen = after.as_bytes().len();
    slice_str(after, offset, alen)
}

/// Whether the cut past the front matter of `text` falls inside the text and
/// on a character boundary, so that the front matter can be stripped.
pub fn frontmatter_cut_ok(text: &str) -> (r: bool)
    ensures
        r == strip_ok(text@),
{
    let t = crate::text::trim_start(text);
    if !crate::refs::starts_with(t, "---") {
        return true;
    }
    let tb = t.as_bytes();
    let ghost tbs = tb@;
    proof {
        lemma_str_bytes(t);
        lemma_ends_at_boundary(tbs);
        crate::text::lemma_find_from_at(tbs, seq![10u8], 0);
    }
    let nl: [u8; 1] = [10];
    assert(nl@ == seq![10u8]);
    let i = match crate::text::find_bytes(tb, nl.as_slice(), 0) {
        Some(i) => i,
        None => {
            return true;
        },
    };
    proof {
        assert(bytes_at(tbs, i as int, seq![10u8]));
        assert(i + 1 <= tbs.len());
        assert(tbs.subrange(i as int, i + 1)[0] == tbs[i as int]);
        lemma_after_ascii(tbs, i as int);
    }
    let tlen = tb.len();
    let after = slice_str(t, i + 1, tlen);
    let ghost ab = tbs.subrange(i + 1, tbs.len() as int);
    proof {
        lemma_str_bytes(after);
        assert(after.spec_bytes() == ab);
    }
    let ls = lines(after);
    let ghost lv = str_views(ls@);
    let k = fence_index(&ls);
    proof {
        lemma_first_fence_from(lv, k as int);
    }
    if k == ls.len() {
        proof {
            assert(first_fence(lv.subrange(lv.len() as int, lv.len() as int)) is None);
        }
        return true;
    }
    proof {
        reveal_strlit("---");
        assert(fence_line(lv[k as int]));
        assert(first_fence(lv.subrange(k as int, lv.len() as int)) == Some(0int));
        assert(first_fence(lv) == Some(k as int));
        assert(frontmatter_cut(text@) == Some((ab, lines_bytes(lv, k + 1))));
    }
    let ab_exec = after.as_bytes();
    let alen = ab_exec.len();
    let mut offset: usize = 0;
    let mut j: usize = 0;
    while j <= k
        invariant
            lv == str_views(ls@),
            ls@.len() == lv.len(),
            k < lv.len(),
            k < usize::MAX,
            j <= k + 1,
            offset == lines_bytes(lv, j as int),
            offset <= alen,
            alen == ab.len(),
            frontmatter_cut(text@) == Some((ab, lines_bytes(lv, k + 1))),
        decreases k + 1 - j,
    {
        let line = ls[j];
        proof {
            lemma_str_bytes(line);
            lemma_lines_bytes_mono(lv, j + 1, k + 1);
        }
        let len = line.as_bytes().len();
        if len >= alen - offset {
            proof {
                assert(lines_bytes(lv, j + 1) == offset + len + 1);
            }
            return false;
        }
        offset = offset + len + 1;
        j += 1;
    }
    proof {
        assert(ab_exec@ == ab);
    }
    offset == alen || !(0x80u8 <= ab_exec[offset] && ab_exec[offset] <= 0xbfu8)
}

// ── Sentences ─────────────────────────────────────────────────────────────────

/// A line that takes part in the comparison: neither a heading nor a code
/// fence.
pub open spec fn kept_line(l: Seq<char>) -> bool {
    !has_prefix(l, "#"@) && !has_prefix(l, "```"@)
}

/// The lines of `ls` that take part in the comparison, in order.
pub open spec fn kept_lines(ls: Seq<Seq<char>>) -> Seq<Seq<char>>
    decreases ls.len(),
{
    if ls.len() == 0 {
        Seq::empty()
    } else {
        kept_lines(ls.drop_last()) + if kept_line(ls.last()) {
            seq![ls.last()]
        } else {
            Seq::empty()
        }
    }
}

/// The text that is split into sentences: the kept lines of `text` without
/// its front matter, joined with spaces.
pub open spec fn cleaned(text: Seq<char>) -> Seq<char> {
    join_spaced(kept_lines(text_lines_bytes(encode_utf8(stripped(text)))))
}

/// A byte that ends a sentence: `.`, `!` or `?`.
pub open spec fn is_stop(b: u8) -> bool {
    b == 46u8 || b == 33u8 || b == 63u8
}

/// The position of the first sentence end of `b` at or after `i`, or the
/// length of `b`.
pub open spec fn next_stop(b: Seq<u8>, i: int) -> int
    decreases b.len() - i,
{
    if i < 0 || i >= b.len() {
        b.len() as int
    } else if is_stop(b[i]) {
        i
    } else {
        next_stop(b, i + 1)
    }
}

/// The byte ranges of the sentences of `b` from offset `i` on, each with its
/// end mark; the last runs to the end of `b`.
pub open spec fn stop_ranges(b: Seq<u8>, i: int) -> Seq<(int, int)>
    decreases b.len() + 1 - i,
{
    if i < 0 || i > b.len() {
        Seq::empty()
    } else {
        let j = next_stop(b, i);
        if i <= j < b.len() {
            seq![(i, j + 1)] + stop_ranges(b, j + 1)
        } else {
            seq![(i, b.len() as int)]
        }
    }
}

/// The normalised texts of the ranges `rs` of `b`.
pub open spec fn range_sentences(b: Seq<u8>, rs: Seq<(int, int)>) -> Seq<Seq<char>> {
    rs.map_values(|r: (int, int)| normalised(decode_utf8(b.subrange(r.0, r.1))))
}

/// The texts of `ss` that are not empty, in order.
pub open spec fn nonempty(ss: Seq<Seq<char>>) -> Seq<Seq<char>>
    decreases ss.len(),
{
    if ss.len() == 0 {
        Seq::empty()
    } else {
        nonempty(ss.drop_last()) + if ss.last().len() > 0 {
            seq![ss.last()]
        } else {
            Seq::empty()
        }
    }
}

/// The normalised sentences of `text`, without empty ones.
pub open spec fn spec_sentences(text: Seq<char>) -> Seq<Seq<char>> {
    let b = encode_utf8(cleaned(text));
    nonempty(range_sentences(b, stop_ranges(b, 0)))
}

/// The next sentence end lies at or after `i` and, when inside `b`, is one.
proof fn lemma_next_stop(b: Seq<u8>, i: int)
    requires
        0 <= i <= b.len(),
    ensures
        i <= next_stop(b, i) <= b.len(),
        next_stop(b, i) < b.len() ==> is_stop(b[next_stop(b, i)]),
    decreases b.len() - i,
{
    if i < b.len() && !is_stop(b[i]) {
        lemma_next_stop(b, i + 1);
    }
}

/// The position of the first sentence end of `b` at or after `from`.
fn find_stop(b: &[u8], from: usize) -> (r: usize)
    requires
        from <= b@.len(),
    ensures
        r == next_stop(b@, from as int),
        from <= r <= b@.len(),
{
    let mut i = from;
    while i < b.len()
        invariant
            from <= i <= b@.len(),
            next_stop(b@, from as int) == next_stop(b@, i as int),
        decreases b@.len() - i,
    {
        let c = b[i];
        if c == 46 || c == 33 || c == 63 {
            return i;
        }
        i += 1;
    }
    i
}

/// The lines of `ls` that take part in the comparison.
fn keep_lines<'a>(ls: &Vec<&'a str>) -> (r: Vec<&'a str>)
    ensures
        str_views(r@) == kept_lines(str_views(ls@)),
{
    let ghost lv = str_views(ls@);
    let mut out: Vec<&str> = Vec::new();
    let mut k: usize = 0;
    while k < ls.len()
        invariant
            lv == str_views(ls@),
            k <= ls@.len(),
            str_views(out@) == kept_lines(lv.subrange(0, k as int)),
        decreases ls@.len() - k,
    {
        let l = ls[k];
        let ghost before = out@;
        proof {
            assert(lv.subrange(0, k + 1).drop_last() =~= lv.subrange(0, k as int));
            assert(lv.subrange(0, k + 1).last() == l@);
            reveal_strlit("#");
            reveal_strlit("```");
        }
        if !crate::refs::starts_with(l, "#") && !crate::refs::starts_with(l, "```") {
            out.push(l);
            proof {
                assert(str_views(out@) =~= str_views(before).push(l@));
            }
        } else {
            proof {
                assert(str_views(before) + Seq::<Seq<char>>::empty() =~= str_views(before));
            }
        }
        k += 1;
    }
    proof {
        assert(lv.subrange(0, ls@.len() as int) =~= lv);
    }
    out
}

/// Splits `text` into normalised sentences.
///
/// The front matter is dropped, headings and code-fence lines are skipped,
/// the remaining lines are joined with spaces and cut after each `.`, `!`
/// or `?`; each piece is normalised and empty ones are left out.
pub fn sentences(text: &str) -> (r: Vec<String>)
    requires
        strip_ok(text@),
    ensures
        string_views(r@) == spec_sentences(text@),
{
    let body = strip_frontmatter(text);
    let ls = lines(body);
    let kept = keep_lines(&ls);
    let cleaned_text = join_strs(&kept);
    let ct = cleaned_text.as_str();
    let b = ct.as_bytes();
    let ghost bs = b@;
    proof {
        lemma_str_bytes(body);
        lemma_str_bytes(ct);
        lemma_ends_at_boundary(bs);
        assert(bs == encode_utf8(cleaned(text@)));
    }
    let len = b.len();
    let mut out: Vec<String> = Vec::new();
    let mut start: usize = 0;
    let ghost mut done: Seq<(int, int)> = Seq::empty();
    assert(at_boundary(bs, 0)) by {
        if bs.len() > 0 {
            crate::text::lemma_valid_first_not_continuation(bs);
        }
    }
    loop
        invariant
            b@ == bs,
            len == bs.len(),
            bs == ct.spec_bytes(),
            bs == encode_utf8(cleaned(text@)),
            valid_utf8(bs),
            start <= bs.len(),
            at_boundary(bs, start as int),
            done + stop_ranges(bs, start as int) == stop_ranges(bs, 0),
            string_views(out@) == nonempty(range_sentences(bs, done)),
        decreases bs.len() + 1 - start,
    {
        let j = find_stop(b, start);
        let ghost before = out@;
        if j < len {
            proof {
                lemma_next_stop(bs, start as int);
                lemma_after_ascii(bs, j as int);
            }
            let piece = slice_str(ct, start, j + 1);
            let sentence = normalise(piece);
            let ghost r = (start as int, j + 1);
            proof {
                assert(stop_ranges(bs, start as int) == seq![r] + stop_ranges(bs, j + 1));
                assert(done.push(r) + stop_ranges(bs, j + 1) =~= done + stop_ranges(bs, start as int));
                assert(range_sentences(bs, done.push(r)) =~= range_sentences(bs, done).push(sentence@));
                assert(range_sentences(bs, done).push(sentence@).drop_last() =~= range_sentences(bs, done));
            }
            if !sentence.as_str().is_empty() {
                out.push(sentence);
                proof {
                    assert(string_views(out@) =~= string_views(before).push(sentence@));
                }
            } else {
                proof {
                    assert(sentence@.len() == 0);
                    assert(string_views(before) + Seq::<Seq<char>>::empty() =~= string_views(before));
                }
            }
            proof {
                done = done.push(r);
            }
            start = j + 1;
        } else {
            let piece = slice_str(ct, start, len);
            let sentence = normalise(piece);
            let ghost r = (start as int, len as int);
            proof {
                assert(stop_ranges(bs, start as int) == seq![r]);
                assert(done.push(r) =~= stop_ranges(bs, 0));
                assert(range_sentences(bs, done.push(r)) =~= range_sentences(bs, done).push(sentence@));
                assert(range_sentences(bs, done).push(sentence@).drop_last() =~= range_sentences(bs, done));
            }
            if !sentence.as_str().is_empty() {
                out.push(sentence);
                proof {
                    assert(string_views(out@) =~= string_views(before).push(sentence@));
                }
            } else {
                proof {
                    assert(sentence@.len() == 0);
                    assert(string_views(before) + Seq::<Seq<char>>::empty() =~= string_views(before));
                }
            }
            return out;
        }
    }
}

/// The windows of three consecutive sentences of `ss`, each joined with
/// spaces.
pub open spec fn windows_of(ss: Seq<Seq<char>>) -> Seq<Seq<char>> {
    if ss.len() < 3 {
        Seq::empty()
    } else {
        Seq::new((ss.len() - 2) as nat, |i: int| join_spaced(ss.subrange(i, i + 3)))
    }
}

/// The windows of [`MIN_SENTENCES`] consecutive sentences, each joined with
/// spaces.
fn windows(sents: &Vec<String>) -> (r: Vec<String>)
    ensures
        string_views(r@) == windows_of(string_views(sents@)),
{
    let mut out: Vec<String> = Vec::new();
    let n = sents.len();
    if n < MIN_SENTENCES {
        proof {
            assert(string_views(out@) =~= windows_of(string_views(sents@)));
        }
        return out;
    }
    let ghost ss = string_views(sents@);
    let mut i: usize = 0;
    while i < n - 2
        invariant
            n == sents@.len(),
            n >= 3,
            ss == string_views(sents@),
            i <= n - 2,
            string_views(out@) == windows_of(ss).subrange(0, i as int),
        decreases n - i,
    {
        let w = join_window(sents, i, i + MIN_SENTENCES);
        let ghost before = out@;
        out.push(w);
        proof {
            assert(string_views(out@) =~= string_views(before).push(w@));
            assert(windows_of(ss).subrange(0, i + 1) =~= windows_of(ss).subrange(0, i as int).push(
                join_spaced(ss.subrange(i as int, i + 3)),
            ));
        }
        i += 1;
    }
    proof {
        assert(windows_of(ss).subrange(0, (n - 2) as int) =~= windows_of(ss));
    }
    out
}

// ── MinHash ───────────────────────────────────────────────────────────────────

/// The offset basis of the 64-bit FNV hash.
pub const FNV_OFFSET: u64 = 14695981039346656037;

/// The prime of the 64-bit FNV hash.
pub const FNV_PRIME: u64 = 1099511628211;

/// The multiplier that mixes the seed in again.
pub const SEED_MIX: u64 = 6364136223846793005;

/// FNV-1a over `bs`, from the state `h`.
pub open spec fn fnv_fold(h: u64, bs: Seq<u8>) -> u64
    decreases bs.len(),
{
    if bs.len() == 0 {
        h
    } else {
        (fnv_fold(h, bs.drop_last()) ^ (bs.last() as u64)).wrapping_mul(FNV_PRIME)
    }
}

/// The hash of `bs` with `seed`: FNV-1a from a state that the seed alters,
/// with the seed mixed in again at the end.
pub open spec fn seeded_hash(bs: Seq<u8>, seed: u64) -> u64 {
    let h = fnv_fold(FNV_OFFSET ^ seed.wrapping_mul(FNV_PRIME), bs);
    (h ^ seed).wrapping_mul(SEED_MIX)
}

/// Hashes `s` mixed with `seed` using a deterministic 64-bit hash.
pub fn hash_with_seed(s: &str, seed: u64) -> (r: u64)
    ensures
        r == seeded_hash(s.spec_bytes(), seed),
{
    let b = s.as_bytes();
    let mut hash: u64 = FNV_OFFSET ^ seed.wrapping_mul(FNV_PRIME);
    let mut i: usize = 0;
    while i < b.len()
        invariant
            i <= b@.len(),
            b@ == s.spec_bytes(),
            hash == fnv_fold(FNV_OFFSET ^ seed.wrapping_mul(FNV_PRIME), b@.subrange(0, i as int)),
        decreases b@.len() - i,
    {
        proof {
            assert(b@.subrange(0, i + 1).drop_last() =~= b@.subrange(0, i as int));
        }
        hash = hash ^ (b[i] as u64);
        hash = hash.wrapping_mul(FNV_PRIME);
        i += 1;
    }
    proof {
        assert(b@.subrange(0, b@.len() as int) =~= b@);
    }
    hash = hash ^ seed;
    hash.wrapping_mul(SEED_MIX)
}

/// The least hash with `seed` of the texts `shs`; `u64::MAX` for none.
pub open spec fn min_hash(shs: Seq<Seq<char>>, seed: u64) -> u64
    decreases shs.len(),
{
    if shs.len() == 0 {
        u64::MAX
    } else {
        let m = min_hash(shs.drop_last(), seed);
        let h = seeded_hash(encode_utf8(shs.last()), seed);
        if h < m {
            h
        } else {
            m
        }
    }
}

/// The sentence windows of `text` that its signature is made from.
pub open spec fn shingles(text: Seq<char>) -> Seq<Seq<char>> {
    windows_of(spec_sentences(text))
}

/// The MinHash signature of `text`: for each of the [`NHASH`] seeds, the
/// least hash of its sentence windows.
pub open spec fn minhash_of(text: Seq<char>) -> Seq<u64> {
    Seq::new(NHASH as nat, |i: int| min_hash(shingles(text), i as u64))
}

/// Computes the MinHash signature ([`NHASH`] values) of the sentence windows
/// of `text`; every value is `u64::MAX` when it has fewer than
/// [`MIN_SENTENCES`] sentences.
pub fn compute_minhash(text: &str) -> (r: Vec<u64>)
    requires
        strip_ok(text@),
    ensures
        r@ == minhash_of(text@),
{
    let sents = sentences(text);
    let shs = windows(&sents);
    let ghost sh = string_views(shs@);
    let mut sig: Vec<u64> = Vec::new();
    let mut i: usize = 0;
    while i < NHASH
        invariant
            i <= NHASH,
            sig@.len() == i,
            forall|m: int| 0 <= m < i ==> #[trigger] sig@[m] == u64::MAX,
        decreases NHASH - i,
    {
        sig.push(u64::MAX);
        i += 1;
    }
    let mut k: usize = 0;
    while k < shs.len()
        invariant
            sh == string_views(shs@),
            k <= shs@.len(),
            sig@.len() == NHASH,
            forall|m: int| 0 <= m < NHASH ==> #[trigger] sig@[m] == min_hash(sh.subrange(0, k as int), m as u64),
        decreases shs@.len() - k,
    {
        let shingle = shs[k].as_str();
        proof {
            assert(sh.subrange(0, k + 1).drop_last() =~= sh.subrange(0, k as int));
            assert(sh.subrange(0, k + 1).last() == shingle@);
        }
        let mut j: usize = 0;
        while j < NHASH
            invariant
                sh == string_views(shs@),
                k < shs@.len(),
                shingle@ == sh[k as int],
                j <= NHASH,
                sig@.len() == NHASH,
                forall|m: int| 0 <= m < j ==> #[trigger] sig@[m] == min_hash(sh.subrange(0, k + 1), m as u64),
                forall|m: int| j <= m < NHASH ==> #[trigger] sig@[m] == min_hash(sh.subrange(0, k as int), m as u64),
            decreases NHASH - j,
        {
            let h = hash_with_seed(shingle, j as u64);
            proof {
                assert(sh.subrange(0, k + 1).drop_last() =~= sh.subrange(0, k as int));
                assert(sh.subrange(0, k + 1).last() == shingle@);
            }
            if h < sig[j] {
                sig.set(j, h);
            }
            j += 1;
        }
        k += 1;
    }
    proof {
        assert(sh.subrange(0, shs@.len() as int) =~= sh);
        assert(sig@ =~= minhash_of(text@));
    }
    sig
}

// ── LSH ───────────────────────────────────────────────────────────────────────

/// Band `k` of the signature `s`: its [`ROWS`] values from `k * ROWS` on.
pub open spec fn band(s: Seq<u64>, k: int) -> Seq<u64> {
    s.subrange(k * ROWS, k * ROWS + ROWS)
}

/// Two signatures agree on at least one of the [`BANDS`] bands.
pub open spec fn shares_band(a: Seq<u64>, b: Seq<u64>) -> bool {
    exists|k: int| 0 <= k < BANDS && #[trigger] band(a, k) == band(b, k)
}

/// The pairs `(i, j)` with `i < j < e` whose signatures share a band, by `j`.
pub open spec fn row_pairs(sigs: Seq<Seq<u64>>, i: int, e: int) -> Seq<(int, int)>
    decreases e - i,
{
    if e <= i + 1 {
        Seq::empty()
    } else {
        row_pairs(sigs, i, e - 1) + if shares_band(sigs[i], sigs[e - 1]) {
            seq![(i, e - 1)]
        } else {
            Seq::empty()
        }
    }
}

/// The pairs `(i, j)` with `i < n` and `i < j` whose signatures share a
/// band, by `i` and then by `j`.
pub open spec fn all_pairs(sigs: Seq<Seq<u64>>, n: int) -> Seq<(int, int)>
    decreases n,
{
    if n <= 0 {
        Seq::empty()
    } else {
        all_pairs(sigs, n - 1) + row_pairs(sigs, n - 1, sigs.len() as int)
    }
}

/// The candidate pairs of the signatures `sigs`: every pair of positions
/// `i < j` whose signatures share a band, in order.
pub open spec fn candidates(sigs: Seq<Seq<u64>>) -> Seq<(int, int)> {
    all_pairs(sigs, sigs.len() as int)
}

/// The views of a sequence of signatures.
pub open spec fn sig_views(sigs: Seq<Vec<u64>>) -> Seq<Seq<u64>> {
    sigs.map_values(|v: Vec<u64>| v@)
}

/// The positions of a sequence of pairs, as integers.
pub open spec fn pair_views(ps: Seq<(usize, usize)>) -> Seq<(int, int)> {
    ps.map_values(|p: (usize, usize)| (p.0 as int, p.1 as int))
}

/// Whether `a` and `b` agree on band `k`.
fn same_band(a: &Vec<u64>, b: &Vec<u64>, k: usize) -> (r: bool)
    requires
        a@.len() >= NHASH,
        b@.len() >= NHASH,
        k < BANDS,
    ensures
        r == (band(a@, k as int) == band(b@, k as int)),
{
    let start = k * ROWS;
    let mut i: usize = 0;
    while i < ROWS
        invariant
            start == k * ROWS,
            k < BANDS,
            a@.len() >= NHASH,
            b@.len() >= NHASH,
            i <= ROWS,
            forall|m: int| 0 <= m < i ==> #[trigger] a@[start + m] == b@[start + m],
        decreases ROWS - i,
    {
        if a[start + i] != b[start + i] {
            proof {
                assert(band(a@, k as int)[i as int] != band(b@, k as int)[i as int]);
            }
            return false;
        }
        i += 1;
    }
    proof {
        assert(band(a@, k as int) =~= band(b@, k as int)) by {
            assert forall|m: int| 0 <= m < ROWS implies band(a@, k as int)[m] == band(b@, k as int)[m] by {
                assert(a@[start + m] == b@[start + m]);
            }
        }
    }
    true
}

/// Whether `a` and `b` agree on any band.
fn share_a_band(a: &Vec<u64>, b: &Vec<u64>) -> (r: bool)
    requires
        a@.len() >= NHASH,
        b@.len() >= NHASH,
    ensures
        r == shares_band(a@, b@),
{
    let mut k: usize = 0;
    while k < BANDS
        invariant
            a@.len() >= NHASH,
            b@.len() >= NHASH,
            k <= BANDS,
            forall|m: int| 0 <= m < k ==> #[trigger] band(a@, m) != band(b@, m),
        decreases BANDS - k,
    {
        if same_band(a, b, k) {
            return true;
        }
        k += 1;
    }
    false
}

/// The candidate pairs of `sigs`: every pair of positions `i < j` whose
/// signatures agree on a band, in order.
fn lsh_candidates(sigs: &Vec<Vec<u64>>) -> (r: Vec<(usize, usize)>)
    requires
        forall|i: int| 0 <= i < sigs@.len() ==> (#[trigger] sigs@[i])@.len() >= NHASH,
    ensures
        pair_views(r@) == candidates(sig_views(sigs@)),
        forall|p: int| 0 <= p < r@.len() ==> (#[trigger] r@[p]).0 < r@[p].1 < sigs@.len(),
{
    let ghost sv = sig_views(sigs@);
    let n = sigs.len();
    let mut out: Vec<(usize, usize)> = Vec::new();
    let mut i: usize = 0;
    while i < n
        invariant
            sv == sig_views(sigs@),
            n == sigs@.len(),
            forall|x: int| 0 <= x < sigs@.len() ==> (#[trigger] sigs@[x])@.len() >= NHASH,
            i <= n,
            pair_views(out@) == all_pairs(sv, i as int),
            forall|p: int| 0 <= p < out@.len() ==> (#[trigger] out@[p]).0 < out@[p].1 < n,
        decreases n - i,
    {
        let mut j: usize = i + 1;
        let ghost base = all_pairs(sv, i as int);
        proof {
            assert(row_pairs(sv, i as int, i + 1) =~= Seq::<(int, int)>::empty());
            assert(pair_views(out@) =~= base + row_pairs(sv, i as int, i + 1));
        }
        while j < n
            invariant
                sv == sig_views(sigs@),
                n == sigs@.len(),
                forall|x: int| 0 <= x < sigs@.len() ==> (#[trigger] sigs@[x])@.len() >= NHASH,
                i < n,
                i + 1 <= j <= n,
                base == all_pairs(sv, i as int),
                pair_views(out@) == base + row_pairs(sv, i as int, j as int),
                forall|p: int| 0 <= p < out@.len() ==> (#[trigger] out@[p]).0 < out@[p].1 < n,
            decreases n - j,
        {
            let ghost before = out@;
            proof {
                assert(sv[i as int] == sigs@[i as int]@);
                assert(sv[j as int] == sigs@[j as int]@);
            }
            if share_a_band(&sigs[i], &sigs[j]) {
                out.push((i, j));
                proof {
                    assert(pair_views(out@) =~= pair_views(before).push((i as int, j as int)));
                }
            } else {
                proof {
                    assert(pair_views(before) + Seq::<(int, int)>::empty() =~= pair_views(before));
                }
            }
            proof {
                assert(row_pairs(sv, i as int, j + 1) == row_pairs(sv, i as int, j as int) + if shares_band(
                    sv[i as int],
                    sv[j as int],
                ) {
                    seq![(i as int, j as int)]
                } else {
                    Seq::empty()
                });
            }
            j += 1;
        }
        i += 1;
    }
    out
}

// ── Word overlap ──────────────────────────────────────────────────────────────

/// The distinct words of `s`.
pub open spec fn word_set(s: Seq<char>) -> Set<Seq<char>> {
    words(s).to_set()
}

/// The word overlap of `a` and `b` exceeds `num / den`: they are equal, or
/// the words they share make up more than that part of all their words.
pub open spec fn overlaps(a: Seq<char>, b: Seq<char>, num: int, den: int) -> bool {
    a == b || {
        let wa = word_set(a);
        let wb = word_set(b);
        wa.union(wb).len() > 0 && den * wa.intersect(wb).len() > num * wa.union(wb).len()
    }
}

/// The distinct words of `s`.
fn word_set_of(s: &str) -> (r: crate::collections::StrSet)
    ensures
        r.wf(),
        r@ == word_set(s@),
{
    let ws = crate::text::split_whitespace(s);
    let ghost wv = str_views(ws@);
    let mut set = crate::collections::StrSet::new();
    let mut i: usize = 0;
    proof {
        assert(wv.subrange(0, 0).to_set() =~= Set::<Seq<char>>::empty());
    }
    while i < ws.len()
        invariant
            wv == str_views(ws@),
            set.wf(),
            i <= ws@.len(),
            set@ == wv.subrange(0, i as int).to_set(),
        decreases ws@.len() - i,
    {
        set.insert(String::from_str(ws[i]));
        proof {
            assert(wv.subrange(0, i + 1) =~= wv.subrange(0, i as int).push(wv[i as int]));
            crate::collections::lemma_push_contains(wv.subrange(0, i as int), wv[i as int]);
        }
        i += 1;
    }
    proof {
        assert(wv.subrange(0, ws@.len() as int) =~= wv);
    }
    set
}

/// Whether the word overlap of `a` and `b` exceeds `num / den`.
pub fn overlap_exceeds(a: &str, b: &str, num: u64, den: u64) -> (r: bool)
    requires
        num <= 100,
        den <= 100,
    ensures
        r == overlaps(a@, b@, num as int, den as int),
{
    if crate::text::str_eq(a, b) {
        return true;
    }
    let wa = word_set_of(a);
    let wb = word_set_of(b);
    let mut inter = crate::collections::StrSet::new();
    let mut i: usize = 0;
    proof {
        wa.lemma_items();
        wb.lemma_items();
    }
    let n = wa.len();
    while i < n
        invariant
            wa.wf(),
            wb.wf(),
            inter.wf(),
            n == wa.item_seq().len(),
            i <= n,
            inter@ == wa.item_seq().subrange(0, i as int).to_set().intersect(wb@),
        decreases n - i,
    {
        let w = wa.item_at(i);
        let ghost prev = wa.item_seq().subrange(0, i as int);
        proof {
            assert(wa.item_seq().subrange(0, i + 1) =~= prev.push(w@));
            crate::collections::lemma_push_contains(prev, w@);
        }
        if wb.contains(w.as_str()) {
            inter.insert(w.clone());
        }
        proof {
            assert(inter@ =~= wa.item_seq().subrange(0, i + 1).to_set().intersect(wb@));
        }
        i += 1;
    }
    proof {
        assert(wa.item_seq().subrange(0, n as int) =~= wa.item_seq());
        inter.lemma_items();
        vstd::set_lib::lemma_set_intersect_union_lens(wa@, wb@);
        vstd::set_lib::lemma_len_intersect(wa@, wb@);
    }
    let shared = inter.len() as u128;
    let all = wa.len() as u128 + wb.len() as u128 - shared;
    assert((den as u128) * shared <= 100 * 0x1_0000_0000_0000_0000) by (nonlinear_arith)
        requires
            den <= 100,
            shared <= 0x1_0000_0000_0000_0000,
    ;
    assert((num as u128) * all <= 100 * 0x2_0000_0000_0000_0000) by (nonlinear_arith)
        requires
            num <= 100,
            all <= 0x2_0000_0000_0000_0000,
    ;
    all > 0 && (den as u128) * shared > (num as u128) * all
}

// ── Signatures ────────────────────────────────────────────────────────────────

/// The signature that the lockfile caches for skill `n`, when it has a
/// non-empty one.
pub open spec fn cached_sig(lock: &Lockfile, n: Seq<char>) -> Option<Seq<u64>> {
    if lock.skills@.contains_key(n) && lock.skills@[n].minhash@.len() > 0 {
        Some(lock.skills@[n].minhash@)
    } else {
        None
    }
}

/// The signature of skill `n` with compiled text `text`: the cached one, or
/// the one computed from the text.
pub open spec fn sig_of(lock: &Lockfile, n: Seq<char>, text: Seq<char>) -> Seq<u64> {
    match cached_sig(lock, n) {
        Some(s) => s,
        None => minhash_of(text),
    }
}

/// The signatures of the skills `names` with the texts `texts`.
pub open spec fn sigs_of(lock: &Lockfile, names: Seq<Seq<char>>, texts: Seq<Seq<char>>) -> Seq<Seq<u64>> {
    Seq::new(names.len(), |i: int| sig_of(lock, names[i], texts[i]))
}

/// The signatures that were computed rather than cached, with their skill
/// names, in order.
pub open spec fn computed_sigs(lock: &Lockfile, names: Seq<Seq<char>>, texts: Seq<Seq<char>>) -> Seq<
    (Seq<char>, Seq<u64>),
>
    decreases names.len(),
{
    if names.len() == 0 {
        Seq::empty()
    } else {
        let k = names.len() - 1;
        computed_sigs(lock, names.drop_last(), texts) + if cached_sig(lock, names[k]) is None {
            seq![(names[k], minhash_of(texts[k]))]
        } else {
            Seq::empty()
        }
    }
}

/// The views of signatures with their skill names.
pub open spec fn named_sig_views(v: Seq<(String, Vec<u64>)>) -> Seq<(Seq<char>, Seq<u64>)> {
    v.map_values(|p: (String, Vec<u64>)| (p.0@, p.1@))
}

/// A copy of the signature `v`.
pub(crate) fn copy_sig(v: &Vec<u64>) -> (r: Vec<u64>)
    ensures
        r@ == v@,
{
    let mut out: Vec<u64> = Vec::new();
    let mut i: usize = 0;
    while i < v.len()
        invariant
            i <= v@.len(),
            out@ == v@.subrange(0, i as int),
        decreases v@.len() - i,
    {
        out.push(v[i]);
        proof {
            assert(out@ =~= v@.subrange(0, i + 1));
        }
        i += 1;
    }
    proof {
        assert(out@ =~= v@);
    }
    out
}

// ── Matching windows ──────────────────────────────────────────────────────────

/// The longer of two passages, by bytes; `a` when they are as long.
pub open spec fn longer(a: Seq<char>, b: Seq<char>) -> Seq<char> {
    if encode_utf8(a).len() >= encode_utf8(b).len() {
        a
    } else {
        b
    }
}

/// The matches of window `a` against each of the windows `wb`: the longer
/// passage of each pair that overlaps by more than four fifths, with the
/// two skill names.
pub open spec fn matches_with(a: Seq<char>, wb: Seq<Seq<char>>, na: Seq<char>, nb: Seq<char>) -> Seq<
    (Seq<char>, Seq<char>, Seq<char>),
>
    decreases wb.len(),
{
    if wb.len() == 0 {
        Seq::empty()
    } else {
        matches_with(a, wb.drop_last(), na, nb) + if overlaps(a, wb.last(), 4, 5) {
            seq![(longer(a, wb.last()), na, nb)]
        } else {
            Seq::empty()
        }
    }
}

/// The matches of each of the windows `wa` against the windows `wb`.
pub open spec fn window_matches(wa: Seq<Seq<char>>, wb: Seq<Seq<char>>, na: Seq<char>, nb: Seq<char>) -> Seq<
    (Seq<char>, Seq<char>, Seq<char>),
>
    decreases wa.len(),
{
    if wa.len() == 0 {
        Seq::empty()
    } else {
        window_matches(wa.drop_last(), wb, na, nb) + matches_with(wa.last(), wb, na, nb)
    }
}

/// The matches of the windows of each candidate pair, in order.
pub open spec fn pair_matches(
    pairs: Seq<(int, int)>,
    wins: Seq<Seq<Seq<char>>>,
    names: Seq<Seq<char>>,
) -> Seq<(Seq<char>, Seq<char>, Seq<char>)>
    decreases pairs.len(),
{
    if pairs.len() == 0 {
        Seq::empty()
    } else {
        let p = pairs.last();
        pair_matches(pairs.drop_last(), wins, names) + window_matches(wins[p.0], wins[p.1], names[p.0], names[p.1])
    }
}

/// The views of matches held as passages and skill positions.
pub open spec fn match_views(ms: Seq<(String, usize, usize)>, names: Seq<Seq<char>>) -> Seq<
    (Seq<char>, Seq<char>, Seq<char>),
> {
    ms.map_values(|m: (String, usize, usize)| (m.0@, names[m.1 as int], names[m.2 as int]))
}

/// Adds the matches of windows `wa` (of skill `i`) against windows `wb` (of
/// skill `j`) to `out`.
fn add_window_matches(
    wa: &Vec<String>,
    wb: &Vec<String>,
    i: usize,
    j: usize,
    names: Ghost<Seq<Seq<char>>>,
    out: &mut Vec<(String, usize, usize)>,
)
    requires
        i < names@.len(),
        j < names@.len(),
        forall|q: int| 0 <= q < old(out)@.len() ==> (#[trigger] old(out)@[q]).1 < names@.len() && old(out)@[q].2 < names@.len(),
    ensures
        forall|q: int| 0 <= q < final(out)@.len() ==> (#[trigger] final(out)@[q]).1 < names@.len() && final(out)@[q].2 < names@.len(),
        match_views(final(out)@, names@) == match_views(old(out)@, names@) + window_matches(
            string_views(wa@),
            string_views(wb@),
            names@[i as int],
            names@[j as int],
        ),
{
    let ghost av = string_views(wa@);
    let ghost bv = string_views(wb@);
    let ghost na = names@[i as int];
    let ghost nb = names@[j as int];
    let ghost start = match_views(out@, names@);
    let mut x: usize = 0;
    proof {
        assert(start =~= start + window_matches(av.subrange(0, 0), bv, na, nb));
    }
    while x < wa.len()
        invariant
            av == string_views(wa@),
            bv == string_views(wb@),
            i < names@.len(),
            j < names@.len(),
            na == names@[i as int],
            nb == names@[j as int],
            x <= wa@.len(),
            forall|q: int| 0 <= q < out@.len() ==> (#[trigger] out@[q]).1 < names@.len() && out@[q].2 < names@.len(),
            match_views(out@, names@) == start + window_matches(av.subrange(0, x as int), bv, na, nb),
        decreases wa@.len() - x,
    {
        let a = wa[x].as_str();
        let ghost mid = match_views(out@, names@);
        let mut y: usize = 0;
        proof {
            assert(mid =~= mid + matches_with(a@, bv.subrange(0, 0), na, nb));
        }
        while y < wb.len()
            invariant
                bv == string_views(wb@),
                i < names@.len(),
                j < names@.len(),
                na == names@[i as int],
                nb == names@[j as int],
                y <= wb@.len(),
                forall|q: int| 0 <= q < out@.len() ==> (#[trigger] out@[q]).1 < names@.len() && out@[q].2 < names@.len(),
                match_views(out@, names@) == mid + matches_with(a@, bv.subrange(0, y as int), na, nb),
            decreases wb@.len() - y,
        {
            let b = wb[y].as_str();
            let ghost before = out@;
            proof {
                assert(bv.subrange(0, y + 1).drop_last() =~= bv.subrange(0, y as int));
                assert(bv.subrange(0, y + 1).last() == b@);
                lemma_str_bytes(a);
                lemma_str_bytes(b);
            }
            if overlap_exceeds(a, b, 4, 5) {
                let passage = if a.as_bytes().len() >= b.as_bytes().len() {
                    String::from_str(a)
                } else {
                    String::from_str(b)
                };
                let ghost pv = passage@;
                out.push((passage, i, j));
                proof {
                    assert(pv == longer(a@, b@));
                    assert(match_views(out@, names@) =~= match_views(before, names@).push((pv, na, nb)));
                    assert(matches_with(a@, bv.subrange(0, y + 1), na, nb) == matches_with(
                        a@,
                        bv.subrange(0, y as int),
                        na,
                        nb,
                    ) + seq![(pv, na, nb)]);
                    assert(match_views(out@, names@) =~= mid + matches_with(a@, bv.subrange(0, y + 1), na, nb));
                }
            } else {
                proof {
                    assert(matches_with(a@, bv.subrange(0, y + 1), na, nb) =~= matches_with(
                        a@,
                        bv.subrange(0, y as int),
                        na,
                        nb,
                    ));
                }
            }
            y += 1;
        }
        proof {
            assert(bv.subrange(0, wb@.len() as int) =~= bv);
            assert(av.subrange(0, x + 1).drop_last() =~= av.subrange(0, x as int));
            assert(av.subrange(0, x + 1).last() == a@);
        }
        x += 1;
    }
    proof {
        assert(av.subrange(0, wa@.len() as int) =~= av);
    }
}

// ── Clusters ──────────────────────────────────────────────────────────────────

/// A passage with the skills that share it, as values.
pub struct ClusterView {
    /// The passage.
    pub passage: Seq<char>,
    /// The skills that share it.
    pub skills: Set<Seq<char>>,
}

/// The views of clusters held as passages with sets of skills.
pub open spec fn cluster_views(cs: Seq<(String, StrSet)>) -> Seq<ClusterView> {
    cs.map_values(|c: (String, StrSet)| ClusterView { passage: c.0@, skills: c.1@ })
}

/// The position of the first cluster from `k` on whose passage overlaps
/// `p` by more than half.
pub open spec fn first_close_from(cs: Seq<ClusterView>, p: Seq<char>, k: int) -> Option<int>
    decreases cs.len() - k,
{
    if k < 0 || k >= cs.len() {
        None
    } else if overlaps(cs[k].passage, p, 1, 2) {
        Some(k)
    } else {
        first_close_from(cs, p, k + 1)
    }
}

/// Cluster `c` with the match of passage `p` between skills `a` and `b`
/// merged in: the longer passage is kept, and both skills are added.
pub open spec fn merged(c: ClusterView, p: Seq<char>, a: Seq<char>, b: Seq<char>) -> ClusterView {
    ClusterView {
        passage: if encode_utf8(p).len() > encode_utf8(c.passage).len() {
            p
        } else {
            c.passage
        },
        skills: c.skills.insert(a).insert(b),
    }
}

/// The clusters `cs` with the match `m` added: merged into the first
/// cluster that it overlaps by more than half, or as a cluster of its own.
pub open spec fn add_match(cs: Seq<ClusterView>, m: (Seq<char>, Seq<char>, Seq<char>)) -> Seq<ClusterView> {
    match first_close_from(cs, m.0, 0) {
        Some(k) => cs.update(k, merged(cs[k], m.0, m.1, m.2)),
        None => cs.push(ClusterView { passage: m.0, skills: Set::empty().insert(m.1).insert(m.2) }),
    }
}

/// The clusters that the matches `ms` form, taken in order.
pub open spec fn clusters_of(ms: Seq<(Seq<char>, Seq<char>, Seq<char>)>) -> Seq<ClusterView>
    decreases ms.len(),
{
    if ms.len() == 0 {
        Seq::empty()
    } else {
        add_match(clusters_of(ms.drop_last()), ms.last())
    }
}

/// Adds the match of passage `p` between skills `a` and `b` to `clusters`.
fn add_to_clusters(clusters: &mut Vec<(String, StrSet)>, p: String, a: &str, b: &str)
    requires
        forall|k: int| 0 <= k < old(clusters)@.len() ==> (#[trigger] old(clusters)@[k]).1.wf(),
    ensures
        forall|k: int| 0 <= k < final(clusters)@.len() ==> (#[trigger] final(clusters)@[k]).1.wf(),
        cluster_views(final(clusters)@) == add_match(cluster_views(old(clusters)@), (p@, a@, b@)),
{
    let ghost cv = cluster_views(clusters@);
    let ghost p0 = p@;
    let mut k: usize = 0;
    while k < clusters.len()
        invariant
            cv == cluster_views(clusters@),
            clusters@ == old(clusters)@,
            p0 == p@,
            forall|x: int| 0 <= x < clusters@.len() ==> (#[trigger] clusters@[x]).1.wf(),
            k <= clusters@.len(),
            first_close_from(cv, p@, 0) == first_close_from(cv, p@, k as int),
        decreases clusters@.len() - k,
    {
        proof {
            assert(cv[k as int].passage == clusters@[k as int].0@);
        }
        if overlap_exceeds(clusters[k].0.as_str(), p.as_str(), 1, 2) {
            proof {
                assert(first_close_from(cv, p@, k as int) == Some(k as int));
                assert(cv[k as int].skills == clusters@[k as int].1@);
            }
            let (old_passage, mut skills) = clusters.remove(k);
            let new_len = p.as_str().as_bytes().len();
            let old_len = old_passage.as_str().as_bytes().len();
            let passage = if new_len > old_len {
                p
            } else {
                old_passage
            };
            skills.insert(String::from_str(a));
            skills.insert(String::from_str(b));
            let ghost merged_view = ClusterView { passage: passage@, skills: skills@ };
            clusters.insert(k, (passage, skills));
            proof {
                assert(merged_view == merged(cv[k as int], p0, a@, b@));
                assert(cluster_views(clusters@) =~= cv.update(k as int, merged(cv[k as int], p0, a@, b@)));
                assert(add_match(cv, (p0, a@, b@)) == cv.update(k as int, merged(cv[k as int], p0, a@, b@)));
            }
            return;
        }
        k += 1;
    }
    let mut skills = StrSet::new();
    skills.insert(String::from_str(a));
    skills.insert(String::from_str(b));
    let ghost pv = p@;
    clusters.push((p, skills));
    proof {
        assert(first_close_from(cv, pv, k as int) is None);
        assert(cluster_views(clusters@) =~= cv.push(
            ClusterView { passage: pv, skills: Set::empty().insert(a@).insert(b@) },
        ));
    }
}

// ── Diagnostics ───────────────────────────────────────────────────────────────

/// The skills of a cluster in increasing order.
pub open spec fn sorted_members(s: Set<Seq<char>>) -> Seq<Seq<char>> {
    choose|v: Seq<Seq<char>>| crate::collections::sorted_keys(v) && v.to_set() == s
}

/// The first 120 characters of `p`.
pub open spec fn excerpt(p: Seq<char>) -> Seq<char> {
    if p.len() <= 120 {
        p
    } else {
        p.subrange(0, 120)
    }
}

/// The pieces of `ps` joined with `", "`.
pub open spec fn join_comma(ps: Seq<Seq<char>>) -> Seq<char>
    decreases ps.len(),
{
    if ps.len() == 0 {
        Seq::empty()
    } else if ps.len() == 1 {
        ps[0]
    } else {
        join_comma(ps.drop_last()) + ", "@ + ps.last()
    }
}

/// The message of a cluster shared by `skills` (in order) with `passage`.
pub open spec fn cluster_message(skills: Seq<Seq<char>>, passage: Seq<char>) -> Seq<char> {
    "passage shared across skills ["@ + join_comma(skills) + "]: \""@ + excerpt(passage)
        + "…\" — consider extracting to a fragment"@
}

/// The diagnostic of a cluster.
pub open spec fn cluster_diag(c: ClusterView) -> DiagnosticView {
    let skills = sorted_members(c.skills);
    DiagnosticView {
        rule: "duplication"@,
        severity: Severity::Warning,
        skill: "<workspace>"@,
        message: cluster_message(skills, c.passage),
        path: None,
        line: None,
        col: None,
        duplicated_text: Some(c.passage),
        affected_skills: Some(skills),
    }
}

/// The diagnostics of the clusters of at least two skills, in order.
pub open spec fn cluster_diags(cs: Seq<ClusterView>) -> Seq<DiagnosticView>
    decreases cs.len(),
{
    if cs.len() == 0 {
        Seq::empty()
    } else {
        cluster_diags(cs.drop_last()) + if cs.last().skills.len() >= 2 {
            seq![cluster_diag(cs.last())]
        } else {
            Seq::empty()
        }
    }
}

/// Joins `parts` with `", "`.
fn join_commas(parts: &Vec<String>) -> (r: String)
    ensures
        r@ == join_comma(string_views(parts@)),
{
    let mut out = String::new();
    let mut i: usize = 0;
    while i < parts.len()
        invariant
            i <= parts@.len(),
            out@ == join_comma(string_views(parts@).subrange(0, i as int)),
        decreases parts@.len() - i,
    {
        let ghost ps = string_views(parts@);
        proof {
            assert(ps.subrange(0, i + 1).drop_last() =~= ps.subrange(0, i as int));
            assert(ps.subrange(0, i + 1).last() == parts@[i as int]@);
        }
        if i > 0 {
            out.append(", ");
        }
        out.append(parts[i].as_str());
        proof {
            if i == 0 {
                assert(out@ =~= parts@[0]@);
            }
        }
        i += 1;
    }
    proof {
        assert(string_views(parts@).subrange(0, parts@.len() as int) =~= string_views(parts@));
    }
    out
}

/// The diagnostic of a cluster of passage `passage` shared by `skills`.
fn cluster_diagnostic(passage: String, skills: &StrSet) -> (r: Diagnostic)
    requires
        skills.wf(),
    ensures
        r@ == cluster_diag(ClusterView { passage: passage@, skills: skills@ }),
{
    let affected = skills.to_vec();
    proof {
        skills.lemma_items();
        let w = skills.item_seq();
        assert(crate::collections::sorted_keys(w) && w.to_set() == skills@);
        assert(exists|v: Seq<Seq<char>>| crate::collections::sorted_keys(v) && v.to_set() == skills@);
        let v = sorted_members(skills@);
        crate::collections::lemma_sorted_unique(v, w);
        assert(string_views(affected@) == sorted_members(skills@));
    }
    let joined = join_commas(&affected);
    let n = passage.as_str().unicode_len();
    let cut = if n <= 120 {
        n
    } else {
        120
    };
    let excerpt_text = passage.as_str().substring_char(0, cut);
    proof {
        assert(excerpt_text@ =~= excerpt(passage@));
    }
    let mut msg = String::from_str("passage shared across skills [");
    msg.append(joined.as_str());
    msg.append("]: \"");
    msg.append(excerpt_text);
    msg.append("…\" — consider extracting to a fragment");
    Diagnostic {
        rule: String::from_str("duplication"),
        severity: Severity::Warning,
        skill: String::from_str("<workspace>"),
        message: msg,
        path: None,
        line: None,
        col: None,
        duplicated_text: Some(passage),
        affected_skills: Some(affected),
    }
}

// ── Sorting by message ────────────────────────────────────────────────────────

/// Where a diagnostic with message `m` goes in `s`, which is sorted by
/// message: after every diagnostic whose message is not greater.
pub open spec fn ins_pos(s: Seq<DiagnosticView>, m: Seq<char>) -> int
    decreases s.len(),
{
    if s.len() == 0 {
        0
    } else if str_lt(m, s.last().message) {
        ins_pos(s.drop_last(), m)
    } else {
        s.len() as int
    }
}

/// `s` sorted by message, keeping the order of equal messages.
pub open spec fn sort_by_message(s: Seq<DiagnosticView>) -> Seq<DiagnosticView>
    decreases s.len(),
{
    if s.len() == 0 {
        s
    } else {
        let t = sort_by_message(s.drop_last());
        t.insert(ins_pos(t, s.last().message), s.last())
    }
}

/// The insertion position lies within the sequence.
proof fn lemma_ins_pos(s: Seq<DiagnosticView>, m: Seq<char>)
    ensures
        0 <= ins_pos(s, m) <= s.len(),
    decreases s.len(),
{
    if s.len() > 0 && str_lt(m, s.last().message) {
        lemma_ins_pos(s.drop_last(), m);
    }
}

/// Inserts `d` into `out`, which is sorted by message, after every
/// diagnostic whose message is not greater.
fn insert_by_message(out: &mut Vec<Diagnostic>, d: Diagnostic)
    ensures
        diag_views(final(out)@) == diag_views(old(out)@).insert(
            ins_pos(diag_views(old(out)@), d@.message),
            d@,
        ),
{
    let ghost v = diag_views(out@);
    let mut j: usize = out.len();
    proof {
        assert(v.subrange(0, j as int) =~= v);
    }
    let mut placed = false;
    while j > 0 && !placed
        invariant
            v == diag_views(out@),
            j <= out@.len(),
            ins_pos(v, d@.message) == ins_pos(v.subrange(0, j as int), d@.message),
            placed ==> j > 0 && !str_lt(d@.message, v[j - 1].message),
        decreases j + if placed {
            0int
        } else {
            1int
        },
    {
        proof {
            assert(v.subrange(0, j as int).drop_last() =~= v.subrange(0, j - 1));
            assert(v.subrange(0, j as int).last() == out@[j - 1]@);
        }
        if compare_str(d.message.as_str(), out[j - 1].message.as_str()) >= 0 {
            placed = true;
        } else {
            j -= 1;
        }
    }
    proof {
        if j > 0 {
            assert(v.subrange(0, j as int).last() == v[j - 1]);
            assert(ins_pos(v.subrange(0, j as int), d@.message) == j);
        }
    }
    let ghost dv = d@;
    out.insert(j, d);
    proof {
        assert(diag_views(out@) =~= v.insert(j as int, dv));
    }
}

/// Sorts `ds` by message, keeping the order of equal messages.
fn sort_diagnostics(ds: &Vec<Diagnostic>) -> (r: Vec<Diagnostic>)
    ensures
        diag_views(r@) == sort_by_message(diag_views(ds@)),
{
    let ghost v = diag_views(ds@);
    let mut out: Vec<Diagnostic> = Vec::new();
    let mut i: usize = 0;
    proof {
        assert(v.subrange(0, 0) =~= Seq::<DiagnosticView>::empty());
    }
    while i < ds.len()
        invariant
            v == diag_views(ds@),
            i <= ds@.len(),
            diag_views(out@) == sort_by_message(v.subrange(0, i as int)),
        decreases ds@.len() - i,
    {
        let d = copy_diagnostic(&ds[i]);
        proof {
            assert(v.subrange(0, i + 1).drop_last() =~= v.subrange(0, i as int));
            assert(v.subrange(0, i + 1).last() == d@);
        }
        insert_by_message(&mut out, d);
        i += 1;
    }
    proof {
        assert(v.subrange(0, ds@.len() as int) =~= v);
    }
    out
}

// ── The rule ──────────────────────────────────────────────────────────────────

/// Each text can be cut into sentences where the check needs it, and every
/// signature that the check compares has its [`NHASH`] values: the texts
/// whose signatures are computed, and every text once there are candidate
/// pairs to compare.
pub open spec fn texts_ok(lock: &Lockfile, names: Seq<Seq<char>>, texts: Seq<Seq<char>>) -> bool {
    &&& uncached_cut_ok(lock, names, texts)
    &&& names.len() >= 2 ==> forall|i: int|
        0 <= i < names.len() ==> (#[trigger] sig_of(lock, names[i], texts[i])).len() >= NHASH
    &&& (names.len() >= 2 && candidates(sigs_of(lock, names, texts)).len() > 0) ==> forall|i: int|
        0 <= i < names.len() ==> strip_ok(#[trigger] texts[i])
}

/// Every text whose signature is computed has front matter that can be cut.
pub open spec fn uncached_cut_ok(lock: &Lockfile, names: Seq<Seq<char>>, texts: Seq<Seq<char>>) -> bool {
    forall|i: int| 0 <= i < names.len() && #[trigger] cached_sig(lock, names[i]) is None ==> strip_ok(texts[i])
}

/// The sentence windows of each of `texts`.
pub open spec fn windows_of_texts(texts: Seq<Seq<char>>, n: nat) -> Seq<Seq<Seq<char>>> {
    Seq::new(n, |i: int| shingles(texts[i]))
}

/// What [`check`] gives for the skills `names` with the compiled texts
/// `texts`: the duplication diagnostics sorted by message, and the
/// signatures it computed.
pub open spec fn spec_check(lock: &Lockfile, names: Seq<Seq<char>>, texts: Seq<Seq<char>>) -> (
    Seq<DiagnosticView>,
    Seq<(Seq<char>, Seq<u64>)>,
) {
    let upd = computed_sigs(lock, names, texts);
    if names.len() < 2 {
        (Seq::empty(), upd)
    } else {
        let pairs = candidates(sigs_of(lock, names, texts));
        let ms = pair_matches(pairs, windows_of_texts(texts, names.len()), names);
        (sort_by_message(cluster_diags(clusters_of(ms))), upd)
    }
}

/// The signature of each skill, and those that were computed.
fn signatures(lockfile: &Lockfile, texts: &StrMap<String>) -> (r: (Vec<Vec<u64>>, Vec<(String, Vec<u64>)>))
    requires
        lockfile.wf(),
        texts.wf(),
        uncached_cut_ok(lockfile, texts.key_seq(), string_views(texts.val_seq())),
    ensures
        sig_views(r.0@) == sigs_of(lockfile, texts.key_seq(), string_views(texts.val_seq())),
        named_sig_views(r.1@) == computed_sigs(lockfile, texts.key_seq(), string_views(texts.val_seq())),
{
    let ghost names = texts.key_seq();
    let ghost tv = string_views(texts.val_seq());
    proof {
        texts.lemma_entries();
    }
    let n = texts.len();
    let mut sigs: Vec<Vec<u64>> = Vec::new();
    let mut updated: Vec<(String, Vec<u64>)> = Vec::new();
    let mut i: usize = 0;
    while i < n
        invariant
            lockfile.wf(),
            texts.wf(),
            names == texts.key_seq(),
            tv == string_views(texts.val_seq()),
            n == names.len(),
            tv.len() == names.len(),
            uncached_cut_ok(lockfile, names, tv),
            i <= n,
            sigs@.len() == i,
            forall|k: int| 0 <= k < i ==> (#[trigger] sigs@[k])@ == sig_of(lockfile, names[k], tv[k]),
            named_sig_views(updated@) == computed_sigs(lockfile, names.subrange(0, i as int), tv),
        decreases n - i,
    {
        let name = texts.key_at(i);
        let text = texts.value_at(i);
        let ghost before = updated@;
        proof {
            assert(names.subrange(0, i + 1).drop_last() =~= names.subrange(0, i as int));
            assert(names.subrange(0, i + 1)[i as int] == names[i as int]);
        }
        let cached = match lockfile.skills.get(name.as_str()) {
            Some(e) => if e.minhash.len() > 0 {
                Some(copy_sig(&e.minhash))
            } else {
                None
            },
            None => None,
        };
        match cached {
            Some(sig) => {
                sigs.push(sig);
                proof {
                    assert(cached_sig(lockfile, names[i as int]) is Some);
                    assert(named_sig_views(updated@) =~= computed_sigs(lockfile, names.subrange(0, i + 1), tv));
                }
            },
            None => {
                proof {
                    assert(cached_sig(lockfile, names[i as int]) is None);
                    assert(strip_ok(tv[i as int]));
                }
                let sig = compute_minhash(text.as_str());
                let copy = copy_sig(&sig);
                updated.push((name.clone(), copy));
                sigs.push(sig);
                proof {
                    assert(named_sig_views(updated@) =~= named_sig_views(before).push(
                        (names[i as int], minhash_of(tv[i as int])),
                    ));
                }
            },
        }
        i += 1;
    }
    proof {
        assert(names.subrange(0, n as int) =~= names);
        assert(sig_views(sigs@) =~= sigs_of(lockfile, names, tv));
    }
    (sigs, updated)
}

/// The sentence windows of each compiled text.
fn text_windows(texts: &StrMap<String>) -> (r: Vec<Vec<String>>)
    requires
        texts.wf(),
        texts.val_seq().len() == texts.key_seq().len(),
        forall|k: int| 0 <= k < texts.key_seq().len() ==> strip_ok(#[trigger] string_views(texts.val_seq())[k]),
    ensures
        r@.len() == texts.key_seq().len(),
        forall|k: int|
            0 <= k < r@.len() ==> string_views((#[trigger] r@[k])@) == windows_of_texts(
                string_views(texts.val_seq()),
                texts.key_seq().len(),
            )[k],
{
    proof {
        texts.lemma_entries();
    }
    let n = texts.len();
    let mut wins: Vec<Vec<String>> = Vec::new();
    let mut w: usize = 0;
    while w < n
        invariant
            texts.wf(),
            n == texts.key_seq().len(),
            texts.val_seq().len() == n,
            forall|k: int| 0 <= k < n ==> strip_ok(#[trigger] string_views(texts.val_seq())[k]),
            w <= n,
            wins@.len() == w,
            forall|k: int|
                0 <= k < w ==> string_views((#[trigger] wins@[k])@) == windows_of_texts(
                    string_views(texts.val_seq()),
                    n as nat,
                )[k],
        decreases n - w,
    {
        let text = texts.value_at(w);
        proof {
            assert(string_views(texts.val_seq())[w as int] == text@);
        }
        let sents = sentences(text.as_str());
        wins.push(windows(&sents));
        w += 1;
    }
    wins
}

/// The matches of the windows of each candidate pair.
fn all_matches(pairs: &Vec<(usize, usize)>, wins: &Vec<Vec<String>>, names: Ghost<Seq<Seq<char>>>) -> (r: Vec<
    (String, usize, usize),
>)
    requires
        wins@.len() == names@.len(),
        forall|q: int| 0 <= q < pairs@.len() ==> (#[trigger] pairs@[q]).0 < pairs@[q].1 < names@.len(),
    ensures
        forall|q: int| 0 <= q < r@.len() ==> (#[trigger] r@[q]).1 < names@.len() && r@[q].2 < names@.len(),
        match_views(r@, names@) == pair_matches(
            pair_views(pairs@),
            Seq::new(wins@.len(), |k: int| string_views(wins@[k]@)),
            names@,
        ),
{
    let ghost pv = pair_views(pairs@);
    let ghost ws = Seq::new(wins@.len(), |k: int| string_views(wins@[k]@));
    let mut ms: Vec<(String, usize, usize)> = Vec::new();
    let mut p: usize = 0;
    while p < pairs.len()
        invariant
            wins@.len() == names@.len(),
            pv == pair_views(pairs@),
            ws == Seq::new(wins@.len(), |k: int| string_views(wins@[k]@)),
            forall|q: int| 0 <= q < pairs@.len() ==> (#[trigger] pairs@[q]).0 < pairs@[q].1 < names@.len(),
            p <= pairs@.len(),
            forall|q: int| 0 <= q < ms@.len() ==> (#[trigger] ms@[q]).1 < names@.len() && ms@[q].2 < names@.len(),
            match_views(ms@, names@) == pair_matches(pv.subrange(0, p as int), ws, names@),
        decreases pairs@.len() - p,
    {
        let (a, b) = pairs[p];
        proof {
            assert(pv.subrange(0, p + 1).drop_last() =~= pv.subrange(0, p as int));
            assert(pv.subrange(0, p + 1).last() == (a as int, b as int));
        }
        add_window_matches(&wins[a], &wins[b], a, b, names, &mut ms);
        p += 1;
    }
    proof {
        assert(pv.subrange(0, pairs@.len() as int) =~= pv);
    }
    ms
}

/// The clusters that the matches `ms` form.
fn all_clusters(ms: &Vec<(String, usize, usize)>, texts: &StrMap<String>) -> (r: Vec<(String, StrSet)>)
    requires
        texts.wf(),
        forall|q: int|
            0 <= q < ms@.len() ==> (#[trigger] ms@[q]).1 < texts.key_seq().len() && ms@[q].2 < texts.key_seq().len(),
    ensures
        forall|k: int| 0 <= k < r@.len() ==> (#[trigger] r@[k]).1.wf(),
        cluster_views(r@) == clusters_of(match_views(ms@, texts.key_seq())),
{
    let ghost names = texts.key_seq();
    let ghost mv = match_views(ms@, names);
    let mut clusters: Vec<(String, StrSet)> = Vec::new();
    let mut m: usize = 0;
    proof {
        assert(mv.subrange(0, 0).len() == 0);
    }
    while m < ms.len()
        invariant
            texts.wf(),
            names == texts.key_seq(),
            mv == match_views(ms@, names),
            forall|q: int| 0 <= q < ms@.len() ==> (#[trigger] ms@[q]).1 < names.len() && ms@[q].2 < names.len(),
            m <= ms@.len(),
            forall|k: int| 0 <= k < clusters@.len() ==> (#[trigger] clusters@[k]).1.wf(),
            cluster_views(clusters@) == clusters_of(mv.subrange(0, m as int)),
        decreases ms@.len() - m,
    {
        let passage = ms[m].0.clone();
        let a = texts.key_at(ms[m].1);
        let b = texts.key_at(ms[m].2);
        proof {
            assert(mv.subrange(0, m + 1).drop_last() =~= mv.subrange(0, m as int));
            assert(mv.subrange(0, m + 1).last() == (passage@, a@, b@));
        }
        add_to_clusters(&mut clusters, passage, a.as_str(), b.as_str());
        m += 1;
    }
    proof {
        assert(mv.subrange(0, ms@.len() as int) =~= mv);
    }
    clusters
}

/// The diagnostics of the clusters of at least two skills.
fn all_cluster_diags(clusters: &Vec<(String, StrSet)>) -> (r: Vec<Diagnostic>)
    requires
        forall|k: int| 0 <= k < clusters@.len() ==> (#[trigger] clusters@[k]).1.wf(),
    ensures
        diag_views(r@) == cluster_diags(cluster_views(clusters@)),
{
    let ghost cv = cluster_views(clusters@);
    let mut diags: Vec<Diagnostic> = Vec::new();
    let mut c: usize = 0;
    proof {
        assert(cv.subrange(0, 0).len() == 0);
    }
    while c < clusters.len()
        invariant
            cv == cluster_views(clusters@),
            forall|k: int| 0 <= k < clusters@.len() ==> (#[trigger] clusters@[k]).1.wf(),
            c <= clusters@.len(),
            diag_views(diags@) == cluster_diags(cv.subrange(0, c as int)),
        decreases clusters@.len() - c,
    {
        let ghost before = diags@;
        proof {
            assert(cv.subrange(0, c + 1).drop_last() =~= cv.subrange(0, c as int));
            assert(cv.subrange(0, c + 1).last() == cv[c as int]);
            clusters@[c as int].1.lemma_items();
        }
        if clusters[c].1.len() >= 2 {
            let d = cluster_diagnostic(clusters[c].0.clone(), &clusters[c].1);
            diags.push(d);
            proof {
                assert(diag_views(diags@) =~= diag_views(before).push(d@));
            }
        } else {
            proof {
                assert(diag_views(before) + Seq::<DiagnosticView>::empty() =~= diag_views(before));
            }
        }
        c += 1;
    }
    proof {
        assert(cv.subrange(0, clusters@.len() as int) =~= cv);
    }
    diags
}

/// Checks all compiled `SKILL.md` outputs for near-verbatim shared passages.
///
/// Returns `(diagnostics, updated_signatures)` where `updated_signatures`
/// holds `(skill_name, minhash)` entries that were recomputed and should be
/// written back to the lockfile.
pub fn check(lockfile: &Lockfile, ctx: &LintContext) -> (r: (Vec<Diagnostic>, Vec<(String, Vec<u64>)>))
    requires
        lockfile.wf(),
        ctx.compiled_texts.wf(),
        texts_ok(lockfile, ctx.compiled_texts.key_seq(), string_views(ctx.compiled_texts.val_seq())),
    ensures
        diag_views(r.0@) == spec_check(lockfile, ctx.compiled_texts.key_seq(), string_views(ctx.compiled_texts.val_seq())).0,
        named_sig_views(r.1@) == spec_check(lockfile, ctx.compiled_texts.key_seq(), string_views(ctx.compiled_texts.val_seq())).1,
{
    let texts = &ctx.compiled_texts;
    let ghost names = texts.key_seq();
    let ghost tv = string_views(texts.val_seq());
    proof {
        texts.lemma_entries();
    }
    let (sigs, updated) = signatures(lockfile, texts);
    let n = texts.len();
    if n < 2 {
        return (Vec::new(), updated);
    }
    proof {
        assert forall|i: int| 0 <= i < sigs@.len() implies (#[trigger] sigs@[i])@.len() >= NHASH by {
            assert(sig_views(sigs@)[i] == sig_of(lockfile, names[i], tv[i]));
        }
    }
    let pairs = lsh_candidates(&sigs);
    let ghost pv = pair_views(pairs@);
    if pairs.len() == 0 {
        proof {
            assert(pair_matches(pv, windows_of_texts(tv, names.len()), names).len() == 0);
            assert(clusters_of(Seq::empty()) =~= Seq::<ClusterView>::empty());
            assert(cluster_diags(Seq::empty()) =~= Seq::<DiagnosticView>::empty());
        }
        return (Vec::new(), updated);
    }
    let wins = text_windows(texts);
    let ms = all_matches(&pairs, &wins, Ghost(names));
    proof {
        assert(Seq::new(wins@.len(), |k: int| string_views(wins@[k]@)) =~= windows_of_texts(tv, names.len()));
    }
    let clusters = all_clusters(&ms, texts);
    let diags = all_cluster_diags(&clusters);
    (sort_diagnostics(&diags), updated)
}

/// The duplication findings and the new signatures, as [`check`] gives
/// them, when the compiled texts allow the check; `None` when they do not: a
/// text whose signature is computed has front matter that cannot be cut, a
/// cached signature has fewer than [`NHASH`] values where signatures are
/// compared, or candidate pairs need a text whose front matter cannot be cut.
pub fn check_if_cuttable(lockfile: &Lockfile, ctx: &LintContext) -> (r: Option<
    (Vec<Diagnostic>, Vec<(String, Vec<u64>)>),
>)
    requires
        lockfile.wf(),
        ctx.compiled_texts.wf(),
    ensures
        r is Some <==> texts_ok(lockfile, ctx.compiled_texts.key_seq(), string_views(ctx.compiled_texts.val_seq())),
        r matches Some(x) ==> diag_views(x.0@) == spec_check(
            lockfile,
            ctx.compiled_texts.key_seq(),
            string_views(ctx.compiled_texts.val_seq()),
        ).0 && named_sig_views(x.1@) == spec_check(
            lockfile,
            ctx.compiled_texts.key_seq(),
            string_views(ctx.compiled_texts.val_seq()),
        ).1,
{
    let texts = &ctx.compiled_texts;
    let ghost names = texts.key_seq();
    let ghost tv = string_views(texts.val_seq());
    proof {
        texts.lemma_entries();
        assert(names == ctx.compiled_texts.key_seq());
        assert(tv == string_views(ctx.compiled_texts.val_seq()));
    }
    let n = texts.len();
    let mut i: usize = 0;
    while i < n
        invariant
            lockfile.wf(),
            texts.wf(),
            names == ctx.compiled_texts.key_seq(),
            tv == string_views(ctx.compiled_texts.val_seq()),
            names == texts.key_seq(),
            tv == string_views(texts.val_seq()),
            n == names.len(),
            tv.len() == names.len(),
            i <= n,
            forall|k: int| 0 <= k < i && #[trigger] cached_sig(lockfile, names[k]) is None ==> strip_ok(tv[k]),
        decreases n - i,
    {
        let name = texts.key_at(i);
        let text = texts.value_at(i);
        let cached = match lockfile.skills.get(name.as_str()) {
            Some(e) => e.minhash.len() > 0,
            None => false,
        };
        proof {
            assert(cached == (cached_sig(lockfile, names[i as int]) is Some));
            assert(tv[i as int] == text@);
        }
        if !cached && !frontmatter_cut_ok(text.as_str()) {
            proof {
                assert(cached_sig(lockfile, names[i as int]) is None);
                assert(!strip_ok(tv[i as int]));
                assert(!uncached_cut_ok(lockfile, names, tv));
            }
            return None;
        }
        i += 1;
    }
    proof {
        assert(uncached_cut_ok(lockfile, names, tv));
    }
    if n >= 2 {
        let mut j: usize = 0;
        while j < n
            invariant
                lockfile.wf(),
                texts.wf(),
                names == ctx.compiled_texts.key_seq(),
                tv == string_views(ctx.compiled_texts.val_seq()),
                names == texts.key_seq(),
                tv == string_views(texts.val_seq()),
                n == names.len(),
                tv.len() == names.len(),
                j <= n,
                n >= 2,
                uncached_cut_ok(lockfile, names, tv),
                forall|k: int| 0 <= k < j ==> (#[trigger] sig_of(lockfile, names[k], tv[k])).len() >= NHASH,
            decreases n - j,
        {
            let name = texts.key_at(j);
            let short = match lockfile.skills.get(name.as_str()) {
                Some(e) => e.minhash.len() > 0 && e.minhash.len() < NHASH,
                None => false,
            };
            proof {
                assert(names[j as int] == name@);
                if !short && cached_sig(lockfile, names[j as int]) is None {
                    assert(sig_of(lockfile, names[j as int], tv[j as int]) == minhash_of(tv[j as int]));
                }
            }
            if short {
                proof {
                    assert(sig_of(lockfile, names[j as int], tv[j as int]).len() < NHASH);
                    assert(!texts_ok(lockfile, names, tv));
                }
                return None;
            }
            j += 1;
        }
        let (sigs, _) = signatures(lockfile, texts);
        proof {
            assert(sig_views(sigs@) == sigs_of(lockfile, names, tv));
            assert forall|k: int| 0 <= k < sigs@.len() implies (#[trigger] sigs@[k])@.len() >= NHASH by {
                assert(sig_views(sigs@)[k] == sigs@[k]@);
                assert(sigs_of(lockfile, names, tv)[k] == sig_of(lockfile, names[k], tv[k]));
            }
        }
        let pairs = lsh_candidates(&sigs);
        if pairs.len() > 0 {
            let mut m: usize = 0;
            while m < n
                invariant
                    lockfile.wf(),
                    texts.wf(),
                    names == ctx.compiled_texts.key_seq(),
                    tv == string_views(ctx.compiled_texts.val_seq()),
                    names == texts.key_seq(),
                    tv == string_views(texts.val_seq()),
                    n == names.len(),
                    tv.len() == names.len(),
                    m <= n,
                    n >= 2,
                    pair_views(pairs@) == candidates(sigs_of(lockfile, names, tv)),
                    pairs@.len() > 0,
                    forall|k: int| 0 <= k < m ==> strip_ok(#[trigger] tv[k]),
                decreases n - m,
            {
                let text = texts.value_at(m);
                proof {
                    assert(tv[m as int] == text@);
                }
                if !frontmatter_cut_ok(text.as_str()) {
                    proof {
                        assert(pair_views(pairs@).len() == pairs@.len());
                        assert(candidates(sigs_of(lockfile, names, tv)).len() > 0);
                        assert(!strip_ok(tv[m as int]));
                        assert(!texts_ok(lockfile, names, tv));
                    }
                    return None;
                }
                m += 1;
            }
        } else {
            proof {
                assert(pair_views(pairs@).len() == 0);
            }
        }
        proof {
            assert(candidates(sigs_of(lockfile, names, tv)) == pair_views(pairs@));
        }
    }
    Some(check(lockfile, ctx))
}

// ── Laws ──────────────────────────────────────────────────────────────────────

/// Law: a workspace with fewer than two compiled skills has no duplication
/// findings; a passage repeated within one skill is not reported.
pub proof fn lemma_single_skill_has_no_duplication(lock: &Lockfile, names: Seq<Seq<char>>, texts: Seq<Seq<char>>)
    requires
        names.len() < 2,
    ensures
        spec_check(lock, names, texts).0.len() == 0,
{
}

/// The findings of `s` are in order of message.
pub open spec fn sorted_by_message(s: Seq<DiagnosticView>) -> bool {
    forall|i: int, j: int| 0 <= i < j < s.len() ==> !str_lt(#[trigger] s[j].message, #[trigger] s[i].message)
}

/// `a` is not greater than `c` when `a` is not greater than `b` and `b` is
/// not greater than `c`.
proof fn lemma_not_lt_trans(a: Seq<char>, b: Seq<char>, c: Seq<char>)
    requires
        !str_lt(b, a),
        !str_lt(c, b),
    ensures
        !str_lt(c, a),
{
    let ea = encode_utf8(a);
    let eb = encode_utf8(b);
    let ec = encode_utf8(c);
    crate::collections::lemma_lex_total(ea, eb);
    crate::collections::lemma_lex_total(eb, ec);
    if str_lt(c, a) {
        if ea == eb {
            assert(str_lt(c, b));
        } else if eb == ec {
            assert(str_lt(b, a));
        } else {
            assert(crate::collections::lex_lt(ea, eb));
            assert(crate::collections::lex_lt(eb, ec));
            crate::collections::lemma_lex_trans(ea, eb, ec);
            crate::collections::lemma_lex_total(ea, ec);
        }
    }
}

/// In a sequence in order of message, the insertion position of `m` comes
/// after every message not greater than `m` and before every greater one.
proof fn lemma_ins_pos_sorted(t: Seq<DiagnosticView>, m: Seq<char>)
    requires
        sorted_by_message(t),
    ensures
        0 <= ins_pos(t, m) <= t.len(),
        forall|k: int| 0 <= k < ins_pos(t, m) ==> !str_lt(m, #[trigger] t[k].message),
        forall|k: int| ins_pos(t, m) <= k < t.len() ==> str_lt(m, #[trigger] t[k].message),
    decreases t.len(),
{
    if t.len() > 0 {
        let d = t.drop_last();
        assert(sorted_by_message(d)) by {
            assert forall|i: int, j: int| 0 <= i < j < d.len() implies !str_lt(#[trigger] d[j].message, #[trigger] d[i].message) by {
                assert(d[i] == t[i] && d[j] == t[j]);
            }
        }
        lemma_ins_pos_sorted(d, m);
        if !str_lt(m, t.last().message) {
            assert forall|k: int| 0 <= k < t.len() implies !str_lt(m, #[trigger] t[k].message) by {
                if k < t.len() - 1 {
                    assert(!str_lt(t[t.len() - 1].message, t[k].message));
                    lemma_not_lt_trans(t[k].message, t.last().message, m);
                }
            }
        } else {
            assert forall|k: int| 0 <= k < ins_pos(t, m) implies !str_lt(m, #[trigger] t[k].message) by {
                assert(t[k] == d[k]);
            }
            assert forall|k: int| ins_pos(t, m) <= k < t.len() implies str_lt(m, #[trigger] t[k].message) by {
                if k < t.len() - 1 {
                    assert(t[k] == d[k]);
                }
            }
        }
    }
}

/// Law: the duplication findings come in order of message, and sorting
/// keeps every finding.
pub proof fn lemma_sorted_by_message(s: Seq<DiagnosticView>)
    ensures
        sorted_by_message(sort_by_message(s)),
        sort_by_message(s).len() == s.len(),
    decreases s.len(),
{
    if s.len() > 0 {
        lemma_sorted_by_message(s.drop_last());
        let t = sort_by_message(s.drop_last());
        let x = s.last();
        let p = ins_pos(t, x.message);
        lemma_ins_pos_sorted(t, x.message);
        let r = t.insert(p, x);
        assert forall|i: int, j: int| 0 <= i < j < r.len() implies !str_lt(#[trigger] r[j].message, #[trigger] r[i].message) by {
            if j < p {
                assert(r[i] == t[i] && r[j] == t[j]);
            } else if j == p {
                assert(r[i] == t[i]);
            } else if i < p {
                assert(r[i] == t[i] && r[j] == t[j - 1]);
                assert(str_lt(x.message, t[j - 1].message));
                assert(!str_lt(x.message, t[i].message));
                crate::collections::lemma_lex_total(encode_utf8(t[i].message), encode_utf8(x.message));
                if str_lt(t[j - 1].message, t[i].message) {
                    crate::collections::lemma_lex_trans(
                        encode_utf8(x.message),
                        encode_utf8(t[j - 1].message),
                        encode_utf8(t[i].message),
                    );
                }
            } else if i == p {
                assert(r[j] == t[j - 1]);
                assert(str_lt(x.message, t[j - 1].message));
                crate::collections::lemma_lex_total(encode_utf8(x.message), encode_utf8(t[j - 1].message));
            } else {
                assert(r[i] == t[i - 1] && r[j] == t[j - 1]);
            }
        }
    }
}

/// A skill without a cached signature gets, among the computed ones, a
/// signature of [`NHASH`] values as its last.
proof fn lemma_computed_last(lock: &Lockfile, names: Seq<Seq<char>>, texts: Seq<Seq<char>>, k: int)
    requires
        0 <= k < names.len(),
        cached_sig(lock, names[k]) is None,
    ensures
        crate::lockfile::last_sig(computed_sigs(lock, names, texts), names[k]) matches Some(sig) && sig.len() == NHASH,
    decreases names.len(),
{
    let j = names.len() - 1;
    let prev = computed_sigs(lock, names.drop_last(), texts);
    if names[j] == names[k] {
        let c = computed_sigs(lock, names, texts);
        assert(c == prev + seq![(names[j], minhash_of(texts[j]))]);
        assert(c.last() == (names[j], minhash_of(texts[j])));
    } else {
        assert(k < j);
        assert(names.drop_last()[k] == names[k]);
        lemma_computed_last(lock, names.drop_last(), texts, k);
        let c = computed_sigs(lock, names, texts);
        if cached_sig(lock, names[j]) is None {
            assert(c == prev + seq![(names[j], minhash_of(texts[j]))]);
            assert(c.drop_last() =~= prev);
        } else {
            assert(c =~= prev);
        }
    }
}

/// With every skill's signature cached, none is computed.
proof fn lemma_all_cached(lock: &Lockfile, names: Seq<Seq<char>>, texts: Seq<Seq<char>>)
    requires
        forall|i: int| 0 <= i < names.len() ==> cached_sig(lock, #[trigger] names[i]) is Some,
    ensures
        computed_sigs(lock, names, texts).len() == 0,
    decreases names.len(),
{
    if names.len() > 0 {
        let d = names.drop_last();
        assert forall|i: int| 0 <= i < d.len() implies cached_sig(lock, #[trigger] d[i]) is Some by {
            assert(d[i] == names[i]);
        }
        lemma_all_cached(lock, d, texts);
        assert(cached_sig(lock, names[names.len() - 1]) is Some);
    }
}

/// A skill with a cached signature has none among the computed ones.
proof fn lemma_cached_stays(lock: &Lockfile, names: Seq<Seq<char>>, texts: Seq<Seq<char>>, n: Seq<char>)
    requires
        cached_sig(lock, n) is Some,
    ensures
        crate::lockfile::last_sig(computed_sigs(lock, names, texts), n) is None,
    decreases names.len(),
{
    if names.len() > 0 {
        lemma_cached_stays(lock, names.drop_last(), texts, n);
        let j = names.len() - 1;
        let prev = computed_sigs(lock, names.drop_last(), texts);
        let c = computed_sigs(lock, names, texts);
        if cached_sig(lock, names[j]) is None {
            assert(c == prev + seq![(names[j], minhash_of(texts[j]))]);
            assert(names[j] != n);
            assert(c.last() == (names[j], minhash_of(texts[j])));
            assert(c.drop_last() =~= prev);
        } else {
            assert(c =~= prev);
        }
    } else {
        assert(computed_sigs(lock, names, texts).len() == 0);
    }
}

/// Law: once the signatures that a check computed are recorded in the
/// lockfile, a later check on the same skills computes none, every skill's
/// signature being cached.
pub proof fn lemma_recorded_signatures_are_reused(
    lock: &Lockfile,
    later: &Lockfile,
    names: Seq<Seq<char>>,
    texts: Seq<Seq<char>>,
)
    requires
        forall|i: int| 0 <= i < names.len() ==> lock.skills@.contains_key(#[trigger] names[i]),
        crate::lockfile::sigs_applied(lock.skills@, later.skills@, computed_sigs(lock, names, texts)),
    ensures
        computed_sigs(later, names, texts).len() == 0,
{
    assert forall|i: int| 0 <= i < names.len() implies cached_sig(later, #[trigger] names[i]) is Some by {
        let n = names[i];
        assert(lock.skills@.contains_key(n));
        assert(later.skills@.contains_key(n));
        if cached_sig(lock, n) is None {
            lemma_computed_last(lock, names, texts, i);
        } else {
            lemma_cached_stays(lock, names, texts, n);
        }
    }
    lemma_all_cached(later, names, texts);
}

/// The names that the computed signatures go with.
pub open spec fn computed_names(lock: &Lockfile, names: Seq<Seq<char>>, texts: Seq<Seq<char>>) -> Seq<Seq<char>> {
    computed_sigs(lock, names, texts).map_values(|p: (Seq<char>, Seq<u64>)| p.0)
}

/// Law: a check computes a signature exactly for the skills whose signature
/// the lockfile does not cache, in order, and for no other.
pub proof fn lemma_computed_exactly_uncached(lock: &Lockfile, names: Seq<Seq<char>>, texts: Seq<Seq<char>>)
    ensures
        forall|x: Seq<char>|
            #[trigger] computed_names(lock, names, texts).contains(x) <==> names.contains(x) && cached_sig(
                lock,
                x,
            ) is None,
        computed_names(lock, names, texts).len() <= names.len(),
    decreases names.len(),
{
    if names.len() > 0 {
        let d = names.drop_last();
        let k = names.len() - 1;
        lemma_computed_exactly_uncached(lock, d, texts);
        let prev = computed_names(lock, d, texts);
        let cur = computed_names(lock, names, texts);
        if cached_sig(lock, names[k]) is None {
            assert(cur =~= prev.push(names[k]));
        } else {
            assert(cur =~= prev);
        }
        assert(names =~= d.push(names[k]));
        crate::collections::lemma_push_contains(d, names[k]);
        crate::collections::lemma_push_contains(prev, names[k]);
        assert forall|x: Seq<char>| #[trigger] cur.contains(x) <==> names.contains(x) && cached_sig(lock, x) is None by {
            assert(prev.contains(x) <==> d.contains(x) && cached_sig(lock, x) is None);
            assert(names.contains(x) <==> d.contains(x) || x == names[k]);
        }
    }
}

} // verus!
