//! Parser and compiler support for `.pan` syntax: source handling, lexer,
//! parser, referential-integrity check and compiler.
pub mod check;
pub mod compile;
pub mod lex;
pub mod parse;

use vstd::prelude::*;
use vstd::string::StringSliceAdditionalSpecFns;
use vstd::utf8::encode_utf8;

verus! {

/// The byte offsets at which the lines among the first `n` bytes of `b`
/// after the first one start: one past each newline byte, in order.
pub open spec fn newline_starts(b: Seq<u8>, n: int) -> Seq<u32>
    decreases n,
{
    if n <= 0 {
        Seq::empty()
    } else if b[n - 1] == 10u8 {
        newline_starts(b, n - 1).push(n as u32)
    } else {
        newline_starts(b, n - 1)
    }
}

/// The byte offsets of the first byte of every line of `b`, in order.
pub open spec fn line_starts(b: Seq<u8>) -> Seq<u32> {
    seq![0u32] + newline_starts(b, b.len() as int)
}

/// The offset of the start of the line that contains position `n` of `b`
/// (one past the last newline before `n`, or 0).
pub open spec fn line_start_before(b: Seq<u8>, n: int) -> int
    decreases n,
{
    if n <= 0 {
        0
    } else if b[n - 1] == 10u8 {
        n
    } else {
        line_start_before(b, n - 1)
    }
}

/// A 1-based line/column location within a source string.
#[derive(Debug, Clone, Copy, PartialEq, Eq)]
pub struct SourceLocation {
    /// Line number, starting at 1.
    pub line: u32,
    /// Column number, starting at 1.
    pub column: u32,
}

/// Source content of a `.pan` file plus metadata used for diagnostics.
#[non_exhaustive]
#[derive(Debug, Clone)]
pub struct PanSource {
    /// Original source content.
    pub src: String,
    /// Byte offsets of the first character of each line.
    pub offsets: Vec<u32>,
}

impl PanSource {
    /// The source's bytes.
    pub open spec fn bytes(&self) -> Seq<u8> {
        encode_utf8(self.src@)
    }

    /// The line table matches the source, whose size fits the `u32` offsets.
    pub open spec fn wf(&self) -> bool {
        &&& self.bytes().len() < u32::MAX
        &&& self.offsets@ == line_starts(self.bytes())
    }

    /// Creates a new source wrapper from raw text.
    pub fn new(src: String) -> (r: Self)
        requires
            encode_utf8(src@).len() < u32::MAX,
        ensures
            r.src@ == src@,
            r.wf(),
    {
        let mut offsets: Vec<u32> = Vec::new();
        offsets.push(0);
        let b = src.as_str().as_bytes();
        let mut i: usize = 0;
        while i < b.len()
            invariant
                b@ == encode_utf8(src@),
                b@.len() < u32::MAX,
                0 <= i <= b@.len(),
                offsets@ == seq![0u32] + newline_starts(b@, i as int),
            decreases b@.len() - i,
        {
            if b[i] == 10u8 {
                offsets.push((i + 1) as u32);
            }
            i += 1;
        }
        PanSource { src, offsets }
    }

    /// Returns the original source text.
    pub fn as_str(&self) -> (r: &str)
        ensures
            r@ == self.src@,
    {
        self.src.as_str()
    }

    /// Converts a byte offset into a 1-based line/column location.
    ///
    /// The line is one more than the number of newlines before `offset`, the
    /// column one more than the distance from the start of that line.
    pub fn location_at(&self, offset: u32) -> (r: SourceLocation)
        requires
            self.wf(),
            offset - line_start_before(self.bytes(), min_int(offset as int, self.bytes().len() as int))
                < u32::MAX,
        ensures
            r.line == 1 + newline_starts(self.bytes(), min_int(offset as int, self.bytes().len() as int)).len(),
            r.column == offset - line_start_before(self.bytes(), min_int(offset as int, self.bytes().len() as int)) + 1,
    {
        let (line, column) = line_and_column(&self.offsets, Ghost(self.bytes()), offset);
        SourceLocation { line, column }
    }
}

/// The 1-based line and column of byte `offset` of `b`, from the table of
/// its line starts.
pub(crate) fn line_and_column(offsets: &Vec<u32>, Ghost(b): Ghost<Seq<u8>>, offset: u32) -> (r: (u32, u32))
    requires
        b.len() < u32::MAX,
        offsets@ == line_starts(b),
        offset - line_start_before(b, min_int(offset as int, b.len() as int)) < u32::MAX,
    ensures
        r.0 == 1 + newline_starts(b, min_int(offset as int, b.len() as int)).len(),
        r.1 == offset - line_start_before(b, min_int(offset as int, b.len() as int)) + 1,
{
    let ghost m = min_int(offset as int, b.len() as int);
    proof {
        lemma_line_table_sorted(b);
        lemma_line_starts_sorted(b, m);
        lemma_line_starts_sorted(b, b.len() as int);
        lemma_newline_starts_split(b, m, b.len() as int);
    }
    // Binary search for the number of line starts that are <= offset.
    let mut lo: usize = 0;
    let mut hi: usize = offsets.len();
    while lo < hi
        invariant
            b.len() < u32::MAX,
            offsets@ == line_starts(b),
            hi <= offsets@.len(),
            lo <= hi,
            forall|j: int| 0 <= j < lo ==> offsets@[j] <= offset,
            forall|j: int| hi <= j < offsets@.len() ==> offsets@[j] > offset,
            forall|j: int, k: int| 0 <= j < k < offsets@.len() ==> offsets@[j] < offsets@[k],
        decreases hi - lo,
    {
        let mid = lo + (hi - lo) / 2;
        if offsets[mid] <= offset {
            lo = mid + 1;
        } else {
            hi = mid;
        }
    }
    let line_idx = lo;
    proof {
        let ns = newline_starts(b, b.len() as int);
        let nm = newline_starts(b, m);
        let ls = offsets@;
        assert(ls == seq![0u32] + ns);
        let k: int = 1 + nm.len() as int;
        assert(ls[k - 1] <= offset) by {
            if k > 1 {
                assert(ls[k - 1] == ns[k - 2]);
                assert(ns[k - 2] == nm[k - 2]);
            }
        }
        if line_idx < k {
            assert(ls[k - 1] > offset);
        }
        if line_idx > k {
            assert(k < ls.len());
            assert(ls[k] <= offset);
            assert(ls[k] == ns[k - 1]);
            assert(ns[k - 1] > m);
            assert(m == offset);
        }
        assert(line_idx == k);
        assert(line_idx <= ls.len());
        assert(ns.len() <= b.len());
    }
    let line_offset = offsets[line_idx - 1];
    proof {
        lemma_last_start(b, m);
    }
    let column = offset - line_offset + 1;
    (line_idx as u32, column)
}

/// The smaller of two integers.
pub open spec fn min_int(a: int, b: int) -> int {
    if a <= b { a } else { b }
}

/// Line starts are strictly increasing and lie in `1..=n`.
pub proof fn lemma_line_starts_sorted(b: Seq<u8>, n: int)
    requires
        0 <= n <= b.len(),
        b.len() < u32::MAX,
    ensures
        forall|j: int, k: int|
            0 <= j < k < newline_starts(b, n).len() ==> newline_starts(b, n)[j] < newline_starts(b, n)[k],
        forall|j: int| 0 <= j < newline_starts(b, n).len() ==> 1 <= #[trigger] newline_starts(b, n)[j] <= n,
        newline_starts(b, n).len() <= n,
    decreases n,
{
    if n > 0 {
        lemma_line_starts_sorted(b, n - 1);
        let p = newline_starts(b, n - 1);
        if b[n - 1] == 10u8 {
            let q = p.push(n as u32);
            assert(q == newline_starts(b, n));
            assert((n as u32) as int == n);
            assert forall|j: int, k: int| 0 <= j < k < q.len() implies q[j] < q[k] by {
                if k == q.len() - 1 {
                    assert(q[j] == p[j]);
                } else {
                    assert(q[j] == p[j] && q[k] == p[k]);
                }
            }
            assert forall|j: int| 0 <= j < q.len() implies 1 <= #[trigger] q[j] <= n by {
                if j < p.len() {
                    assert(q[j] == p[j]);
                }
            }
        }
    }
}

/// The line table is strictly increasing.
pub proof fn lemma_line_table_sorted(b: Seq<u8>)
    requires
        b.len() < u32::MAX,
    ensures
        forall|j: int, k: int|
            0 <= j < k < line_starts(b).len() ==> line_starts(b)[j] < line_starts(b)[k],
{
    let n = b.len() as int;
    lemma_line_starts_sorted(b, n);
    let ls = line_starts(b);
    let ns = newline_starts(b, n);
    assert forall|j: int, k: int| 0 <= j < k < ls.len() implies ls[j] < ls[k] by {
        assert(ls[k] == ns[k - 1]);
        if j > 0 {
            assert(ls[j] == ns[j - 1]);
        } else {
            assert(ls[j] == 0);
        }
    }
}

/// The line starts among the first `n` bytes are one past a newline each,
/// and each newline among them has one.
pub proof fn lemma_newline_starts_exact(b: Seq<u8>, n: int)
    requires
        0 <= n <= b.len(),
        b.len() < u32::MAX,
    ensures
        forall|k: int|
            0 <= k < newline_starts(b, n).len() ==> 1 <= #[trigger] newline_starts(b, n)[k] <= n
                && b[newline_starts(b, n)[k] - 1] == 10u8,
        forall|i: int| 0 <= i < n && b[i] == 10u8 ==> newline_starts(b, n).contains((i + 1) as u32),
    decreases n,
{
    if n > 0 {
        lemma_newline_starts_exact(b, n - 1);
        let p = newline_starts(b, n - 1);
        if b[n - 1] == 10u8 {
            let q = p.push(n as u32);
            assert((n as u32) as int == n);
            assert forall|k: int| 0 <= k < q.len() implies 1 <= #[trigger] q[k] <= n && b[q[k] - 1] == 10u8 by {
                if k < p.len() {
                    assert(q[k] == p[k]);
                }
            }
            assert forall|i: int| 0 <= i < n && b[i] == 10u8 implies q.contains((i + 1) as u32) by {
                if i < n - 1 {
                    let k = choose|k: int| 0 <= k < p.len() && p[k] == (i + 1) as u32;
                    assert(q[k] == p[k]);
                } else {
                    assert(q[p.len() as int] == (i + 1) as u32);
                }
            }
        }
    }
}

/// Law: the line table of a source is 0 followed, in increasing order, by
/// one past each of its newline bytes, and holds nothing else.
pub proof fn lemma_line_starts_law(b: Seq<u8>)
    requires
        b.len() < u32::MAX,
    ensures
        line_starts(b).len() >= 1,
        line_starts(b)[0] == 0,
        forall|k: int|
            1 <= k < line_starts(b).len() ==> b[#[trigger] line_starts(b)[k] - 1] == 10u8,
        forall|i: int| 0 <= i < b.len() && b[i] == 10u8 ==> line_starts(b).contains((i + 1) as u32),
        forall|j: int, k: int|
            0 <= j < k < line_starts(b).len() ==> line_starts(b)[j] < line_starts(b)[k],
{
    let n = b.len() as int;
    let ls = line_starts(b);
    let ns = newline_starts(b, n);
    lemma_newline_starts_exact(b, n);
    lemma_line_table_sorted(b);
    assert forall|k: int| 1 <= k < ls.len() implies b[#[trigger] ls[k] - 1] == 10u8 by {
        assert(ls[k] == ns[k - 1]);
    }
    assert forall|i: int| 0 <= i < b.len() && b[i] == 10u8 implies ls.contains((i + 1) as u32) by {
        let k = choose|k: int| 0 <= k < ns.len() && ns[k] == (i + 1) as u32;
        assert(ls[k + 1] == ns[k]);
    }
}

/// The line starts up to `n` extend those up to `m <= n` by values above `m`.
pub proof fn lemma_newline_starts_split(b: Seq<u8>, m: int, n: int)
    requires
        0 <= m <= n <= b.len(),
        b.len() < u32::MAX,
    ensures
        newline_starts(b, m).len() <= newline_starts(b, n).len(),
        forall|j: int| 0 <= j < newline_starts(b, m).len() ==> #[trigger] newline_starts(b, n)[j] == newline_starts(b, m)[j],
        forall|j: int|
            newline_starts(b, m).len() <= j < newline_starts(b, n).len() ==> #[trigger] newline_starts(b, n)[j] > m,
    decreases n - m,
{
    if n > m {
        lemma_newline_starts_split(b, m, n - 1);
        lemma_line_starts_sorted(b, n - 1);
    }
}

/// The last line start among the first `m` bytes is the start of the line containing `m`.
pub proof fn lemma_last_start(b: Seq<u8>, m: int)
    requires
        0 <= m <= b.len(),
        b.len() < u32::MAX,
    ensures
        newline_starts(b, m).len() == 0 ==> line_start_before(b, m) == 0,
        newline_starts(b, m).len() > 0 ==> line_start_before(b, m) == newline_starts(b, m).last(),
        0 <= line_start_before(b, m) <= m,
    decreases m,
{
    if m > 0 {
        lemma_last_start(b, m - 1);
    }
}

} // verus!
