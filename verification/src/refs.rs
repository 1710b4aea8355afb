//! Ref parsing, classification, and heuristic inference.
//!
//! Centralises the ref-related patterns and the heuristic that classifies
//! untyped backticks, so every caller — build, lint, and budget — works from
//! a single definition.
use vstd::prelude::*;
use vstd::string::StringSliceAdditionalSpecFns;
use vstd::utf8::{decode_utf8, valid_utf8};

use crate::compiler::parse::{node_ok, nodes_ok, nodes_view, spec_parse, Node, NodeView, PanParse, RefKind as ParserRefKind};
use crate::compiler::{line_start_before, newline_starts, PanSource};
use crate::patterns::{captures_view, find_captures, group_in, matches_in, regex_captures, Captures, CapturesView, GroupView};
use crate::text::{
    at_boundary, is_ws, lemma_after_ascii, lemma_ends_at_boundary, lemma_str_bytes, slice_str, split_whitespace,
    str_eq, str_views, trim, trim_chars, words,
};

verus! {

/// The pattern of all typed ref directives: `ref::`, `cmd::`, `skill::`, `var::`, `env::`.
pub open spec fn typed_ref_pattern() -> Seq<char> {
    "`(ref|cmd|skill|var|env)::([^`]+)`"@
}

/// The pattern of `ref::` path directives only.
pub open spec fn path_ref_pattern() -> Seq<char> {
    "`ref::([^`]+)`"@
}

/// The pattern of standard markdown links: `[text](target)`.
pub open spec fn markdown_link_pattern() -> Seq<char> {
    "\\[([^\\]]+)\\]\\(([^)]+)\\)"@
}

/// The kind of a typed ref directive.
#[derive(Debug, Clone, Copy, PartialEq, Eq, Structural)]
pub enum RefKind {
    /// `ref::` — file-path reference.
    Ref,
    /// `cmd::` — shell command reference.
    Cmd,
    /// `skill::` — cross-skill reference.
    Skill,
    /// `var::` — workspace variable reference.
    Var,
    /// `env::` — environment variable reference.
    Env,
}

/// The ref kind a directive prefix names.
pub open spec fn kind_of_prefix(s: Seq<char>) -> Option<RefKind> {
    if s == "ref"@ {
        Some(RefKind::Ref)
    } else if s == "cmd"@ {
        Some(RefKind::Cmd)
    } else if s == "skill"@ {
        Some(RefKind::Skill)
    } else if s == "var"@ {
        Some(RefKind::Var)
    } else if s == "env"@ {
        Some(RefKind::Env)
    } else {
        None
    }
}

impl RefKind {
    /// The ref kind a directive prefix names.
    pub fn from_prefix(s: &str) -> (r: Option<Self>)
        ensures
            r == kind_of_prefix(s@),
    {
        if str_eq(s, "ref") {
            Some(RefKind::Ref)
        } else if str_eq(s, "cmd") {
            Some(RefKind::Cmd)
        } else if str_eq(s, "skill") {
            Some(RefKind::Skill)
        } else if str_eq(s, "var") {
            Some(RefKind::Var)
        } else if str_eq(s, "env") {
            Some(RefKind::Env)
        } else {
            None
        }
    }
}

/// A parsed typed ref directive with its position in the source text.
#[derive(Debug, Clone, PartialEq, Eq)]
pub struct TypedRef {
    /// The kind of this ref.
    pub kind: RefKind,
    /// The value after the `::` separator (trimmed).
    pub value: String,
    /// Byte offset of the opening backtick in the source text.
    pub start: usize,
    /// Byte offset just past the closing backtick in the source text.
    pub end: usize,
    /// 1-based line number in the source text.
    pub line: u32,
    /// 1-based column number (character position) in the source text.
    pub col: u32,
}

/// The value of a [`TypedRef`].
pub struct TypedRefView {
    /// The kind of the ref.
    pub kind: RefKind,
    /// The trimmed value.
    pub value: Seq<char>,
    /// Byte offset of the opening backtick.
    pub start: int,
    /// Byte offset just past the closing backtick.
    pub end: int,
    /// 1-based line number.
    pub line: u32,
    /// 1-based column number (character position).
    pub col: u32,
}

impl View for TypedRef {
    type V = TypedRefView;

    open spec fn view(&self) -> TypedRefView {
        TypedRefView {
            kind: self.kind,
            value: self.value@,
            start: self.start as int,
            end: self.end as int,
            line: self.line,
            col: self.col,
        }
    }
}

/// The views of a sequence of typed refs.
pub open spec fn typed_views(v: Seq<TypedRef>) -> Seq<TypedRefView> {
    v.map_values(|t: TypedRef| t@)
}

/// The 1-based line of byte `offset` of `b`: one more than the newlines before it.
pub open spec fn line_of(b: Seq<u8>, offset: int) -> u32 {
    (newline_starts(b, offset).len() + 1) as u32
}

/// The 1-based column of byte `offset` of `b`: one more than the bytes since
/// the last newline before it.
pub open spec fn col_of(b: Seq<u8>, offset: int) -> u32 {
    (offset - line_start_before(b, offset) + 1) as u32
}

/// The 1-based character column of byte `offset` of `b`: one more than the
/// characters since the last newline before it.
pub open spec fn char_col_of(b: Seq<u8>, offset: int) -> u32 {
    (decode_utf8(b.subrange(line_start_before(b, offset), offset)).len() + 1) as u32
}

/// The start of the line holding byte `n` lies between characters, at or
/// before `n`.
proof fn lemma_line_start_boundary(b: Seq<u8>, n: int)
    requires
        valid_utf8(b),
        0 <= n <= b.len(),
    ensures
        0 <= line_start_before(b, n) <= n,
        at_boundary(b, line_start_before(b, n)),
    decreases n,
{
    if n <= 0 {
        lemma_ends_at_boundary(b);
    } else if b[n - 1] == 10u8 {
        lemma_after_ascii(b, n - 1);
    } else {
        lemma_line_start_boundary(b, n - 1);
    }
}

/// The 1-based character column of byte `offset` of `text`.
fn char_column(text: &str, offset: usize) -> (r: u32)
    requires
        at_boundary(text.spec_bytes(), offset as int),
    ensures
        r == char_col_of(text.spec_bytes(), offset as int),
{
    let b = text.as_bytes();
    let mut last_start: usize = 0;
    let mut i: usize = 0;
    while i < offset
        invariant
            b@ == text.spec_bytes(),
            offset <= b@.len(),
            i <= offset,
            last_start == line_start_before(b@, i as int),
            last_start <= i,
        decreases offset - i,
    {
        if b[i] == 10u8 {
            last_start = i + 1;
        }
        i += 1;
    }
    proof {
        lemma_str_bytes(text);
        lemma_line_start_boundary(b@, offset as int);
    }
    let line = slice_str(text, last_start, offset);
    let n = line.unicode_len();
    crate::text::succ_u32(n)
}

/// Returns the 1-based (line, col) for `offset` bytes into `text`.
fn line_col(text: &str, offset: usize) -> (r: (u32, u32))
    requires
        offset <= text.spec_bytes().len(),
    ensures
        r.0 == line_of(text.spec_bytes(), offset as int),
        r.1 == col_of(text.spec_bytes(), offset as int),
{
    let b = text.as_bytes();
    let mut newlines: usize = 0;
    let mut last_start: usize = 0;
    let mut i: usize = 0;
    while i < offset
        invariant
            b@ == text.spec_bytes(),
            offset <= b@.len(),
            i <= offset,
            newlines == newline_starts(b@, i as int).len(),
            newlines <= i,
            last_start == line_start_before(b@, i as int),
            last_start <= i,
        decreases offset - i,
    {
        if b[i] == 10u8 {
            newlines += 1;
            last_start = i + 1;
        }
        i += 1;
    }
    (crate::text::succ_u32(newlines), crate::text::succ_u32(offset - last_start))
}

/// The typed ref that one match of [`typed_ref_pattern`] in `b` gives, if
/// its prefix names a kind.
pub open spec fn typed_ref_of(b: Seq<u8>, c: CapturesView) -> Option<TypedRefView> {
    if c.len() > 2 && c[0] is Some && c[1] is Some && c[2] is Some {
        let m = c[0]->0;
        match kind_of_prefix(c[1]->0.text) {
            Some(kind) => Some(
                TypedRefView {
                    kind,
                    value: trim_chars(c[2]->0.text),
                    start: m.start,
                    end: m.end,
                    line: line_of(b, m.start),
                    col: char_col_of(b, m.start),
                },
            ),
            None => None,
        }
    } else {
        None
    }
}

/// The typed refs that the matches `ms` in `b` give, in order.
pub open spec fn typed_refs_of(b: Seq<u8>, ms: Seq<CapturesView>) -> Seq<TypedRefView>
    decreases ms.len(),
{
    if ms.len() == 0 {
        Seq::empty()
    } else {
        let prev = typed_refs_of(b, ms.drop_last());
        match typed_ref_of(b, ms.last()) {
            Some(t) => prev.push(t),
            None => prev,
        }
    }
}

/// The typed refs of the text whose characters are `text`.
pub open spec fn spec_typed_refs(text: Seq<char>, b: Seq<u8>) -> Seq<TypedRefView> {
    match regex_captures(typed_ref_pattern(), text) {
        Some(ms) => typed_refs_of(b, ms),
        None => Seq::empty(),
    }
}

/// The group at `i` of a match, if it took part.
fn group_at(c: &Captures, i: usize) -> (r: Option<&crate::patterns::Group>)
    ensures
        r matches Some(g) ==> i < c@.len() && c@[i as int] == Some(g@),
        r is None ==> !(i < c@.len() && c@[i as int] is Some),
{
    if i < c.groups.len() {
        match &c.groups[i] {
            Some(g) => Some(g),
            None => None,
        }
    } else {
        None
    }
}

/// Typed refs lie inside `b` between characters and follow one another.
pub open spec fn typed_ok(b: Seq<u8>, ts: Seq<TypedRefView>) -> bool {
    &&& forall|k: int|
        0 <= k < ts.len() ==> 0 <= #[trigger] ts[k].start <= ts[k].end <= b.len() && at_boundary(
            b,
            ts[k].start,
        ) && at_boundary(b, ts[k].end)
    &&& forall|k: int, j: int| 0 <= k < j < ts.len() ==> #[trigger] ts[k].end <= #[trigger] ts[j].start
}

/// The typed ref that one match `c` in `text` gives.
fn typed_ref_at(text: &str, c: &Captures) -> (r: Option<TypedRef>)
    requires
        c@.len() >= 1,
        c@[0] is Some,
        group_in(text.spec_bytes(), c@[0]->0),
    ensures
        r matches Some(t) ==> typed_ref_of(text.spec_bytes(), c@) == Some(t@),
        r is None ==> typed_ref_of(text.spec_bytes(), c@) is None,
        r matches Some(t) ==> t.start == (c@[0]->0).start && t.end == (c@[0]->0).end,
{
    match (group_at(c, 0), group_at(c, 1), group_at(c, 2)) {
        (Some(m), Some(p), Some(v)) => {
            match RefKind::from_prefix(p.text.as_str()) {
                Some(kind) => {
                    let (line, _) = line_col(text, m.start);
                    let col = char_column(text, m.start);
                    let value = String::from_str(trim(v.text.as_str()));
                    Some(TypedRef { kind, value, start: m.start, end: m.end, line, col })
                },
                None => None,
            }
        },
        _ => None,
    }
}

/// The typed refs that the matches `caps` of [`typed_ref_pattern`] in `text` give.
#[verifier::rlimit(40)]
pub fn typed_refs_from(text: &str, caps: &Vec<Captures>) -> (r: Vec<TypedRef>)
    requires
        matches_in(text.spec_bytes(), captures_view(caps@)),
    ensures
        typed_views(r@) == typed_refs_of(text.spec_bytes(), captures_view(caps@)),
        typed_ok(text.spec_bytes(), typed_views(r@)),
{
    let ghost b = text.spec_bytes();
    let ghost ms = captures_view(caps@);
    let mut out: Vec<TypedRef> = Vec::new();
    let mut k: usize = 0;
    let ghost mut bound: int = 0;
    while k < caps.len()
        invariant
            b == text.spec_bytes(),
            ms == captures_view(caps@),
            matches_in(b, ms),
            k <= caps@.len(),
            typed_views(out@) == typed_refs_of(b, ms.subrange(0, k as int)),
            typed_ok(b, typed_views(out@)),
            forall|j: int| 0 <= j < out@.len() ==> #[trigger] out@[j].end <= bound,
            k > 0 ==> bound == (ms[k - 1][0]->0).end,
            k == 0 ==> out@.len() == 0,
        decreases caps@.len() - k,
    {
        let ghost before = out@;
        proof {
            assert(ms[k as int] == caps@[k as int]@);
            assert(ms[k as int].len() >= 1 && ms[k as int][0] is Some);
            assert(group_in(b, ms[k as int][0]->0));
            if k > 0 {
                assert(ms[k - 1][0]->0.end <= ms[k as int][0]->0.start);
            }
            assert(ms.subrange(0, k + 1).drop_last() =~= ms.subrange(0, k as int));
            assert(ms.subrange(0, k + 1).last() == ms[k as int]);
        }
        let ghost g = ms[k as int][0]->0;
        let t = typed_ref_at(text, &caps[k]);
        match t {
            Some(t) => {
                out.push(t);
                proof {
                    assert(typed_views(out@) =~= typed_views(before).push(out@.last()@));
                }
            },
            None => {},
        }
        proof {
            assert forall|j: int| 0 <= j < out@.len() implies #[trigger] out@[j].end <= g.end by {
                if j < before.len() {
                    assert(out@[j] == before[j]);
                }
            }
            bound = g.end;
        }
        k += 1;
    }
    proof {
        assert(ms.subrange(0, caps@.len() as int) =~= ms);
    }
    out
}

/// Returns all typed ref directives found in `text`, in source order.
pub fn typed_refs(text: &str) -> (r: Vec<TypedRef>)
    ensures
        typed_views(r@) == spec_typed_refs(text@, text.spec_bytes()),
        typed_ok(text.spec_bytes(), typed_views(r@)),
{
    match find_captures("`(ref|cmd|skill|var|env)::([^`]+)`", text) {
        Some(caps) => typed_refs_from(text, &caps),
        None => Vec::new(),
    }
}

// ── Markdown links ────────────────────────────────────────────────────────────

/// A parsed markdown link target with classification and source position.
#[derive(Debug, Clone, PartialEq, Eq, Hash)]
pub struct MarkdownLink {
    /// Display text of the link.
    pub text: String,
    /// Raw target string (path or URL).
    pub target: String,
    /// Whether the target looks like a URL.
    pub is_url: bool,
    /// 1-based line number in the source text.
    pub line: u32,
    /// 1-based column number in the source text.
    pub col: u32,
}

/// The value of a [`MarkdownLink`].
pub struct MarkdownLinkView {
    /// Display text of the link.
    pub text: Seq<char>,
    /// Trimmed target.
    pub target: Seq<char>,
    /// Whether the target looks like a URL.
    pub is_url: bool,
    /// 1-based line number.
    pub line: u32,
    /// 1-based column number.
    pub col: u32,
}

impl View for MarkdownLink {
    type V = MarkdownLinkView;

    open spec fn view(&self) -> MarkdownLinkView {
        MarkdownLinkView {
            text: self.text@,
            target: self.target@,
            is_url: self.is_url,
            line: self.line,
            col: self.col,
        }
    }
}

/// The views of a sequence of links.
pub open spec fn link_views(v: Seq<MarkdownLink>) -> Seq<MarkdownLinkView> {
    v.map_values(|l: MarkdownLink| l@)
}

/// `p` is a prefix of `s`.
pub open spec fn has_prefix(s: Seq<char>, p: Seq<char>) -> bool {
    p.len() <= s.len() && s.subrange(0, p.len() as int) == p
}

/// `p` is a suffix of `s`.
pub open spec fn has_suffix(s: Seq<char>, p: Seq<char>) -> bool {
    p.len() <= s.len() && s.subrange(s.len() - p.len(), s.len() as int) == p
}

/// A target is a URL when it starts with `http://` or `https://`.
pub open spec fn is_url_target(t: Seq<char>) -> bool {
    has_prefix(t, "http://"@) || has_prefix(t, "https://"@)
}

/// Whether `s` starts with `p`.
pub fn starts_with(s: &str, p: &str) -> (r: bool)
    ensures
        r == has_prefix(s@, p@),
{
    crate::workspace::str_starts_with(s, p)
}

/// Whether `s` ends with `p`.
pub fn ends_with(s: &str, p: &str) -> (r: bool)
    ensures
        r == has_suffix(s@, p@),
{
    let cs = s.as_bytes();
    let ps = p.as_bytes();
    if ps.len() > cs.len() {
        proof {
            crate::text::lemma_suffix_bytes_iff_chars(s@, p@);
        }
        return false;
    }
    let r = crate::text::matches_at(cs, cs.len() - ps.len(), ps);
    proof {
        crate::text::lemma_suffix_bytes_iff_chars(s@, p@);
    }
    r
}

/// The link that one match of [`markdown_link_pattern`] in `b` gives.
pub open spec fn link_of(b: Seq<u8>, c: CapturesView) -> Option<MarkdownLinkView> {
    if c.len() > 2 && c[0] is Some && c[1] is Some && c[2] is Some {
        let m = c[0]->0;
        let target = trim_chars(c[2]->0.text);
        Some(
            MarkdownLinkView {
                text: c[1]->0.text,
                target,
                is_url: is_url_target(target),
                line: line_of(b, m.start),
                col: col_of(b, m.start),
            },
        )
    } else {
        None
    }
}

/// The links that the matches `ms` in `b` give, in order.
pub open spec fn links_of(b: Seq<u8>, ms: Seq<CapturesView>) -> Seq<MarkdownLinkView>
    decreases ms.len(),
{
    if ms.len() == 0 {
        Seq::empty()
    } else {
        let prev = links_of(b, ms.drop_last());
        match link_of(b, ms.last()) {
            Some(l) => prev.push(l),
            None => prev,
        }
    }
}

/// The markdown links of the text whose characters are `text`.
pub open spec fn spec_links(text: Seq<char>, b: Seq<u8>) -> Seq<MarkdownLinkView> {
    match regex_captures(markdown_link_pattern(), text) {
        Some(ms) => links_of(b, ms),
        None => Seq::empty(),
    }
}

/// The links that the matches `caps` of [`markdown_link_pattern`] in `text` give.
pub fn links_from(text: &str, caps: &Vec<Captures>) -> (r: Vec<MarkdownLink>)
    requires
        matches_in(text.spec_bytes(), captures_view(caps@)),
    ensures
        link_views(r@) == links_of(text.spec_bytes(), captures_view(caps@)),
{
    let ghost b = text.spec_bytes();
    let ghost ms = captures_view(caps@);
    let mut out: Vec<MarkdownLink> = Vec::new();
    let mut k: usize = 0;
    while k < caps.len()
        invariant
            b == text.spec_bytes(),
            ms == captures_view(caps@),
            matches_in(b, ms),
            k <= caps@.len(),
            link_views(out@) == links_of(b, ms.subrange(0, k as int)),
        decreases caps@.len() - k,
    {
        let ghost before = out@;
        proof {
            assert(ms.subrange(0, k + 1).drop_last() =~= ms.subrange(0, k as int));
            assert(ms.subrange(0, k + 1).last() == ms[k as int]);
            assert(ms[k as int] == caps@[k as int]@);
        }
        let c = &caps[k];
        match (group_at(c, 0), group_at(c, 1), group_at(c, 2)) {
            (Some(m), Some(t), Some(g)) => {
                proof {
                    assert(ms[k as int][0] is Some);
                    assert(group_in(b, ms[k as int][0]->0));
                }
                let (line, col) = line_col(text, m.start);
                let target = trim(g.text.as_str());
                let is_url = starts_with(target, "http://") || starts_with(target, "https://");
                out.push(
                    MarkdownLink {
                        text: t.text.clone(),
                        target: String::from_str(target),
                        is_url,
                        line,
                        col,
                    },
                );
                proof {
                    assert(typed_link_eq(link_views(out@), link_views(before), out@.last()@));
                }
            },
            _ => {},
        }
        k += 1;
    }
    proof {
        assert(ms.subrange(0, caps@.len() as int) =~= ms);
    }
    out
}

/// `a` is `b` with `l` appended.
pub open spec fn typed_link_eq(a: Seq<MarkdownLinkView>, b: Seq<MarkdownLinkView>, l: MarkdownLinkView) -> bool {
    a =~= b.push(l)
}

/// Extracts all markdown link targets from `text`.
///
/// Each entry carries the display text, the trimmed target, a URL flag, and
/// the 1-based line/col of the opening `[` within `text`. Image links
/// (`![]()`) are included — the leading `!` is not part of the match.
pub fn extract_markdown_links(text: &str) -> (r: Vec<MarkdownLink>)
    ensures
        link_views(r@) == spec_links(text@, text.spec_bytes()),
{
    match find_captures("\\[([^\\]]+)\\]\\(([^)]+)\\)", text) {
        Some(caps) => links_from(text, &caps),
        None => Vec::new(),
    }
}

// ── Path refs ─────────────────────────────────────────────────────────────────

/// The trimmed values that the matches `ms` of [`path_ref_pattern`] give.
pub open spec fn path_values_of(ms: Seq<CapturesView>) -> Seq<Seq<char>>
    decreases ms.len(),
{
    if ms.len() == 0 {
        Seq::empty()
    } else {
        let prev = path_values_of(ms.drop_last());
        let c = ms.last();
        if c.len() > 1 && c[1] is Some {
            prev.push(trim_chars(c[1]->0.text))
        } else {
            prev
        }
    }
}

/// The `ref::` path values of the text whose characters are `text`.
pub open spec fn spec_path_refs(text: Seq<char>) -> Seq<Seq<char>> {
    match regex_captures(path_ref_pattern(), text) {
        Some(ms) => path_values_of(ms),
        None => Seq::empty(),
    }
}

/// The trimmed values that the matches `caps` of [`path_ref_pattern`] give.
pub fn path_values_from(caps: &Vec<Captures>) -> (r: Vec<String>)
    ensures
        crate::collections::string_views(r@) == path_values_of(captures_view(caps@)),
{
    let ghost ms = captures_view(caps@);
    let mut out: Vec<String> = Vec::new();
    let mut k: usize = 0;
    while k < caps.len()
        invariant
            ms == captures_view(caps@),
            k <= caps@.len(),
            crate::collections::string_views(out@) == path_values_of(ms.subrange(0, k as int)),
        decreases caps@.len() - k,
    {
        let ghost before = out@;
        proof {
            assert(ms.subrange(0, k + 1).drop_last() =~= ms.subrange(0, k as int));
            assert(ms.subrange(0, k + 1).last() == ms[k as int]);
            assert(ms[k as int] == caps@[k as int]@);
        }
        match group_at(&caps[k], 1) {
            Some(g) => {
                let v = String::from_str(trim(g.text.as_str()));
                out.push(v);
                proof {
                    assert(crate::collections::string_views(out@) =~= crate::collections::string_views(
                        before,
                    ).push(v@));
                }
            },
            None => {},
        }
        k += 1;
    }
    proof {
        assert(ms.subrange(0, caps@.len() as int) =~= ms);
    }
    out
}

/// Extracts the `ref::` path values from `text`.
///
/// Used by the budget module to accumulate transitive token costs.
pub fn extract_path_refs(text: &str) -> (r: Vec<String>)
    ensures
        crate::collections::string_views(r@) == spec_path_refs(text@),
{
    match find_captures("`ref::([^`]+)`", text) {
        Some(caps) => path_values_from(&caps),
        None => Vec::new(),
    }
}

// ── Untyped backticks ─────────────────────────────────────────────────────────

/// Whether `c` has the Unicode `Lowercase` property, as `char::is_lowercase` says.
pub uninterp spec fn char_is_lowercase(c: char) -> bool;

/// Calls `char::is_lowercase`.
#[verifier::external_body]
pub(crate) fn is_lowercase(c: char) -> (r: bool)
    ensures
        r == char_is_lowercase(c),
{
    c.is_lowercase()
}

/// The extensions by which untyped content is taken for a path.
pub open spec fn path_exts() -> Seq<Seq<char>> {
    seq![
        ".sh"@, ".py"@, ".rs"@, ".toml"@, ".json"@, ".yaml"@, ".yml"@, ".md"@, ".txt"@, ".ts"@,
        ".js"@,
    ]
}

/// A word made only of lowercase letters, `-` and `_`.
pub open spec fn is_command_like(w: Seq<char>) -> bool {
    forall|i: int| 0 <= i < w.len() ==> char_is_lowercase(#[trigger] w[i]) || w[i] == '-' || w[i]
        == '_'
}

/// Some word after the first looks like a flag.
pub open spec fn has_flag(ws: Seq<Seq<char>>) -> bool {
    exists|k: int| 1 <= k < ws.len() && has_prefix(#[trigger] ws[k], "-"@)
}

/// The Layer 3 classification of untyped backtick content.
pub open spec fn classify(content: Seq<char>, skill_names: Seq<Seq<char>>) -> Option<Seq<char>> {
    if has_prefix(content, "http://"@) || has_prefix(content, "https://"@) {
        Some("url"@)
    } else if content.contains('/') || exists|k: int|
        0 <= k < path_exts().len() && has_suffix(content, #[trigger] path_exts()[k]) {
        Some("path"@)
    } else if skill_names.contains(content) {
        Some("skill"@)
    } else {
        let ws = words(content);
        if ws.len() >= 2 && is_command_like(ws[0]) && has_flag(ws) {
            Some("command"@)
        } else {
            None
        }
    }
}

fn contains_slash(s: &str) -> (r: bool)
    ensures
        r == s@.contains('/'),
{
    let n = s.unicode_len();
    let mut i: usize = 0;
    while i < n
        invariant
            n == s@.len(),
            i <= n,
            forall|j: int| 0 <= j < i ==> s@[j] != '/',
        decreases n - i,
    {
        if s.get_char(i) == '/' {
            return true;
        }
        i += 1;
    }
    false
}

fn command_like(w: &str) -> (r: bool)
    ensures
        r == is_command_like(w@),
{
    let n = w.unicode_len();
    let mut i: usize = 0;
    while i < n
        invariant
            n == w@.len(),
            i <= n,
            forall|j: int| 0 <= j < i ==> char_is_lowercase(#[trigger] w@[j]) || w@[j] == '-' || w@[j]
                == '_',
        decreases n - i,
    {
        let c = w.get_char(i);
        if !(is_lowercase(c) || c == '-' || c == '_') {
            return false;
        }
        i += 1;
    }
    true
}

fn ends_with_path_ext(content: &str) -> (r: bool)
    ensures
        r == exists|k: int| 0 <= k < path_exts().len() && has_suffix(content@, #[trigger] path_exts()[k]),
{
    let exts: [&str; 11] = [".sh", ".py", ".rs", ".toml", ".json", ".yaml", ".yml", ".md", ".txt", ".ts", ".js"];
    proof {
        assert(exts@.map_values(|e: &str| e@) =~= path_exts());
    }
    let mut k: usize = 0;
    while k < 11
        invariant
            exts@.map_values(|e: &str| e@) == path_exts(),
            k <= 11,
            forall|j: int| 0 <= j < k ==> !has_suffix(content@, #[trigger] path_exts()[j]),
        decreases 11 - k,
    {
        if ends_with(content, exts[k]) {
            proof {
                assert(exts@.map_values(|e: &str| e@)[k as int] == exts[k as int]@);
            }
            return true;
        }
        proof {
            assert(exts@.map_values(|e: &str| e@)[k as int] == exts[k as int]@);
        }
        k += 1;
    }
    false
}

/// Classifies untyped backtick content using the Layer 3 heuristics.
///
/// Returns a short type label (`"path"`, `"url"`, `"skill"`, `"command"`) when
/// the content looks like a recognisable ref type, or `None` when it cannot be
/// classified. The label doubles as the suggested ref prefix in lint messages.
pub fn classify_untyped(content: &str, skill_names: &[&str]) -> (r: Option<&'static str>)
    ensures
        r matches Some(k) ==> classify(content@, str_views(skill_names@)) == Some(k@),
        r is None ==> classify(content@, str_views(skill_names@)) is None,
{
    proof {
        reveal_strlit("url");
        reveal_strlit("path");
        reveal_strlit("skill");
        reveal_strlit("command");
    }
    if starts_with(content, "http://") || starts_with(content, "https://") {
        return Some("url");
    }
    if contains_slash(content) || ends_with_path_ext(content) {
        return Some("path");
    }
    let mut i: usize = 0;
    while i < skill_names.len()
        invariant
            i <= skill_names@.len(),
            forall|j: int| 0 <= j < i ==> skill_names@[j]@ != content@,
            !(has_prefix(content@, "http://"@) || has_prefix(content@, "https://"@)),
            !(content@.contains('/') || exists|k: int|
                0 <= k < path_exts().len() && has_suffix(content@, #[trigger] path_exts()[k])),
        decreases skill_names@.len() - i,
    {
        if str_eq(skill_names[i], content) {
            proof {
                assert(str_views(skill_names@)[i as int] == content@);
                assert(str_views(skill_names@).contains(content@));
            }
            return Some("skill");
        }
        i += 1;
    }
    proof {
        if str_views(skill_names@).contains(content@) {
            let j = choose|j: int| 0 <= j < str_views(skill_names@).len() && str_views(skill_names@)[j] == content@;
            assert(skill_names@[j]@ == content@);
        }
    }
    let parts = split_whitespace(content);
    if parts.len() >= 2 {
        let cmd = parts[0];
        let is_cmd_like = command_like(cmd);
        let mut has_dash = false;
        let mut k: usize = 1;
        while k < parts.len()
            invariant
                1 <= k <= parts@.len(),
                str_views(parts@) == words(content@),
                has_dash == exists|j: int| 1 <= j < k && has_prefix(#[trigger] str_views(parts@)[j], "-"@),
            decreases parts@.len() - k,
        {
            if starts_with(parts[k], "-") {
                proof {
                    assert(str_views(parts@)[k as int] == parts@[k as int]@);
                }
                has_dash = true;
            }
            proof {
                assert(str_views(parts@)[k as int] == parts@[k as int]@);
            }
            k += 1;
        }
        proof {
            assert(str_views(parts@)[0] == parts@[0]@);
        }
        if is_cmd_like && has_dash {
            return Some("command");
        }
    }
    None
}

/// An untyped backtick whose content has been classified by the Layer 3 heuristic.
#[derive(Debug, Clone, PartialEq, Eq)]
pub struct UntypedRef {
    /// Raw content between the backticks (trimmed).
    pub content: String,
    /// Heuristic classification (`"path"`, `"url"`, `"skill"`, `"command"`).
    pub inferred_kind: &'static str,
    /// 1-based line number in the source text.
    pub line: u32,
    /// 1-based column number in the source text.
    pub col: u32,
}

/// The value of an [`UntypedRef`].
pub struct UntypedRefView {
    /// Trimmed content between the backticks.
    pub content: Seq<char>,
    /// Heuristic classification.
    pub inferred_kind: Seq<char>,
    /// 1-based line number.
    pub line: u32,
    /// 1-based column number.
    pub col: u32,
}

impl View for UntypedRef {
    type V = UntypedRefView;

    open spec fn view(&self) -> UntypedRefView {
        UntypedRefView {
            content: self.content@,
            inferred_kind: self.inferred_kind@,
            line: self.line,
            col: self.col,
        }
    }
}

/// The views of a sequence of untyped refs.
pub open spec fn untyped_views(v: Seq<UntypedRef>) -> Seq<UntypedRefView> {
    v.map_values(|t: UntypedRef| t@)
}

/// All refs collected from a single source file in one pass.
///
/// Build this with [`ParsedRefs::extract`] and pass it to lint rules so that
/// each rule reads pre-collected, pre-positioned data rather than re-scanning
/// the raw text.
#[derive(Debug, Clone)]
pub struct ParsedRefs {
    /// Typed ref directives (`ref::`, `cmd::`, `skill::`, `var::`, `env::`).
    pub typed: Vec<TypedRef>,
    /// Markdown links (`[text](target)`).
    pub links: Vec<MarkdownLink>,
    /// Untyped backticks that the Layer 3 heuristic could classify.
    pub untyped: Vec<UntypedRef>,
}

/// The lint kind of a parsed ref kind; agent and URL refs have none.
pub open spec fn lint_kind(k: ParserRefKind) -> Option<RefKind> {
    match k {
        ParserRefKind::Reference => Some(RefKind::Ref),
        ParserRefKind::Path => Some(RefKind::Ref),
        ParserRefKind::Skill => Some(RefKind::Skill),
        ParserRefKind::Cmd => Some(RefKind::Cmd),
        ParserRefKind::Var => Some(RefKind::Var),
        ParserRefKind::Env => Some(RefKind::Env),
        ParserRefKind::Agent => None,
        ParserRefKind::Url => None,
    }
}

/// The line of byte `offset` of `b`, as the source's location table gives it.
pub open spec fn loc_line(b: Seq<u8>, offset: int) -> u32 {
    (1 + newline_starts(b, offset).len()) as u32
}

/// The column of byte `offset` of `b`, as the source's location table gives it.
pub open spec fn loc_col(b: Seq<u8>, offset: int) -> u32 {
    (offset - line_start_before(b, offset) + 1) as u32
}

/// The typed refs among the nodes `ns` of `b`, in order.
pub open spec fn parsed_typed(b: Seq<u8>, ns: Seq<NodeView>) -> Seq<TypedRefView>
    decreases ns.len(),
{
    if ns.len() == 0 {
        Seq::empty()
    } else {
        let prev = parsed_typed(b, ns.drop_last());
        match ns.last() {
            NodeView::Ref { kind, value, source_range } => match lint_kind(kind) {
                Some(k) => prev.push(
                    TypedRefView {
                        kind: k,
                        value: trim_chars(value),
                        start: source_range.start as int,
                        end: source_range.end as int,
                        line: loc_line(b, source_range.start as int),
                        col: char_col_of(b, source_range.start as int),
                    },
                ),
                None => prev,
            },
            _ => prev,
        }
    }
}

/// The classified untyped backticks among the nodes `ns` of `b`, in order.
pub open spec fn parsed_untyped(b: Seq<u8>, ns: Seq<NodeView>, names: Seq<Seq<char>>) -> Seq<UntypedRefView>
    decreases ns.len(),
{
    if ns.len() == 0 {
        Seq::empty()
    } else {
        let prev = parsed_untyped(b, ns.drop_last(), names);
        match ns.last() {
            NodeView::RefSuspect { source_range } => {
                let content = trim_chars(
                    decode_utf8(b.subrange(source_range.start + 1, source_range.end - 1)),
                );
                match classify(content, names) {
                    Some(kind) => prev.push(
                        UntypedRefView {
                            content,
                            inferred_kind: kind,
                            line: loc_line(b, source_range.start as int),
                            col: loc_col(b, source_range.start as int),
                        },
                    ),
                    None => prev,
                }
            },
            _ => prev,
        }
    }
}

impl ParsedRefs {
    /// Scans `raw` once and populates all three ref collections.
    ///
    /// `skill_names` is used by the untyped-backtick classifier to recognise
    /// cross-skill references.
    pub fn extract(raw: &str, skill_names: &[&str]) -> (r: Self)
        requires
            raw.spec_bytes().len() < u32::MAX,
        ensures
            typed_views(r.typed@) == parsed_typed(raw.spec_bytes(), spec_parse(raw.spec_bytes()).0),
            untyped_views(r.untyped@) == parsed_untyped(
                raw.spec_bytes(),
                spec_parse(raw.spec_bytes()).0,
                str_views(skill_names@),
            ),
            link_views(r.links@) == spec_links(raw@, raw.spec_bytes()),
    {
        let ghost b = raw.spec_bytes();
        let source = PanSource::new(String::from_str(raw));
        let mut parser = PanParse::new(&source);
        parser.parse();
        proof {
            lemma_str_bytes(raw);
            crate::compiler::parse::lemma_spec_parse_ok(b);
        }
        let ghost ns = spec_parse(b).0;
        let mut typed: Vec<TypedRef> = Vec::new();
        let mut untyped: Vec<UntypedRef> = Vec::new();
        let mut i: usize = 0;
        while i < parser.nodes.len()
            invariant
                b == raw.spec_bytes(),
                b.len() < u32::MAX,
                valid_utf8(b),
                source.wf(),
                source.bytes() == b,
                nodes_view(parser.nodes@) == ns,
                nodes_ok(b, ns, 0),
                i <= ns.len(),
                typed_views(typed@) == parsed_typed(b, ns.subrange(0, i as int)),
                untyped_views(untyped@) == parsed_untyped(b, ns.subrange(0, i as int), str_views(skill_names@)),
            decreases ns.len() - i,
        {
            let ghost tb = typed@;
            let ghost ub = untyped@;
            proof {
                assert(ns.subrange(0, i + 1).drop_last() =~= ns.subrange(0, i as int));
                assert(ns.subrange(0, i + 1).last() == ns[i as int]);
                assert(node_ok(b, ns[i as int]));
                crate::compiler::lemma_last_start(b, ns[i as int].range().start as int);
            }
            match &parser.nodes[i] {
                Node::Ref { kind, value, source_range } => {
                    let lk = match kind {
                        ParserRefKind::Reference | ParserRefKind::Path => Some(RefKind::Ref),
                        ParserRefKind::Skill => Some(RefKind::Skill),
                        ParserRefKind::Cmd => Some(RefKind::Cmd),
                        ParserRefKind::Var => Some(RefKind::Var),
                        ParserRefKind::Env => Some(RefKind::Env),
                        ParserRefKind::Agent | ParserRefKind::Url => None,
                    };
                    match lk {
                        Some(k) => {
                            let loc = source.location_at(source_range.start);
                            let col = char_column(raw, source_range.start as usize);
                            typed.push(
                                TypedRef {
                                    kind: k,
                                    value: String::from_str(trim(value.as_str())),
                                    start: source_range.start as usize,
                                    end: source_range.end as usize,
                                    line: loc.line,
                                    col,
                                },
                            );
                            proof {
                                assert(typed_views(typed@) =~= typed_views(tb).push(typed@.last()@));
                            }
                        },
                        None => {},
                    }
                },
                Node::RefSuspect { source_range } => {
                    proof {
                        lemma_after_ascii(b, source_range.start as int);
                    }
                    let inner = slice_str(raw, (source_range.start + 1) as usize, (source_range.end - 1) as usize);
                    let content = trim(inner);
                    match classify_untyped(content, skill_names) {
                        Some(inferred_kind) => {
                            let loc = source.location_at(source_range.start);
                            untyped.push(
                                UntypedRef {
                                    content: String::from_str(content),
                                    inferred_kind,
                                    line: loc.line,
                                    col: loc.column,
                                },
                            );
                            proof {
                                assert(untyped_views(untyped@) =~= untyped_views(ub).push(untyped@.last()@));
                            }
                        },
                        None => {},
                    }
                },
                _ => {},
            }
            i += 1;
        }
        proof {
            assert(ns.subrange(0, ns.len() as int) =~= ns);
        }
        let links = extract_markdown_links(raw);
        ParsedRefs { typed, links, untyped }
    }
}

/// What [`extract_body`] gives: the content after the front matter, or the
/// whole text when the front matter cannot be read.
pub open spec fn spec_extract_body(raw: Seq<char>) -> Seq<char> {
    match crate::parse::gray_matter_parse(raw) {
        Ok(p) => p.content,
        Err(_) => raw,
    }
}

/// Extracts the markdown body from a `.pan` source, stripping the YAML frontmatter.
pub fn extract_body(raw: &str) -> (r: String)
    ensures
        r@ == spec_extract_body(raw@),
{
    match crate::parse::read_matter(raw) {
        Ok(p) => p.content,
        Err(_) => String::from_str(raw),
    }
}

} // verus!
