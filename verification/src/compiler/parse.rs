//! Parser for `.pan` inline syntax.
//!
//! The parser walks the lexer's tokens once, turning them into nodes and
//! collecting non-fatal errors. Its result is stated by [`spec_parse`], which
//! follows the token sequence step by step.
use core::ops::Range;
use vstd::prelude::*;
use vstd::string::StringSliceAdditionalSpecFns;
use vstd::utf8::{decode_utf8, valid_utf8};

use super::lex::{spec_tokenize, token_ok, tokens_ok, lemma_tokenize_ok, Lexer, Token, TokenKind, TICK};
use super::PanSource;
use crate::text::{at_boundary, lemma_ends_at_boundary, lemma_str_bytes, slice_str};

verus! {

/// The typed category of a parsed inline ref.
#[derive(Debug, Clone, Copy, PartialEq, Eq, Structural)]
pub enum RefKind {
    /// `agent::...`
    Agent,
    /// `skill::...`
    Skill,
    /// `cmd::...`
    Cmd,
    /// `path::...`
    Path,
    /// `url::...`
    Url,
    /// `ref::...`
    Reference,
    /// `var::...`
    Var,
    /// `env::...`
    Env,
}

/// Parser error categories.
#[derive(Debug, Clone, Copy, PartialEq, Eq, Structural)]
pub enum ParseErrorKind {
    /// Source ended unexpectedly.
    UnexpectedEof,
    /// An unexpected token appeared in the stream.
    UnexpectedToken,
    /// A typed ref was missing its value after `::`.
    ExpectedRefValueAfterDoubleColon,
    /// A fragment opener was missing its value.
    ExpectedRefValueAfterFragmentOpen,
    /// A double-tick escape was missing its body text.
    ExpectedBodyTextAfterEscape,
    /// A fragment opener had no matching close delimiter.
    UnclosedFragment,
    /// A double-tick escape had no closing delimiter.
    UnclosedEscape,
    /// A typed ref had no closing backtick.
    UnclosedRef,
}

/// Parsed node kinds from a `.pan` document.
#[derive(Debug, PartialEq, Eq)]
pub enum Node {
    /// A typed inline reference.
    Ref {
        /// Reference kind.
        kind: RefKind,
        /// Parsed value without delimiters.
        value: String,
        /// Byte range of the full source span.
        source_range: Range<u32>,
    },
    /// A fragment insertion.
    Fragment {
        /// Fragment identifier.
        value: String,
        /// Byte range of the full source span.
        source_range: Range<u32>,
    },
    /// Tick-wrapped text that looked suspicious but was not a typed ref.
    RefSuspect {
        /// Byte range of the full source span.
        source_range: Range<u32>,
    },
    /// Escaped body text wrapped in double backticks.
    EscapedBody {
        /// Byte range of the full source span.
        source_range: Range<u32>,
    },
    /// Plain body text.
    Body {
        /// Byte range of the full source span.
        source_range: Range<u32>,
    },
}

/// The mathematical value of a [`Node`]: its text values as character sequences.
pub enum NodeView {
    /// A typed inline reference.
    Ref { kind: RefKind, value: Seq<char>, source_range: Range<u32> },
    /// A fragment insertion.
    Fragment { value: Seq<char>, source_range: Range<u32> },
    /// Tick-wrapped text that is not a typed ref.
    RefSuspect { source_range: Range<u32> },
    /// Escaped body text.
    EscapedBody { source_range: Range<u32> },
    /// Plain body text.
    Body { source_range: Range<u32> },
}

impl View for Node {
    type V = NodeView;

    open spec fn view(&self) -> NodeView {
        match self {
            Node::Ref { kind, value, source_range } => NodeView::Ref {
                kind: *kind,
                value: value@,
                source_range: *source_range,
            },
            Node::Fragment { value, source_range } => NodeView::Fragment {
                value: value@,
                source_range: *source_range,
            },
            Node::RefSuspect { source_range } => NodeView::RefSuspect {
                source_range: *source_range,
            },
            Node::EscapedBody { source_range } => NodeView::EscapedBody {
                source_range: *source_range,
            },
            Node::Body { source_range } => NodeView::Body { source_range: *source_range },
        }
    }
}

impl Clone for Node {
    fn clone(&self) -> (r: Self)
        ensures
            r@ == self@,
    {
        match self {
            Node::Ref { kind, value, source_range } => Node::Ref {
                kind: *kind,
                value: value.clone(),
                source_range: Range { start: source_range.start, end: source_range.end },
            },
            Node::Fragment { value, source_range } => Node::Fragment {
                value: value.clone(),
                source_range: Range { start: source_range.start, end: source_range.end },
            },
            Node::RefSuspect { source_range } => Node::RefSuspect {
                source_range: Range { start: source_range.start, end: source_range.end },
            },
            Node::EscapedBody { source_range } => Node::EscapedBody {
                source_range: Range { start: source_range.start, end: source_range.end },
            },
            Node::Body { source_range } => Node::Body {
                source_range: Range { start: source_range.start, end: source_range.end },
            },
        }
    }
}

impl Clone for ParseError {
    fn clone(&self) -> (r: Self)
        ensures
            r == *self,
    {
        ParseError { range: Range { start: self.range.start, end: self.range.end }, kind: self.kind }
    }
}

impl NodeView {
    /// The byte range the node covers.
    pub open spec fn range(self) -> Range<u32> {
        match self {
            NodeView::Ref { source_range, .. } => source_range,
            NodeView::Fragment { source_range, .. } => source_range,
            NodeView::RefSuspect { source_range } => source_range,
            NodeView::EscapedBody { source_range } => source_range,
            NodeView::Body { source_range } => source_range,
        }
    }
}

/// A parse error with its source range.
#[derive(Debug, PartialEq, Eq)]
pub struct ParseError {
    /// Byte range where the error occurred.
    pub range: Range<u32>,
    /// Error category.
    pub kind: ParseErrorKind,
}

/// Parser output for a `.pan` source.
#[derive(Debug)]
pub struct PanParse<'a> {
    /// Parsed nodes.
    pub nodes: Vec<Node>,
    /// Collected non-fatal parse errors.
    pub errors: Vec<ParseError>,
    /// The text being parsed.
    pub src: &'a str,
}

// ── Specification ─────────────────────────────────────────────────────────────

/// The views of a sequence of nodes.
pub open spec fn nodes_view(ns: Seq<Node>) -> Seq<NodeView> {
    ns.map_values(|n: Node| n@)
}

/// Token `j` exists and has kind `k`.
pub open spec fn is_kind(t: Seq<Token>, j: int, k: TokenKind) -> bool {
    0 <= j < t.len() && t[j].kind == k
}

/// The text covered by a token.
pub open spec fn token_text(b: Seq<u8>, tok: Token) -> Seq<char> {
    decode_utf8(b.subrange(tok.range.start as int, tok.range.end as int))
}

/// The range from `start` to `end`.
pub open spec fn span(start: u32, end: u32) -> Range<u32> {
    Range { start, end }
}

/// An error of kind `kind` over `range`.
pub open spec fn err(range: Range<u32>, kind: ParseErrorKind) -> ParseError {
    ParseError { range, kind }
}

/// The first index at or after `j` whose token is a tick or a fragment opener
/// (or the end): where parsing resumes after an error.
pub open spec fn recover_end(t: Seq<Token>, j: int) -> int
    decreases t.len() - j,
{
    if j < 0 || j >= t.len() {
        j
    } else if t[j].kind is Tick || t[j].kind is FragmentOpen {
        j
    } else {
        recover_end(t, j + 1)
    }
}

/// The ref kind that a keyword token introduces.
pub open spec fn keyword_ref_kind(k: TokenKind) -> Option<RefKind> {
    match k {
        TokenKind::RefSkill => Some(RefKind::Skill),
        TokenKind::RefReference => Some(RefKind::Reference),
        TokenKind::RefAgent => Some(RefKind::Agent),
        TokenKind::RefCmd => Some(RefKind::Cmd),
        TokenKind::RefPath => Some(RefKind::Path),
        TokenKind::RefUrl => Some(RefKind::Url),
        TokenKind::RefVar => Some(RefKind::Var),
        TokenKind::RefEnv => Some(RefKind::Env),
        _ => None,
    }
}

/// What a typed ref whose keyword is token `kw` yields: the nodes, the
/// errors and the index where parsing goes on.
pub open spec fn ref_step(b: Seq<u8>, t: Seq<Token>, kw: int, start_offset: u32, kind: RefKind) -> (
    Seq<NodeView>,
    Seq<ParseError>,
    int,
) {
    let j = kw + 1;
    if !is_kind(t, j, TokenKind::DoubleColon) {
        (Seq::empty(), Seq::empty(), j)
    } else if !is_kind(t, j + 1, TokenKind::RefValue) {
        (
            Seq::empty(),
            seq![err(t[j].range, ParseErrorKind::ExpectedRefValueAfterDoubleColon)],
            recover_end(t, j + 1),
        )
    } else if !is_kind(t, j + 2, TokenKind::Tick) {
        (
            Seq::empty(),
            seq![err(span(start_offset, t[kw].range.end), ParseErrorKind::UnclosedRef)],
            recover_end(t, j + 2),
        )
    } else {
        (
            seq![
                NodeView::Ref {
                    kind,
                    value: token_text(b, t[j + 1]),
                    source_range: span(start_offset, t[j + 2].range.end),
                },
            ],
            Seq::empty(),
            j + 3,
        )
    }
}

/// What the tokens from a tick at index `i` on yield.
pub open spec fn tick_step(b: Seq<u8>, t: Seq<Token>, i: int) -> (
    Seq<NodeView>,
    Seq<ParseError>,
    int,
) {
    let tk = t[i];
    if i + 1 >= t.len() {
        (Seq::empty(), seq![err(tk.range, ParseErrorKind::UnexpectedEof)], i + 1)
    } else {
        let p = t[i + 1];
        match keyword_ref_kind(p.kind) {
            Some(rk) => ref_step(b, t, i + 1, tk.range.start, rk),
            None => if p.kind is BodyText {
                if is_kind(t, i + 2, TokenKind::Tick) {
                    (
                        seq![
                            NodeView::RefSuspect {
                                source_range: span(tk.range.start, t[i + 2].range.end),
                            },
                        ],
                        Seq::empty(),
                        i + 3,
                    )
                } else {
                    (
                        seq![NodeView::Body { source_range: span(tk.range.start, p.range.end) }],
                        Seq::empty(),
                        i + 2,
                    )
                }
            } else {
                (
                    Seq::empty(),
                    seq![err(span(tk.range.start, p.range.end), ParseErrorKind::UnexpectedToken)],
                    i + 1,
                )
            },
        }
    }
}

/// What the tokens from index `i` on yield in one step: the nodes, the
/// errors and the index where parsing goes on.
pub open spec fn parse_step(b: Seq<u8>, t: Seq<Token>, i: int) -> (
    Seq<NodeView>,
    Seq<ParseError>,
    int,
) {
    let tk = t[i];
    match tk.kind {
        TokenKind::BodyText => (
            seq![NodeView::Body { source_range: tk.range }],
            Seq::empty(),
            i + 1,
        ),
        TokenKind::Tick => tick_step(b, t, i),
        TokenKind::TickDouble => if !is_kind(t, i + 1, TokenKind::BodyText) {
            (
                Seq::empty(),
                seq![err(tk.range, ParseErrorKind::ExpectedBodyTextAfterEscape)],
                recover_end(t, i + 1),
            )
        } else if !is_kind(t, i + 2, TokenKind::TickDouble) {
            (
                Seq::empty(),
                seq![err(tk.range, ParseErrorKind::UnclosedEscape)],
                recover_end(t, i + 2),
            )
        } else {
            (
                seq![
                    NodeView::EscapedBody {
                        source_range: span(tk.range.start, t[i + 2].range.end),
                    },
                ],
                Seq::empty(),
                i + 3,
            )
        },
        TokenKind::FragmentOpen => if !is_kind(t, i + 1, TokenKind::RefValue) {
            (
                Seq::empty(),
                seq![err(tk.range, ParseErrorKind::ExpectedRefValueAfterFragmentOpen)],
                recover_end(t, i + 1),
            )
        } else if !is_kind(t, i + 2, TokenKind::FragmentClose) {
            (
                Seq::empty(),
                seq![err(tk.range, ParseErrorKind::UnclosedFragment)],
                recover_end(t, i + 2),
            )
        } else {
            (
                seq![
                    NodeView::Fragment {
                        value: token_text(b, t[i + 1]),
                        source_range: span(tk.range.start, t[i + 2].range.end),
                    },
                ],
                Seq::empty(),
                i + 3,
            )
        },
        _ => (Seq::empty(), seq![err(tk.range, ParseErrorKind::UnexpectedToken)], i + 1),
    }
}

/// The nodes and errors that the tokens from index `i` on yield.
pub open spec fn parse_from(b: Seq<u8>, t: Seq<Token>, i: int) -> (Seq<NodeView>, Seq<ParseError>)
    decreases t.len() - i,
{
    if i < 0 || i >= t.len() {
        (Seq::empty(), Seq::empty())
    } else {
        let (n, e, j) = parse_step(b, t, i);
        if i < j <= t.len() {
            let (n2, e2) = parse_from(b, t, j);
            (n + n2, e + e2)
        } else {
            (n, e)
        }
    }
}

/// The nodes and errors of the text whose bytes are `b`.
pub open spec fn spec_parse(b: Seq<u8>) -> (Seq<NodeView>, Seq<ParseError>) {
    parse_from(b, spec_tokenize(b, 0), 0)
}

// ── Lemmas ────────────────────────────────────────────────────────────────────

/// Recovery never moves backwards nor past the end.
pub proof fn lemma_recover_end(t: Seq<Token>, j: int)
    requires
        0 <= j <= t.len(),
    ensures
        j <= recover_end(t, j) <= t.len(),
    decreases t.len() - j,
{
    if j < t.len() && !(t[j].kind is Tick || t[j].kind is FragmentOpen) {
        lemma_recover_end(t, j + 1);
    }
}

/// Each step consumes at least one token and stays inside the sequence.
pub proof fn lemma_parse_step_advances(b: Seq<u8>, t: Seq<Token>, i: int)
    requires
        0 <= i < t.len(),
    ensures
        i < parse_step(b, t, i).2 <= t.len(),
{
    lemma_recover_end(t, i + 1);
    if i + 2 <= t.len() {
        lemma_recover_end(t, i + 2);
    }
    if i + 3 <= t.len() {
        lemma_recover_end(t, i + 3);
    }
}

/// Unfolds [`parse_from`] by one step.
pub proof fn lemma_parse_unfold(b: Seq<u8>, t: Seq<Token>, i: int)
    requires
        0 <= i < t.len(),
    ensures
        parse_from(b, t, i).0 == parse_step(b, t, i).0 + parse_from(b, t, parse_step(b, t, i).2).0,
        parse_from(b, t, i).1 == parse_step(b, t, i).1 + parse_from(b, t, parse_step(b, t, i).2).1,
{
    lemma_parse_step_advances(b, t, i);
}

// ── Node law ──────────────────────────────────────────────────────────────────

/// A node lies inside `b` and starts and ends between characters; an escape
/// and a suspect ref are wrapped in the backticks that delimit them.
pub open spec fn node_ok(b: Seq<u8>, n: NodeView) -> bool {
    let s = n.range().start as int;
    let e = n.range().end as int;
    &&& s <= e <= b.len()
    &&& at_boundary(b, s)
    &&& at_boundary(b, e)
    &&& (n is EscapedBody ==> s + 4 <= e && b[s] == TICK && b[s + 1] == TICK && b[e - 2] == TICK
        && b[e - 1] == TICK)
    &&& (n is RefSuspect ==> s + 2 <= e && b[s] == TICK && b[e - 1] == TICK)
}

/// Every node of `ns` is well formed, starts at or after `lo`, and the nodes
/// follow one another without overlapping.
pub open spec fn nodes_ok(b: Seq<u8>, ns: Seq<NodeView>, lo: int) -> bool {
    &&& forall|k: int| 0 <= k < ns.len() ==> #[trigger] node_ok(b, ns[k])
    &&& forall|k: int| 0 <= k < ns.len() ==> lo <= #[trigger] ns[k].range().start
    &&& forall|k: int, m: int|
        0 <= k < m < ns.len() ==> #[trigger] ns[k].range().end <= #[trigger] ns[m].range().start
}

/// The nodes of one step are well formed and end with the last token the
/// step consumed.
pub proof fn lemma_parse_step_ok(b: Seq<u8>, t: Seq<Token>, i: int)
    requires
        tokens_ok(b, t, 0),
        0 <= i < t.len(),
    ensures
        nodes_ok(b, parse_step(b, t, i).0, t[i].range.start as int),
        forall|k: int|
            0 <= k < parse_step(b, t, i).0.len() ==> #[trigger] parse_step(b, t, i).0[k].range().end
                <= t[parse_step(b, t, i).2 - 1].range.end,
        parse_step(b, t, i).0.len() <= 1,
{
    lemma_parse_step_advances(b, t, i);
    assert(token_ok(b, t[i]));
    if i + 1 < t.len() {
        assert(token_ok(b, t[i + 1]));
        assert(t[i].range.end <= t[i + 1].range.start);
    }
    if i + 2 < t.len() {
        assert(token_ok(b, t[i + 2]));
        assert(t[i + 1].range.end <= t[i + 2].range.start);
    }
    if i + 4 < t.len() {
        assert(token_ok(b, t[i + 4]));
        assert(t[i].range.end <= t[i + 4].range.start);
    }
}

/// The nodes that the tokens from index `i` on yield are well formed and ordered.
pub proof fn lemma_parse_from_ok(b: Seq<u8>, t: Seq<Token>, i: int)
    requires
        tokens_ok(b, t, 0),
        0 <= i < t.len(),
    ensures
        nodes_ok(b, parse_from(b, t, i).0, t[i].range.start as int),
    decreases t.len() - i,
{
    let (n, e, j) = parse_step(b, t, i);
    lemma_parse_step_ok(b, t, i);
    lemma_parse_step_advances(b, t, i);
    if j < t.len() {
        lemma_parse_from_ok(b, t, j);
        let rest = parse_from(b, t, j).0;
        let all = n + rest;
        assert(parse_from(b, t, i).0 == all);
        assert(t[j - 1].range.end <= t[j].range.start);
        assert(t[i].range.start <= t[j].range.start) by {
            if i < j - 1 {
                assert(t[i].range.end <= t[j - 1].range.start);
            }
            assert(token_ok(b, t[i]));
            assert(token_ok(b, t[j - 1]));
        }
        assert forall|k: int, m: int| 0 <= k < m < all.len() implies #[trigger] all[k].range().end
            <= #[trigger] all[m].range().start by {
            if k < n.len() && m >= n.len() {
                assert(all[k] == n[k]);
                assert(all[m] == rest[m - n.len()]);
            } else if k >= n.len() {
                assert(all[k] == rest[k - n.len()]);
                assert(all[m] == rest[m - n.len()]);
            }
        }
        assert forall|k: int| 0 <= k < all.len() implies #[trigger] node_ok(b, all[k])
            && t[i].range.start <= all[k].range().start by {
            if k < n.len() {
                assert(all[k] == n[k]);
            } else {
                assert(all[k] == rest[k - n.len()]);
            }
        }
    } else {
        lemma_parse_unfold(b, t, i);
        assert(parse_from(b, t, j).0 =~= Seq::<NodeView>::empty());
        assert(parse_from(b, t, i).0 =~= n);
    }
}

/// Every error range lies in `b`, its start no later than its end.
pub open spec fn errors_ok(b: Seq<u8>, es: Seq<ParseError>) -> bool {
    forall|k: int| 0 <= k < es.len() ==> (#[trigger] es[k]).range.start <= es[k].range.end <= b.len()
}

/// The errors of one step lie in the text.
proof fn lemma_parse_step_errors_ok(b: Seq<u8>, t: Seq<Token>, i: int)
    requires
        tokens_ok(b, t, 0),
        0 <= i < t.len(),
    ensures
        errors_ok(b, parse_step(b, t, i).1),
{
    assert(token_ok(b, t[i]));
    if i + 1 < t.len() {
        assert(token_ok(b, t[i + 1]));
        assert(t[i].range.end <= t[i + 1].range.start);
    }
    if i + 2 < t.len() {
        assert(token_ok(b, t[i + 2]));
        assert(t[i + 1].range.end <= t[i + 2].range.start);
    }
    if i + 3 < t.len() {
        assert(token_ok(b, t[i + 3]));
    }
}

/// The errors from index `i` on lie in the text.
proof fn lemma_parse_from_errors_ok(b: Seq<u8>, t: Seq<Token>, i: int)
    requires
        tokens_ok(b, t, 0),
    ensures
        errors_ok(b, parse_from(b, t, i).1),
    decreases t.len() - i,
{
    if 0 <= i < t.len() {
        let (n, e, j) = parse_step(b, t, i);
        lemma_parse_step_errors_ok(b, t, i);
        if i < j <= t.len() {
            lemma_parse_from_errors_ok(b, t, j);
            let rest = parse_from(b, t, j).1;
            let all = e + rest;
            assert(parse_from(b, t, i).1 == all);
            assert forall|k: int| 0 <= k < all.len() implies (#[trigger] all[k]).range.start <= all[k].range.end
                <= b.len() by {
                if k < e.len() {
                    assert(all[k] == e[k]);
                } else {
                    assert(all[k] == rest[k - e.len()]);
                }
            }
        }
    }
}

/// Law: every error the parser collects covers a range of the text, its
/// start no later than its end.
pub proof fn lemma_parse_errors_in_bounds(b: Seq<u8>)
    requires
        valid_utf8(b),
        b.len() <= u32::MAX,
    ensures
        errors_ok(b, spec_parse(b).1),
{
    lemma_ends_at_boundary(b);
    lemma_tokenize_ok(b, 0);
    lemma_parse_from_errors_ok(b, spec_tokenize(b, 0), 0);
}

/// The nodes of a parsed text are well formed and follow one another.
pub proof fn lemma_spec_parse_ok(b: Seq<u8>)
    requires
        valid_utf8(b),
        b.len() <= u32::MAX,
    ensures
        nodes_ok(b, spec_parse(b).0, 0),
{
    lemma_ends_at_boundary(b);
    lemma_tokenize_ok(b, 0);
    let t = spec_tokenize(b, 0);
    if t.len() > 0 {
        lemma_parse_from_ok(b, t, 0);
    }
}

// ── Implementation ────────────────────────────────────────────────────────────

impl<'a> PanParse<'a> {
    /// The bytes being parsed.
    pub open spec fn bytes(&self) -> Seq<u8> {
        self.src.spec_bytes()
    }

    /// Creates a parser over a source file.
    pub fn new(pan_source: &'a PanSource) -> (r: Self)
        ensures
            r.bytes() == pan_source.bytes(),
            r.nodes@.len() == 0,
            r.errors@.len() == 0,
    {
        Self { src: pan_source.src.as_str(), nodes: Vec::new(), errors: Vec::new() }
    }

    fn get_source_string(&self, token: &Token) -> (r: String)
        requires
            valid_utf8(self.bytes()),
            token_ok(self.bytes(), *token),
        ensures
            r@ == token_text(self.bytes(), *token),
    {
        let s = slice_str(self.src, token.range.start as usize, token.range.end as usize);
        String::from_str(s)
    }

    /// Whether parsing resumes at this token after an error.
    fn resumes_at(t: &Token) -> (r: bool)
        ensures
            r == (t.kind is Tick || t.kind is FragmentOpen),
    {
        match t.kind {
            TokenKind::Tick | TokenKind::FragmentOpen => true,
            _ => false,
        }
    }

    /// Skips tokens from `j` on up to the next tick or fragment opener.
    fn recover(&self, tokens: &Vec<Token>, j: usize) -> (r: usize)
        requires
            j <= tokens@.len(),
        ensures
            r == recover_end(tokens@, j as int),
    {
        let mut k = j;
        while k < tokens.len() && !Self::resumes_at(&tokens[k])
            invariant
                j <= k <= tokens@.len(),
                recover_end(tokens@, k as int) == recover_end(tokens@, j as int),
            decreases tokens@.len() - k,
        {
            k += 1;
        }
        k
    }

    /// Parses a typed ref whose keyword is token `kw`, opened by a tick at
    /// `start_offset`; returns where parsing goes on.
    fn make_ref_node(&mut self, tokens: &Vec<Token>, kw: usize, start_offset: u32, kind: RefKind) -> (r: usize)
        requires
            valid_utf8(old(self).bytes()),
            kw < tokens@.len(),
            tokens_ok(old(self).bytes(), tokens@, 0),
        ensures
            final(self).bytes() == old(self).bytes(),
            nodes_view(final(self).nodes@) == nodes_view(old(self).nodes@) + ref_step(
                old(self).bytes(),
                tokens@,
                kw as int,
                start_offset,
                kind,
            ).0,
            final(self).errors@ == old(self).errors@ + ref_step(
                old(self).bytes(),
                tokens@,
                kw as int,
                start_offset,
                kind,
            ).1,
            r == ref_step(old(self).bytes(), tokens@, kw as int, start_offset, kind).2,
    {
        let ghost old_nodes = nodes_view(self.nodes@);
        let n = tokens.len();
        let j = kw + 1;
        if j >= n || tokens[j].kind != TokenKind::DoubleColon {
            return j;
        }
        if n - j <= 1 || tokens[j + 1].kind != TokenKind::RefValue {
            self.errors.push(
                ParseError {
                    kind: ParseErrorKind::ExpectedRefValueAfterDoubleColon,
                    range: Range { start: tokens[j].range.start, end: tokens[j].range.end },
                },
            );
            return self.recover(tokens, j + 1);
        }
        if n - j <= 2 || tokens[j + 2].kind != TokenKind::Tick {
            self.errors.push(
                ParseError {
                    kind: ParseErrorKind::UnclosedRef,
                    range: Range { start: start_offset, end: tokens[kw].range.end },
                },
            );
            return self.recover(tokens, j + 2);
        }
        proof {
            assert(token_ok(self.bytes(), tokens@[j + 1]));
        }
        let value = self.get_source_string(&tokens[j + 1]);
        self.nodes.push(
            Node::Ref {
                kind,
                value,
                source_range: Range { start: start_offset, end: tokens[j + 2].range.end },
            },
        );
        proof {
            assert(nodes_view(self.nodes@) =~= old_nodes + ref_step(
                self.bytes(),
                tokens@,
                kw as int,
                start_offset,
                kind,
            ).0);
        }
        j + 3
    }

    /// Parses what a tick at index `i` opens; returns where parsing goes on.
    fn parse_tick(&mut self, tokens: &Vec<Token>, i: usize) -> (r: usize)
        requires
            valid_utf8(old(self).bytes()),
            i < tokens@.len(),
            tokens@[i as int].kind is Tick,
            tokens_ok(old(self).bytes(), tokens@, 0),
        ensures
            final(self).bytes() == old(self).bytes(),
            nodes_view(final(self).nodes@) == nodes_view(old(self).nodes@) + tick_step(
                old(self).bytes(),
                tokens@,
                i as int,
            ).0,
            final(self).errors@ == old(self).errors@ + tick_step(
                old(self).bytes(),
                tokens@,
                i as int,
            ).1,
            r == tick_step(old(self).bytes(), tokens@, i as int).2,
    {
        let ghost old_nodes = nodes_view(self.nodes@);
        let n = tokens.len();
        let start = tokens[i].range.start;
        if n - i <= 1 {
            self.errors.push(
                ParseError {
                    range: Range { start, end: tokens[i].range.end },
                    kind: ParseErrorKind::UnexpectedEof,
                },
            );
            return i + 1;
        }
        let p = &tokens[i + 1];
        match p.kind {
            TokenKind::RefSkill => self.make_ref_node(tokens, i + 1, start, RefKind::Skill),
            TokenKind::RefReference => self.make_ref_node(tokens, i + 1, start, RefKind::Reference),
            TokenKind::RefAgent => self.make_ref_node(tokens, i + 1, start, RefKind::Agent),
            TokenKind::RefCmd => self.make_ref_node(tokens, i + 1, start, RefKind::Cmd),
            TokenKind::RefPath => self.make_ref_node(tokens, i + 1, start, RefKind::Path),
            TokenKind::RefUrl => self.make_ref_node(tokens, i + 1, start, RefKind::Url),
            TokenKind::RefVar => self.make_ref_node(tokens, i + 1, start, RefKind::Var),
            TokenKind::RefEnv => self.make_ref_node(tokens, i + 1, start, RefKind::Env),
            TokenKind::BodyText => {
                if n - i <= 2 || tokens[i + 2].kind != TokenKind::Tick {
                    self.nodes.push(Node::Body { source_range: Range { start, end: p.range.end } });
                    proof {
                        assert(nodes_view(self.nodes@) =~= old_nodes + tick_step(
                            self.bytes(),
                            tokens@,
                            i as int,
                        ).0);
                    }
                    return i + 2;
                }
                self.nodes.push(
                    Node::RefSuspect {
                        source_range: Range { start, end: tokens[i + 2].range.end },
                    },
                );
                proof {
                    assert(nodes_view(self.nodes@) =~= old_nodes + tick_step(
                        self.bytes(),
                        tokens@,
                        i as int,
                    ).0);
                }
                i + 3
            },
            _ => {
                self.errors.push(
                    ParseError {
                        kind: ParseErrorKind::UnexpectedToken,
                        range: Range { start, end: p.range.end },
                    },
                );
                i + 1
            },
        }
    }

    /// Parses what a double tick at index `i` opens; returns where parsing goes on.
    fn parse_escape(&mut self, tokens: &Vec<Token>, i: usize) -> (r: usize)
        requires
            i < tokens@.len(),
            tokens@[i as int].kind is TickDouble,
        ensures
            final(self).bytes() == old(self).bytes(),
            nodes_view(final(self).nodes@) == nodes_view(old(self).nodes@) + parse_step(
                old(self).bytes(),
                tokens@,
                i as int,
            ).0,
            final(self).errors@ == old(self).errors@ + parse_step(
                old(self).bytes(),
                tokens@,
                i as int,
            ).1,
            r == parse_step(old(self).bytes(), tokens@, i as int).2,
    {
        let ghost old_nodes = nodes_view(self.nodes@);
        let n = tokens.len();
        let t = &tokens[i];
        if n - i <= 1 || tokens[i + 1].kind != TokenKind::BodyText {
            self.errors.push(
                ParseError {
                    kind: ParseErrorKind::ExpectedBodyTextAfterEscape,
                    range: Range { start: t.range.start, end: t.range.end },
                },
            );
            return self.recover(tokens, i + 1);
        }
        if n - i <= 2 || tokens[i + 2].kind != TokenKind::TickDouble {
            self.errors.push(
                ParseError {
                    kind: ParseErrorKind::UnclosedEscape,
                    range: Range { start: t.range.start, end: t.range.end },
                },
            );
            return self.recover(tokens, i + 2);
        }
        self.nodes.push(
            Node::EscapedBody {
                source_range: Range { start: t.range.start, end: tokens[i + 2].range.end },
            },
        );
        proof {
            assert(nodes_view(self.nodes@) =~= old_nodes + parse_step(self.bytes(), tokens@, i as int).0);
        }
        i + 3
    }

    /// Parses what a fragment opener at index `i` opens; returns where parsing goes on.
    fn parse_fragment(&mut self, tokens: &Vec<Token>, i: usize) -> (r: usize)
        requires
            valid_utf8(old(self).bytes()),
            i < tokens@.len(),
            tokens@[i as int].kind is FragmentOpen,
            tokens_ok(old(self).bytes(), tokens@, 0),
        ensures
            final(self).bytes() == old(self).bytes(),
            nodes_view(final(self).nodes@) == nodes_view(old(self).nodes@) + parse_step(
                old(self).bytes(),
                tokens@,
                i as int,
            ).0,
            final(self).errors@ == old(self).errors@ + parse_step(
                old(self).bytes(),
                tokens@,
                i as int,
            ).1,
            r == parse_step(old(self).bytes(), tokens@, i as int).2,
    {
        let ghost old_nodes = nodes_view(self.nodes@);
        let n = tokens.len();
        let t = &tokens[i];
        if n - i <= 1 || tokens[i + 1].kind != TokenKind::RefValue {
            self.errors.push(
                ParseError {
                    kind: ParseErrorKind::ExpectedRefValueAfterFragmentOpen,
                    range: Range { start: t.range.start, end: t.range.end },
                },
            );
            return self.recover(tokens, i + 1);
        }
        if n - i <= 2 || tokens[i + 2].kind != TokenKind::FragmentClose {
            self.errors.push(
                ParseError {
                    kind: ParseErrorKind::UnclosedFragment,
                    range: Range { start: t.range.start, end: t.range.end },
                },
            );
            return self.recover(tokens, i + 2);
        }
        proof {
            assert(token_ok(self.bytes(), tokens@[i + 1]));
        }
        let value = self.get_source_string(&tokens[i + 1]);
        self.nodes.push(
            Node::Fragment {
                value,
                source_range: Range { start: t.range.start, end: tokens[i + 2].range.end },
            },
        );
        proof {
            assert(nodes_view(self.nodes@) =~= old_nodes + parse_step(self.bytes(), tokens@, i as int).0);
        }
        i + 3
    }

    /// Parses the tokens that start at index `i`; returns where parsing goes on.
    fn parse_one(&mut self, tokens: &Vec<Token>, i: usize) -> (r: usize)
        requires
            valid_utf8(old(self).bytes()),
            i < tokens@.len(),
            tokens_ok(old(self).bytes(), tokens@, 0),
        ensures
            final(self).bytes() == old(self).bytes(),
            nodes_view(final(self).nodes@) == nodes_view(old(self).nodes@) + parse_step(
                old(self).bytes(),
                tokens@,
                i as int,
            ).0,
            final(self).errors@ == old(self).errors@ + parse_step(
                old(self).bytes(),
                tokens@,
                i as int,
            ).1,
            r == parse_step(old(self).bytes(), tokens@, i as int).2,
    {
        let ghost old_nodes = nodes_view(self.nodes@);
        let n = tokens.len();
        let t = &tokens[i];
        match t.kind {
            TokenKind::BodyText => {
                self.nodes.push(
                    Node::Body { source_range: Range { start: t.range.start, end: t.range.end } },
                );
                proof {
                    assert(nodes_view(self.nodes@) =~= old_nodes + parse_step(
                        self.bytes(),
                        tokens@,
                        i as int,
                    ).0);
                }
                i + 1
            },
            TokenKind::Tick => self.parse_tick(tokens, i),
            TokenKind::TickDouble => self.parse_escape(tokens, i),
            TokenKind::FragmentOpen => self.parse_fragment(tokens, i),
            _ => {
                self.errors.push(
                    ParseError {
                        kind: ParseErrorKind::UnexpectedToken,
                        range: Range { start: t.range.start, end: t.range.end },
                    },
                );
                i + 1
            },
        }
    }

    /// Parses the source into nodes and collected errors, which it appends to
    /// [`PanParse::nodes`] and [`PanParse::errors`].
    pub fn parse(&mut self)
        requires
            old(self).bytes().len() <= u32::MAX,
        ensures
            final(self).bytes() == old(self).bytes(),
            nodes_view(final(self).nodes@) == nodes_view(old(self).nodes@) + spec_parse(
                old(self).bytes(),
            ).0,
            final(self).errors@ == old(self).errors@ + spec_parse(old(self).bytes()).1,
    {
        let ghost b = self.bytes();
        let ghost n0 = nodes_view(self.nodes@);
        let ghost e0 = self.errors@;
        let mut lexer = Lexer::new(self.src);
        let tokens = lexer.tokenize();
        let ghost t = tokens@;
        proof {
            lemma_str_bytes(self.src);
            lemma_ends_at_boundary(b);
            assert(at_boundary(b, 0));
            lemma_tokenize_ok(b, 0);
        }
        let mut i: usize = 0;
        while i < tokens.len()
            invariant
                self.bytes() == b,
                b.len() <= u32::MAX,
                valid_utf8(b),
                tokens@ == t,
                t == spec_tokenize(b, 0),
                tokens_ok(b, t, 0),
                i <= t.len(),
                nodes_view(self.nodes@) + parse_from(b, t, i as int).0 == n0 + spec_parse(b).0,
                self.errors@ + parse_from(b, t, i as int).1 == e0 + spec_parse(b).1,
            decreases t.len() - i,
        {
            let ghost ns = nodes_view(self.nodes@);
            let ghost es = self.errors@;
            proof {
                lemma_parse_unfold(b, t, i as int);
                lemma_parse_step_advances(b, t, i as int);
            }
            let j = self.parse_one(&tokens, i);
            proof {
                let st = parse_step(b, t, i as int);
                assert(ns + st.0 + parse_from(b, t, j as int).0 =~= ns + (st.0 + parse_from(
                    b,
                    t,
                    j as int,
                ).0));
                assert(es + st.1 + parse_from(b, t, j as int).1 =~= es + (st.1 + parse_from(
                    b,
                    t,
                    j as int,
                ).1));
            }
            i = j;
        }
        proof {
            assert(nodes_view(self.nodes@) =~= n0 + spec_parse(b).0);
            assert(self.errors@ =~= e0 + spec_parse(b).1);
        }
    }
}

} // verus!
