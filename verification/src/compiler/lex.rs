//! Tokenizer for `.pan` inline syntax.
//!
//! The lexer works on the UTF-8 bytes of its source. Its result is stated by
//! [`spec_tokenize`], which describes, position by position, which tokens the
//! byte at that position starts.
use core::ops::Range;
use vstd::prelude::*;
use vstd::string::StringSliceAdditionalSpecFns;

use vstd::utf8::valid_utf8;

use crate::text::{at_boundary, bytes_at, lemma_after_ascii, matches_at};

verus! {

/// Tokenizer for `.pan` inline syntax.
pub struct Lexer<'a> {
    src: &'a str,
    pos: usize,
}

/// Token categories emitted by [`Lexer`].
#[derive(Debug, PartialEq, Eq, Structural)]
pub enum TokenKind {
    /// Plain body text.
    BodyText,
    /// A single backtick.
    Tick,
    /// A double-backtick escape delimiter.
    TickDouble,
    /// The `::` separator in typed refs.
    DoubleColon,
    /// A `{>` fragment opener.
    FragmentOpen,
    /// A `<}` fragment closer.
    FragmentClose,
    /// The value portion of a ref or fragment.
    RefValue,
    /// A `ref::` prefix.
    RefReference,
    /// A `skill::` prefix.
    RefSkill,
    /// An `agent::` prefix.
    RefAgent,
    /// A `cmd::` prefix.
    RefCmd,
    /// A `path::` prefix.
    RefPath,
    /// A `url::` prefix.
    RefUrl,
    /// A `var::` prefix.
    RefVar,
    /// An `env::` prefix.
    RefEnv,
}

/// A single lexical token and its byte range within the source.
#[derive(Debug, PartialEq, Eq)]
pub struct Token {
    /// Token category.
    pub kind: TokenKind,
    /// Byte range covered by the token.
    pub range: Range<u32>,
}

// ── Byte constants ────────────────────────────────────────────────────────────

/// The byte `` ` ``.
pub const TICK: u8 = 96;
/// The byte `{`.
pub const LBRACE: u8 = 123;
/// The byte `}`.
pub const RBRACE: u8 = 125;
/// The byte `<`.
pub const LT: u8 = 60;
/// The byte `>`.
pub const GT: u8 = 62;
/// The byte `:`.
pub const COLON: u8 = 58;

/// `ref::`
pub open spec fn reference_ref() -> Seq<u8> { seq![114u8, 101, 102, 58, 58] }
/// `agent::`
pub open spec fn agent_ref() -> Seq<u8> { seq![97u8, 103, 101, 110, 116, 58, 58] }
/// `cmd::`
pub open spec fn cmd_ref() -> Seq<u8> { seq![99u8, 109, 100, 58, 58] }
/// `skill::`
pub open spec fn skill_ref() -> Seq<u8> { seq![115u8, 107, 105, 108, 108, 58, 58] }
/// `path::`
pub open spec fn path_ref() -> Seq<u8> { seq![112u8, 97, 116, 104, 58, 58] }
/// `url::`
pub open spec fn url_ref() -> Seq<u8> { seq![117u8, 114, 108, 58, 58] }
/// `var::`
pub open spec fn var_ref() -> Seq<u8> { seq![118u8, 97, 114, 58, 58] }
/// `env::`
pub open spec fn env_ref() -> Seq<u8> { seq![101u8, 110, 118, 58, 58] }

// ── Specification ─────────────────────────────────────────────────────────────

/// The byte at `i`, if `i` is inside `b`.
pub open spec fn peek_at(b: Seq<u8>, i: int) -> Option<u8> {
    if 0 <= i < b.len() { Some(b[i]) } else { None }
}

/// The token with the given kind and byte range.
pub open spec fn tok(kind: TokenKind, start: int, end: int) -> Token {
    Token { kind, range: Range { start: start as u32, end: end as u32 } }
}

/// Where body text scanned from `p` ends: at the first `` ` `` that does not
/// open a triple backtick, at the first `{`, or at the end of the input. A
/// triple backtick is taken into the body whole.
pub open spec fn body_end(b: Seq<u8>, p: int) -> int
    decreases b.len() - p,
{
    if p < 0 || p >= b.len() {
        p
    } else if b[p] == TICK {
        if peek_at(b, p + 1) == Some(TICK) && peek_at(b, p + 2) == Some(TICK) {
            body_end(b, p + 3)
        } else {
            p
        }
    } else if b[p] == LBRACE {
        p
    } else {
        body_end(b, p + 1)
    }
}

/// Where a value scanned from `p` ends: at the first `delim`, or at the end.
pub open spec fn value_end(b: Seq<u8>, p: int, delim: u8) -> int
    decreases b.len() - p,
{
    if p < 0 || p >= b.len() {
        p
    } else if b[p] == delim {
        p
    } else {
        value_end(b, p + 1, delim)
    }
}

/// The ref keyword that starts at `start`, with the length of the keyword
/// itself (without the `::`).
pub open spec fn keyword_at(b: Seq<u8>, start: int) -> Option<(TokenKind, int)> {
    if bytes_at(b, start, reference_ref()) {
        Some((TokenKind::RefReference, 3))
    } else if bytes_at(b, start, agent_ref()) {
        Some((TokenKind::RefAgent, 5))
    } else if bytes_at(b, start, cmd_ref()) {
        Some((TokenKind::RefCmd, 3))
    } else if bytes_at(b, start, skill_ref()) {
        Some((TokenKind::RefSkill, 5))
    } else if bytes_at(b, start, path_ref()) {
        Some((TokenKind::RefPath, 4))
    } else if bytes_at(b, start, url_ref()) {
        Some((TokenKind::RefUrl, 3))
    } else if bytes_at(b, start, var_ref()) {
        Some((TokenKind::RefVar, 3))
    } else if bytes_at(b, start, env_ref()) {
        Some((TokenKind::RefEnv, 3))
    } else {
        None
    }
}

/// A keyword token is recognised only right after a backtick.
pub open spec fn tick_keyword(b: Seq<u8>, p: int) -> Option<(TokenKind, int)> {
    if p == 0 || b[p - 1] != TICK {
        None
    } else {
        keyword_at(b, p)
    }
}

/// The bytes that may start a ref keyword.
pub open spec fn is_keyword_initial(c: u8) -> bool {
    c == 97u8 || c == 99u8 || c == 101u8 || c == 112u8 || c == 114u8 || c == 115u8 || c == 117u8
        || c == 118u8
}

/// Body text from `p` (its first byte already taken) and the position after it.
pub open spec fn body_step(b: Seq<u8>, p: int) -> (Seq<Token>, int) {
    (seq![tok(TokenKind::BodyText, p, body_end(b, p + 1))], body_end(b, p + 1))
}

/// The tokens that the byte at `p` starts, and the position after them.
pub open spec fn lex_step(b: Seq<u8>, p: int) -> (Seq<Token>, int) {
    let c = b[p];
    if is_keyword_initial(c) {
        match tick_keyword(b, p) {
            Some((kind, len)) => (seq![tok(kind, p, p + len)], p + len),
            None => body_step(b, p),
        }
    } else if c == TICK {
        if peek_at(b, p + 1) == Some(TICK) && peek_at(b, p + 2) == Some(TICK) {
            (seq![tok(TokenKind::BodyText, p, body_end(b, p + 3))], body_end(b, p + 3))
        } else if peek_at(b, p + 1) == Some(TICK) {
            (
                seq![
                    tok(TokenKind::TickDouble, p, p + 2),
                    tok(TokenKind::BodyText, p + 2, body_end(b, p + 2)),
                ],
                body_end(b, p + 2),
            )
        } else {
            (seq![tok(TokenKind::Tick, p, p + 1)], p + 1)
        }
    } else if c == LBRACE {
        if peek_at(b, p + 1) != Some(GT) {
            body_step(b, p)
        } else {
            (
                seq![
                    tok(TokenKind::FragmentOpen, p, p + 2),
                    tok(TokenKind::RefValue, p + 2, value_end(b, p + 2, LT)),
                ],
                value_end(b, p + 2, LT),
            )
        }
    } else if c == LT {
        if peek_at(b, p + 1) == Some(RBRACE) {
            (seq![tok(TokenKind::FragmentClose, p, p + 2)], p + 2)
        } else {
            (Seq::empty(), p + 1)
        }
    } else if c == COLON {
        if peek_at(b, p + 1) == Some(COLON) {
            (
                seq![
                    tok(TokenKind::DoubleColon, p, p + 2),
                    tok(TokenKind::RefValue, p + 2, value_end(b, p + 2, TICK)),
                ],
                value_end(b, p + 2, TICK),
            )
        } else {
            body_step(b, p)
        }
    } else {
        body_step(b, p)
    }
}

/// The tokens of `b` from position `p` on.
pub open spec fn spec_tokenize(b: Seq<u8>, p: int) -> Seq<Token>
    decreases b.len() - p,
{
    if p < 0 || p >= b.len() {
        Seq::empty()
    } else {
        let (ts, q) = lex_step(b, p);
        if p < q <= b.len() {
            ts + spec_tokenize(b, q)
        } else {
            ts
        }
    }
}

// ── Lemmas ────────────────────────────────────────────────────────────────────

/// Body text never ends before it starts nor after the input.
pub proof fn lemma_body_end(b: Seq<u8>, p: int)
    requires
        0 <= p <= b.len(),
    ensures
        p <= body_end(b, p) <= b.len(),
        body_end(b, p) == b.len() || b[body_end(b, p)] == TICK || b[body_end(b, p)] == LBRACE,
    decreases b.len() - p,
{
    if p < b.len() {
        if b[p] == TICK {
            if peek_at(b, p + 1) == Some(TICK) && peek_at(b, p + 2) == Some(TICK) {
                lemma_body_end(b, p + 3);
            }
        } else if b[p] != LBRACE {
            lemma_body_end(b, p + 1);
        }
    }
}

/// A value never ends before it starts nor after the input, and stops at its delimiter.
pub proof fn lemma_value_end(b: Seq<u8>, p: int, d: u8)
    requires
        0 <= p <= b.len(),
    ensures
        p <= value_end(b, p, d) <= b.len(),
        value_end(b, p, d) == b.len() || b[value_end(b, p, d)] == d,
        forall|k: int| p <= k < value_end(b, p, d) ==> b[k] != d,
    decreases b.len() - p,
{
    if p < b.len() && b[p] != d {
        lemma_value_end(b, p + 1, d);
    }
}

/// A keyword match lies inside the input and is followed by `::`.
pub proof fn lemma_keyword_at(b: Seq<u8>, start: int)
    requires
        0 <= start,
    ensures
        keyword_at(b, start) matches Some((_, len)) ==> {
            &&& 3 <= len <= 5
            &&& start + len + 2 <= b.len()
            &&& b[start + len] == COLON
            &&& b[start + len + 1] == COLON
        },
{
    if bytes_at(b, start, reference_ref()) {
        assert(b.subrange(start, start + 5)[3] == b[start + 3]);
    } else if bytes_at(b, start, agent_ref()) {
        assert(b.subrange(start, start + 7)[5] == b[start + 5]);
        assert(b.subrange(start, start + 7)[6] == b[start + 6]);
    } else if bytes_at(b, start, cmd_ref()) {
        assert(b.subrange(start, start + 5)[3] == b[start + 3]);
        assert(b.subrange(start, start + 5)[4] == b[start + 4]);
    } else if bytes_at(b, start, skill_ref()) {
        assert(b.subrange(start, start + 7)[5] == b[start + 5]);
        assert(b.subrange(start, start + 7)[6] == b[start + 6]);
    } else if bytes_at(b, start, path_ref()) {
        assert(b.subrange(start, start + 6)[4] == b[start + 4]);
        assert(b.subrange(start, start + 6)[5] == b[start + 5]);
    } else if bytes_at(b, start, url_ref()) {
        assert(b.subrange(start, start + 5)[3] == b[start + 3]);
        assert(b.subrange(start, start + 5)[4] == b[start + 4]);
    } else if bytes_at(b, start, var_ref()) {
        assert(b.subrange(start, start + 5)[3] == b[start + 3]);
        assert(b.subrange(start, start + 5)[4] == b[start + 4]);
    } else if bytes_at(b, start, env_ref()) {
        assert(b.subrange(start, start + 5)[3] == b[start + 3]);
        assert(b.subrange(start, start + 5)[4] == b[start + 4]);
    }
}

/// Each step consumes at least one byte and stays inside the input.
pub proof fn lemma_lex_step_advances(b: Seq<u8>, p: int)
    requires
        0 <= p < b.len(),
    ensures
        p < lex_step(b, p).1 <= b.len(),
{
    lemma_body_end(b, p + 1);
    if p + 2 <= b.len() {
        lemma_body_end(b, p + 2);
        lemma_value_end(b, p + 2, LT);
        lemma_value_end(b, p + 2, TICK);
    }
    if p + 3 <= b.len() {
        lemma_body_end(b, p + 3);
    }
    lemma_keyword_at(b, p);
}

/// Unfolds [`spec_tokenize`] by one step.
pub proof fn lemma_tokenize_unfold(b: Seq<u8>, p: int)
    requires
        0 <= p < b.len(),
    ensures
        spec_tokenize(b, p) == lex_step(b, p).0 + spec_tokenize(b, lex_step(b, p).1),
{
    lemma_lex_step_advances(b, p);
}

// ── Token law ─────────────────────────────────────────────────────────────────

/// A token lies inside `b`, starts and ends between characters, and a tick
/// token covers exactly its backticks.
pub open spec fn token_ok(b: Seq<u8>, t: Token) -> bool {
    let s = t.range.start as int;
    let e = t.range.end as int;
    &&& s <= e <= b.len()
    &&& at_boundary(b, s)
    &&& at_boundary(b, e)
    &&& (t.kind is Tick ==> e == s + 1 && b[s] == TICK)
    &&& (t.kind is TickDouble ==> e == s + 2 && b[s] == TICK && b[s + 1] == TICK)
}

/// Every token of `ts` is well formed, lies at or after `lo`, and the tokens
/// follow one another without overlapping.
pub open spec fn tokens_ok(b: Seq<u8>, ts: Seq<Token>, lo: int) -> bool {
    &&& forall|k: int| 0 <= k < ts.len() ==> #[trigger] token_ok(b, ts[k])
    &&& forall|k: int| 0 <= k < ts.len() ==> lo <= #[trigger] ts[k].range.start
    &&& forall|k: int, m: int|
        0 <= k < m < ts.len() ==> #[trigger] ts[k].range.end <= #[trigger] ts[m].range.start
}

/// One lexing step from a character boundary yields well-formed, ordered
/// tokens that end no later than the next position, itself a boundary.
pub proof fn lemma_lex_step_ok(b: Seq<u8>, p: int)
    requires
        valid_utf8(b),
        b.len() <= u32::MAX,
        0 <= p < b.len(),
        at_boundary(b, p),
    ensures
        tokens_ok(b, lex_step(b, p).0, p),
        at_boundary(b, lex_step(b, p).1),
        forall|k: int|
            0 <= k < lex_step(b, p).0.len() ==> #[trigger] lex_step(b, p).0[k].range.end
                <= lex_step(b, p).1,
{
    lemma_lex_step_advances(b, p);
    lemma_body_end(b, p + 1);
    lemma_keyword_at(b, p);
    lemma_after_ascii_if(b, p);
    if p + 2 <= b.len() {
        lemma_body_end(b, p + 2);
        lemma_value_end(b, p + 2, LT);
        lemma_value_end(b, p + 2, TICK);
        lemma_after_ascii_if(b, p + 1);
    }
    if p + 3 <= b.len() {
        lemma_body_end(b, p + 3);
    }
}

/// The position after an ASCII byte is a boundary.
proof fn lemma_after_ascii_if(b: Seq<u8>, j: int)
    requires
        valid_utf8(b),
        0 <= j < b.len(),
    ensures
        b[j] < 128 ==> at_boundary(b, j + 1),
{
    if b[j] < 128 {
        lemma_after_ascii(b, j);
    }
}

/// The tokens of `b` from a boundary `p` on are well formed and ordered.
pub proof fn lemma_tokenize_ok(b: Seq<u8>, p: int)
    requires
        valid_utf8(b),
        b.len() <= u32::MAX,
        0 <= p <= b.len(),
        at_boundary(b, p),
    ensures
        tokens_ok(b, spec_tokenize(b, p), p),
    decreases b.len() - p,
{
    if p < b.len() {
        let (ts, q) = lex_step(b, p);
        lemma_lex_step_ok(b, p);
        lemma_lex_step_advances(b, p);
        lemma_tokenize_ok(b, q);
        let rest = spec_tokenize(b, q);
        let all = ts + rest;
        assert(spec_tokenize(b, p) == all);
        assert forall|k: int, m: int| 0 <= k < m < all.len() implies #[trigger] all[k].range.end
            <= #[trigger] all[m].range.start by {
            if m < ts.len() {
                assert(all[k] == ts[k]);
                assert(all[m] == ts[m]);
            } else if k < ts.len() {
                assert(all[k] == ts[k]);
                assert(all[m] == rest[m - ts.len()]);
                assert(token_ok(b, rest[m - ts.len()]));
            } else {
                assert(all[k] == rest[k - ts.len()]);
                assert(all[m] == rest[m - ts.len()]);
            }
        }
        assert forall|k: int| 0 <= k < all.len() implies #[trigger] token_ok(b, all[k]) && p
            <= all[k].range.start by {
            if k < ts.len() {
                assert(all[k] == ts[k]);
            } else {
                assert(all[k] == rest[k - ts.len()]);
            }
        }
    }
}

/// Byte `i` lies inside one of the tokens `ts`.
pub open spec fn covered(ts: Seq<Token>, i: int) -> bool {
    exists|k: int| 0 <= k < ts.len() && (#[trigger] ts[k]).range.start <= i < ts[k].range.end
}

/// One lexing step holds every byte it consumes in one of its tokens, but
/// for a lone `<`, which it skips.
pub proof fn lemma_lex_step_covers(b: Seq<u8>, p: int)
    requires
        b.len() <= u32::MAX,
        0 <= p < b.len(),
    ensures
        forall|i: int|
            p <= i < lex_step(b, p).1 ==> (i == p && b[i] == LT) || covered(lex_step(b, p).0, i),
{
    lemma_lex_step_advances(b, p);
    lemma_body_end(b, p + 1);
    lemma_keyword_at(b, p);
    if p + 2 <= b.len() {
        lemma_body_end(b, p + 2);
        lemma_value_end(b, p + 2, LT);
        lemma_value_end(b, p + 2, TICK);
    }
    if p + 3 <= b.len() {
        lemma_body_end(b, p + 3);
    }
    let (ts, q) = lex_step(b, p);
    assert forall|i: int| p <= i < q implies (i == p && b[i] == LT) || covered(ts, i) by {
        if ts.len() == 1 {
            assert(ts[0].range.start <= i < ts[0].range.end);
        } else if ts.len() == 2 {
            if i < p + 2 {
                assert(ts[0].range.start <= i < ts[0].range.end);
            } else {
                assert(ts[1].range.start <= i < ts[1].range.end);
            }
        }
    }
}

/// Every byte of `b` from `p` on lies inside one of its tokens, but for
/// lone `<` bytes.
pub proof fn lemma_tokenize_covers(b: Seq<u8>, p: int)
    requires
        b.len() <= u32::MAX,
        0 <= p <= b.len(),
    ensures
        forall|i: int| p <= i < b.len() ==> b[i] == LT || covered(spec_tokenize(b, p), i),
    decreases b.len() - p,
{
    if p < b.len() {
        let (ts, q) = lex_step(b, p);
        lemma_lex_step_advances(b, p);
        lemma_lex_step_covers(b, p);
        lemma_tokenize_covers(b, q);
        let rest = spec_tokenize(b, q);
        let all = ts + rest;
        assert(spec_tokenize(b, p) == all);
        assert forall|i: int| p <= i < b.len() implies b[i] == LT || covered(all, i) by {
            if i < q {
                if covered(ts, i) {
                    let k = choose|k: int| 0 <= k < ts.len() && (#[trigger] ts[k]).range.start <= i
                        < ts[k].range.end;
                    assert(all[k] == ts[k]);
                }
            } else if covered(rest, i) {
                let k = choose|k: int| 0 <= k < rest.len() && (#[trigger] rest[k]).range.start <= i
                    < rest[k].range.end;
                assert(all[ts.len() + k] == rest[k]);
            }
        }
    }
}

/// Law: the tokens of a source lie inside it between characters, one after
/// the other without overlapping, and every byte that no token holds is a
/// `<`.
pub proof fn lemma_tokenize_law(b: Seq<u8>)
    requires
        valid_utf8(b),
        b.len() <= u32::MAX,
    ensures
        tokens_ok(b, spec_tokenize(b, 0), 0),
        forall|i: int| 0 <= i < b.len() ==> b[i] == LT || covered(spec_tokenize(b, 0), i),
{
    if b.len() > 0 {
        crate::text::lemma_valid_first_not_continuation(b);
    }
    lemma_tokenize_ok(b, 0);
    lemma_tokenize_covers(b, 0);
}

// ── Implementation ────────────────────────────────────────────────────────────

impl<'a> Lexer<'a> {
    /// The bytes being tokenized.
    pub closed spec fn bytes(&self) -> Seq<u8> {
        self.src.spec_bytes()
    }

    /// The current position.
    pub closed spec fn position(&self) -> int {
        self.pos as int
    }

    /// The position lies inside the source, whose positions fit in `u32`.
    pub open spec fn wf(&self) -> bool {
        &&& 0 <= self.position() <= self.bytes().len()
        &&& self.bytes().len() <= u32::MAX
    }

    fn ref_kind_at(src_bytes: &[u8], start: usize) -> (r: Option<(TokenKind, usize)>)
        requires
            start <= src_bytes@.len(),
        ensures
            r matches Some((k, n)) ==> keyword_at(src_bytes@, start as int) == Some((k, n as int)),
            r is None ==> keyword_at(src_bytes@, start as int) is None,
    {
        let reference: [u8; 5] = [114, 101, 102, 58, 58];
        let agent: [u8; 7] = [97, 103, 101, 110, 116, 58, 58];
        let cmd: [u8; 5] = [99, 109, 100, 58, 58];
        let skill: [u8; 7] = [115, 107, 105, 108, 108, 58, 58];
        let path: [u8; 6] = [112, 97, 116, 104, 58, 58];
        let url: [u8; 5] = [117, 114, 108, 58, 58];
        let var: [u8; 5] = [118, 97, 114, 58, 58];
        let env: [u8; 5] = [101, 110, 118, 58, 58];
        assert(reference@ == reference_ref());
        assert(agent@ == agent_ref());
        assert(cmd@ == cmd_ref());
        assert(skill@ == skill_ref());
        assert(path@ == path_ref());
        assert(url@ == url_ref());
        assert(var@ == var_ref());
        assert(env@ == env_ref());
        if matches_at(src_bytes, start, reference.as_slice()) {
            Some((TokenKind::RefReference, 3))
        } else if matches_at(src_bytes, start, agent.as_slice()) {
            Some((TokenKind::RefAgent, 5))
        } else if matches_at(src_bytes, start, cmd.as_slice()) {
            Some((TokenKind::RefCmd, 3))
        } else if matches_at(src_bytes, start, skill.as_slice()) {
            Some((TokenKind::RefSkill, 5))
        } else if matches_at(src_bytes, start, path.as_slice()) {
            Some((TokenKind::RefPath, 4))
        } else if matches_at(src_bytes, start, url.as_slice()) {
            Some((TokenKind::RefUrl, 3))
        } else if matches_at(src_bytes, start, var.as_slice()) {
            Some((TokenKind::RefVar, 3))
        } else if matches_at(src_bytes, start, env.as_slice()) {
            Some((TokenKind::RefEnv, 3))
        } else {
            None
        }
    }

    fn tick_prefixed_ref_token(&mut self, start_pos: u32) -> (r: Option<Token>)
        requires
            old(self).wf(),
            old(self).position() == start_pos + 1,
            start_pos < old(self).bytes().len(),
        ensures
            final(self).wf(),
            final(self).bytes() == old(self).bytes(),
            tick_keyword(old(self).bytes(), start_pos as int) matches Some((k, n)) ==> {
                &&& r == Some(tok(k, start_pos as int, start_pos + n))
                &&& final(self).position() == start_pos + n
            },
            tick_keyword(old(self).bytes(), start_pos as int) is None ==> {
                &&& r is None
                &&& final(self).position() == old(self).position()
            },
    {
        let src_bytes = self.src.as_bytes();
        if start_pos == 0 || src_bytes[(start_pos - 1) as usize] != TICK {
            return None;
        }
        let start = start_pos as usize;
        proof {
            lemma_keyword_at(src_bytes@, start as int);
        }
        match Self::ref_kind_at(src_bytes, start) {
            Some((kind, keyword_len)) => {
                self.pos += keyword_len - 1;
                Some(self.make_token(kind, start_pos))
            },
            None => None,
        }
    }

    /// Creates a new lexer over `src`.
    pub fn new(src: &'a str) -> (r: Self)
        ensures
            r.bytes() == src.spec_bytes(),
            r.position() == 0,
    {
        Self { src, pos: 0 }
    }

    fn make_token(&self, kind: TokenKind, start: u32) -> (r: Token)
        requires
            self.wf(),
        ensures
            r == tok(kind, start as int, self.position()),
    {
        Token { kind, range: Range { start, end: self.pos as u32 } }
    }

    fn next(&mut self) -> (r: Option<u8>)
        requires
            old(self).wf(),
        ensures
            final(self).wf(),
            final(self).bytes() == old(self).bytes(),
            r == peek_at(old(self).bytes(), old(self).position()),
            r is Some ==> final(self).position() == old(self).position() + 1,
            r is None ==> final(self).position() == old(self).position(),
    {
        if self.pos >= self.src.len() {
            return None;
        }
        let c = self.src.as_bytes()[self.pos];
        self.pos += 1;
        Some(c)
    }

    fn peek(&self, offset: usize) -> (r: Option<u8>)
        requires
            self.wf(),
            offset <= 2,
        ensures
            r == peek_at(self.bytes(), self.position() + offset),
    {
        let b = self.src.as_bytes();
        if offset < b.len() - self.pos {
            Some(b[self.pos + offset])
        } else {
            None
        }
    }

    /// Tokenizes the source from the current position on.
    pub fn tokenize(&mut self) -> (r: Vec<Token>)
        requires
            old(self).wf(),
        ensures
            r@ == spec_tokenize(old(self).bytes(), old(self).position()),
            final(self).wf(),
            final(self).bytes() == old(self).bytes(),
    {
        let mut tokens: Vec<Token> = Vec::new();
        let ghost b = self.bytes();
        let ghost p0 = self.position();
        while self.pos < self.src.len()
            invariant
                self.wf(),
                self.bytes() == b,
                p0 <= self.position(),
                tokens@ + spec_tokenize(b, self.position()) == spec_tokenize(b, p0),
            decreases b.len() - self.position(),
        {
            let ghost p = self.position();
            let ghost before = tokens@;
            proof {
                lemma_tokenize_unfold(b, p);
                lemma_lex_step_advances(b, p);
            }
            self.step(&mut tokens);
            proof {
                let step = lex_step(b, p);
                assert(before + step.0 + spec_tokenize(b, step.1) =~= before + (step.0
                    + spec_tokenize(b, step.1)));
            }
        }
        assert(tokens@ =~= spec_tokenize(b, p0));
        tokens
    }

    /// Lexes the tokens that the byte at the current position starts.
    fn step(&mut self, tokens: &mut Vec<Token>)
        requires
            old(self).wf(),
            old(self).position() < old(self).bytes().len(),
        ensures
            final(self).wf(),
            final(self).bytes() == old(self).bytes(),
            final(tokens)@ == old(tokens)@ + lex_step(old(self).bytes(), old(self).position()).0,
            final(self).position() == lex_step(old(self).bytes(), old(self).position()).1,
    {
        let ghost b = self.bytes();
        let ghost p = self.position();
        proof {
            lemma_body_end(b, p + 1);
            if p + 2 <= b.len() {
                lemma_body_end(b, p + 2);
                lemma_value_end(b, p + 2, LT);
                lemma_value_end(b, p + 2, TICK);
            }
            if p + 3 <= b.len() {
                lemma_body_end(b, p + 3);
            }
        }
        let c = match self.next() {
            Some(c) => c,
            None => 0,
        };
        let start_pos = (self.pos - 1) as u32;
        if c == 97 || c == 99 || c == 101 || c == 112 || c == 114 || c == 115 || c == 117
            || c == 118 {
            match self.tick_prefixed_ref_token(start_pos) {
                Some(t) => tokens.push(t),
                None => {
                    let t = self.make_body(start_pos);
                    tokens.push(t);
                },
            }
        } else if c == TICK {
            self.step_tick(tokens, start_pos);
        } else if c == LBRACE {
            if self.peek(0) != Some(GT) {
                let t = self.make_body(start_pos);
                tokens.push(t);
            } else {
                self.pos += 1;
                let t = self.make_token(TokenKind::FragmentOpen, start_pos);
                tokens.push(t);
                let t = self.make_fragment_id(self.pos as u32);
                tokens.push(t);
            }
        } else if c == LT {
            if self.peek(0) == Some(RBRACE) {
                self.pos += 1;
                let t = self.make_token(TokenKind::FragmentClose, start_pos);
                tokens.push(t);
            }
        } else if c == COLON {
            if self.peek(0) == Some(COLON) {
                self.pos += 1;
                let t = self.make_token(TokenKind::DoubleColon, start_pos);
                tokens.push(t);
                let t = self.make_ref_value(self.pos as u32);
                tokens.push(t);
            } else {
                let t = self.make_body(start_pos);
                tokens.push(t);
            }
        } else {
            let t = self.make_body(start_pos);
            tokens.push(t);
        }
    }

    /// Lexes what a backtick at `start_pos` starts: a triple backtick taken
    /// into body text, a double-backtick delimiter followed by body text, or
    /// a single tick.
    fn step_tick(&mut self, tokens: &mut Vec<Token>, start_pos: u32)
        requires
            old(self).wf(),
            old(self).position() == start_pos + 1,
            start_pos < old(self).bytes().len(),
            old(self).bytes()[start_pos as int] == TICK,
        ensures
            final(self).wf(),
            final(self).bytes() == old(self).bytes(),
            final(tokens)@ == old(tokens)@ + lex_step(old(self).bytes(), start_pos as int).0,
            final(self).position() == lex_step(old(self).bytes(), start_pos as int).1,
    {
        let ghost b = self.bytes();
        let ghost p = start_pos as int;
        proof {
            if p + 2 <= b.len() {
                lemma_body_end(b, p + 2);
            }
            if p + 3 <= b.len() {
                lemma_body_end(b, p + 3);
            }
        }
        let p1 = self.peek(0);
        let p2 = self.peek(1);
        if p1 == Some(TICK) && p2 == Some(TICK) {
            self.pos += 2;
            let t = self.make_body(start_pos);
            tokens.push(t);
        } else if p1 == Some(TICK) {
            self.pos += 1;
            let t = self.make_token(TokenKind::TickDouble, start_pos);
            tokens.push(t);
            let t = self.make_body(self.pos as u32);
            tokens.push(t);
        } else {
            let t = self.make_token(TokenKind::Tick, start_pos);
            tokens.push(t);
        }
    }

    fn make_fragment_id(&mut self, start_pos: u32) -> (r: Token)
        requires
            old(self).wf(),
            start_pos == old(self).position(),
        ensures
            final(self).wf(),
            final(self).bytes() == old(self).bytes(),
            final(self).position() == value_end(old(self).bytes(), start_pos as int, LT),
            r == tok(TokenKind::RefValue, start_pos as int, final(self).position()),
    {
        let ghost b = self.bytes();
        loop
            invariant
                self.wf(),
                self.bytes() == b,
                start_pos <= self.position(),
                value_end(b, self.position(), LT) == value_end(b, start_pos as int, LT),
            ensures
                self.wf(),
                self.bytes() == b,
                self.position() == value_end(b, start_pos as int, LT),
            decreases b.len() - self.position(),
        {
            match self.next() {
                Some(c) => {
                    if c == LT {
                        self.pos -= 1;
                        break;
                    }
                },
                None => break,
            }
        }
        self.make_token(TokenKind::RefValue, start_pos)
    }

    fn make_ref_value(&mut self, start_pos: u32) -> (r: Token)
        requires
            old(self).wf(),
            start_pos == old(self).position(),
        ensures
            final(self).wf(),
            final(self).bytes() == old(self).bytes(),
            final(self).position() == value_end(old(self).bytes(), start_pos as int, TICK),
            r == tok(TokenKind::RefValue, start_pos as int, final(self).position()),
    {
        let ghost b = self.bytes();
        loop
            invariant
                self.wf(),
                self.bytes() == b,
                start_pos <= self.position(),
                value_end(b, self.position(), TICK) == value_end(b, start_pos as int, TICK),
            ensures
                self.wf(),
                self.bytes() == b,
                self.position() == value_end(b, start_pos as int, TICK),
            decreases b.len() - self.position(),
        {
            match self.next() {
                Some(c) => {
                    if c == TICK {
                        self.pos -= 1;
                        break;
                    }
                },
                None => break,
            }
        }
        self.make_token(TokenKind::RefValue, start_pos)
    }

    fn make_body(&mut self, start_pos: u32) -> (r: Token)
        requires
            old(self).wf(),
            start_pos <= old(self).position(),
        ensures
            final(self).wf(),
            final(self).bytes() == old(self).bytes(),
            final(self).position() == body_end(old(self).bytes(), old(self).position()),
            r == tok(TokenKind::BodyText, start_pos as int, final(self).position()),
    {
        let ghost b = self.bytes();
        let ghost p0 = self.position();
        loop
            invariant
                self.wf(),
                self.bytes() == b,
                p0 <= self.position(),
                body_end(b, self.position()) == body_end(b, p0),
            ensures
                self.wf(),
                self.bytes() == b,
                self.position() == body_end(b, p0),
            decreases b.len() - self.position(),
        {
            match self.next() {
                Some(c) => {
                    if c == TICK {
                        let p1 = self.peek(0);
                        let p2 = self.peek(1);
                        if p1 == Some(TICK) && p2 == Some(TICK) {
                            self.pos += 2;
                        } else {
                            self.pos -= 1;
                            break;
                        }
                    } else if c == LBRACE {
                        self.pos -= 1;
                        break;
                    }
                },
                None => break,
            }
        }
        self.make_token(TokenKind::BodyText, start_pos)
    }
}

} // verus!
