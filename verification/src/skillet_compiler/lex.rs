//! Tokenizer for the first `.pan` inline syntax, which knows the `ref::`,
//! `agent::`, `cmd::` and `skill::` refs.
//!
//! The lexer works on the UTF-8 bytes of its source. Its result is stated by
//! [`spec_tokenize`], which describes, position by position, which tokens the
//! byte at that position starts.
use core::ops::Range;
use vstd::prelude::*;
use vstd::string::StringSliceAdditionalSpecFns;

use crate::compiler::lex::{
    agent_ref, body_end, cmd_ref, lemma_body_end, lemma_value_end, peek_at, reference_ref,
    skill_ref, value_end, COLON, GT, LBRACE, LT, RBRACE, TICK,
};
use crate::text::{bytes_at, matches_at};

verus! {

/// Tokenizer for `.pan` inline syntax.
pub struct Lexer<'a> {
    /// The text being tokenized.
    pub src: &'a str,
    /// The byte offset of the next byte to read.
    pub pos: usize,
}

/// Token categories emitted by [`Lexer`].
#[derive(Debug, PartialEq, Structural)]
pub enum TokenKind {
    /// Plain body text.
    BodyText,
    /// A single backtick.
    Tick,
    /// A double-backtick escape delimiter.
    TickDouble,
    /// The `::` separator in typed refs.
    DoubleColon,
    /// A `{>` fragment opener.
    FragmentOpen,
    /// A `<}` fragment closer.
    FragmentClose,
    /// The value portion of a ref or fragment.
    RefValue,
    /// A `ref::` prefix.
    RefReference,
    /// A `skill::` prefix.
    RefSKill,
    /// An `agent::` prefix.
    RefAgent,
    /// A `cmd::` prefix.
    RefCmd,
}

/// A single lexical token and its byte range within the source.
#[derive(Debug)]
pub struct Token {
    /// Token category.
    pub kind: TokenKind,
    /// Byte range covered by the token.
    pub range: Range<u32>,
}

impl Token {
    /// The token of kind `kind` over `start..end`.
    pub fn new(kind: TokenKind, start: u32, end: u32) -> (r: Self)
        ensures
            r.kind == kind,
            r.range.start == start,
            r.range.end == end,
    {
        Token { kind, range: Range { start, end } }
    }
}

// ── Specification ─────────────────────────────────────────────────────────────

/// The token with the given kind and byte range.
pub open spec fn tok(kind: TokenKind, start: int, end: int) -> Token {
    Token { kind, range: Range { start: start as u32, end: end as u32 } }
}

/// The ref keyword that starts at `start`, with the length of the keyword
/// itself (without the `::`).
pub open spec fn keyword_at(b: Seq<u8>, start: int) -> Option<(TokenKind, int)> {
    if bytes_at(b, start, reference_ref()) {
        Some((TokenKind::RefReference, 3))
    } else if bytes_at(b, start, agent_ref()) {
        Some((TokenKind::RefAgent, 5))
    } else if bytes_at(b, start, cmd_ref()) {
        Some((TokenKind::RefCmd, 3))
    } else if bytes_at(b, start, skill_ref()) {
        Some((TokenKind::RefSKill, 5))
    } else {
        None
    }
}

/// A keyword token is recognised only right after a backtick.
pub open spec fn tick_keyword(b: Seq<u8>, p: int) -> Option<(TokenKind, int)> {
    if p == 0 || b[p - 1] != TICK {
        None
    } else {
        keyword_at(b, p)
    }
}

/// The bytes that may start a ref keyword.
pub open spec fn is_keyword_initial(c: u8) -> bool {
    c == 97u8 || c == 115u8 || c == 114u8 || c == 99u8
}

/// Body text from `p` (its first byte already taken) and the position after it.
pub open spec fn body_step(b: Seq<u8>, p: int) -> (Seq<Token>, int) {
    (seq![tok(TokenKind::BodyText, p, body_end(b, p + 1))], body_end(b, p + 1))
}

/// The tokens that the byte at `p` starts, and the position after them.
pub open spec fn lex_step(b: Seq<u8>, p: int) -> (Seq<Token>, int) {
    let c = b[p];
    if is_keyword_initial(c) {
        match tick_keyword(b, p) {
            Some((kind, len)) => (seq![tok(kind, p, p + len)], p + len),
            None => body_step(b, p),
        }
    } else if c == TICK {
        if peek_at(b, p + 1) == Some(TICK) && peek_at(b, p + 2) == Some(TICK) {
            (seq![tok(TokenKind::BodyText, p, body_end(b, p + 3))], body_end(b, p + 3))
        } else if peek_at(b, p + 1) == Some(TICK) {
            (
                seq![
                    tok(TokenKind::TickDouble, p, p + 2),
                    tok(TokenKind::BodyText, p + 2, body_end(b, p + 2)),
                ],
                body_end(b, p + 2),
            )
        } else {
            (seq![tok(TokenKind::Tick, p, p + 1)], p + 1)
        }
    } else if c == LBRACE {
        if peek_at(b, p + 1) != Some(GT) {
            body_step(b, p)
        } else {
            (
                seq![
                    tok(TokenKind::FragmentOpen, p, p + 2),
                    tok(TokenKind::RefValue, p + 2, value_end(b, p + 2, LT)),
                ],
                value_end(b, p + 2, LT),
            )
        }
    } else if c == LT {
        if peek_at(b, p + 1) == Some(RBRACE) {
            (seq![tok(TokenKind::FragmentClose, p, p + 2)], p + 2)
        } else {
            (Seq::empty(), p + 1)
        }
    } else if c == COLON {
        if peek_at(b, p + 1) == Some(COLON) {
            (
                seq![
                    tok(TokenKind::DoubleColon, p, p + 2),
                    tok(TokenKind::RefValue, p + 2, value_end(b, p + 2, TICK)),
                ],
                value_end(b, p + 2, TICK),
            )
        } else {
            body_step(b, p)
        }
    } else {
        body_step(b, p)
    }
}

/// The tokens of `b` from position `p` on.
pub open spec fn spec_tokenize(b: Seq<u8>, p: int) -> Seq<Token>
    decreases b.len() - p,
{
    if p < 0 || p >= b.len() {
        Seq::empty()
    } else {
        let (ts, q) = lex_step(b, p);
        if p < q <= b.len() {
            ts + spec_tokenize(b, q)
        } else {
            ts
        }
    }
}

// ── Lemmas ────────────────────────────────────────────────────────────────────

/// A keyword match lies inside the input and is followed by `::`.
pub proof fn lemma_keyword_at(b: Seq<u8>, start: int)
    requires
        0 <= start,
    ensures
        keyword_at(b, start) matches Some((_, len)) ==> {
            &&& 3 <= len <= 5
            &&& start + len + 2 <= b.len()
            &&& b[start + len] == COLON
            &&& b[start + len + 1] == COLON
        },
{
    if bytes_at(b, start, reference_ref()) {
        assert(b.subrange(start, start + 5)[3] == b[start + 3]);
    } else if bytes_at(b, start, agent_ref()) {
        assert(b.subrange(start, start + 7)[5] == b[start + 5]);
        assert(b.subrange(start, start + 7)[6] == b[start + 6]);
    } else if bytes_at(b, start, cmd_ref()) {
        assert(b.subrange(start, start + 5)[3] == b[start + 3]);
        assert(b.subrange(start, start + 5)[4] == b[start + 4]);
    } else if bytes_at(b, start, skill_ref()) {
        assert(b.subrange(start, start + 7)[5] == b[start + 5]);
        assert(b.subrange(start, start + 7)[6] == b[start + 6]);
    }
}

/// Each step consumes at least one byte and stays inside the input.
pub proof fn lemma_lex_step_advances(b: Seq<u8>, p: int)
    requires
        0 <= p < b.len(),
    ensures
        p < lex_step(b, p).1 <= b.len(),
{
    lemma_body_end(b, p + 1);
    if p + 2 <= b.len() {
        lemma_body_end(b, p + 2);
        lemma_value_end(b, p + 2, LT);
        lemma_value_end(b, p + 2, TICK);
    }
    if p + 3 <= b.len() {
        lemma_body_end(b, p + 3);
    }
    lemma_keyword_at(b, p);
}

/// Unfolds [`spec_tokenize`] by one step.
pub proof fn lemma_tokenize_unfold(b: Seq<u8>, p: int)
    requires
        0 <= p < b.len(),
    ensures
        spec_tokenize(b, p) == lex_step(b, p).0 + spec_tokenize(b, lex_step(b, p).1),
{
    lemma_lex_step_advances(b, p);
}

// ── Implementation ────────────────────────────────────────────────────────────

impl<'a> Lexer<'a> {
    /// The bytes being tokenized.
    pub open spec fn bytes(&self) -> Seq<u8> {
        self.src.spec_bytes()
    }

    /// The current position.
    pub open spec fn position(&self) -> int {
        self.pos as int
    }

    /// The position lies inside the source, whose positions fit in `u32`.
    pub open spec fn wf(&self) -> bool {
        &&& 0 <= self.position() <= self.bytes().len()
        &&& self.bytes().len() < u32::MAX
    }

    fn ref_kind_at(src_bytes: &[u8], start: usize) -> (r: Option<(TokenKind, usize)>)
        requires
            start <= src_bytes@.len(),
        ensures
            r matches Some((k, n)) ==> keyword_at(src_bytes@, start as int) == Some((k, n - 2)),
            r matches Some((_, n)) ==> 5 <= n <= 7,
            r is None ==> keyword_at(src_bytes@, start as int) is None,
    {
        let reference: [u8; 5] = [114, 101, 102, 58, 58];
        let agent: [u8; 7] = [97, 103, 101, 110, 116, 58, 58];
        let cmd: [u8; 5] = [99, 109, 100, 58, 58];
        let skill: [u8; 7] = [115, 107, 105, 108, 108, 58, 58];
        assert(reference@ == reference_ref());
        assert(agent@ == agent_ref());
        assert(cmd@ == cmd_ref());
        assert(skill@ == skill_ref());
        if matches_at(src_bytes, start, reference.as_slice()) {
            Some((TokenKind::RefReference, 5))
        } else if matches_at(src_bytes, start, agent.as_slice()) {
            Some((TokenKind::RefAgent, 7))
        } else if matches_at(src_bytes, start, cmd.as_slice()) {
            Some((TokenKind::RefCmd, 5))
        } else if matches_at(src_bytes, start, skill.as_slice()) {
            Some((TokenKind::RefSKill, 7))
        } else {
            None
        }
    }

    fn tick_prefixed_ref_token(&mut self, start_pos: u32) -> (r: Option<Token>)
        requires
            old(self).wf(),
            old(self).position() == start_pos + 1,
            start_pos < old(self).bytes().len(),
        ensures
            final(self).wf(),
            final(self).bytes() == old(self).bytes(),
            tick_keyword(old(self).bytes(), start_pos as int) matches Some((k, n)) ==> {
                &&& r == Some(tok(k, start_pos as int, start_pos + n))
                &&& final(self).position() == start_pos + n
            },
            tick_keyword(old(self).bytes(), start_pos as int) is None ==> {
                &&& r is None
                &&& final(self).position() == old(self).position()
            },
    {
        let src_bytes = self.src.as_bytes();
        if start_pos == 0 || src_bytes[(start_pos - 1) as usize] != TICK {
            return None;
        }
        let start = start_pos as usize;
        proof {
            lemma_keyword_at(src_bytes@, start as int);
        }
        match Self::ref_kind_at(src_bytes, start) {
            Some((kind, prefix_len)) => {
                self.pos += prefix_len - 3;
                Some(Token::new(kind, start_pos, self.pos as u32))
            },
            None => None,
        }
    }

    /// Creates a new lexer over `src`.
    pub fn new(src: &'a str) -> (r: Self)
        ensures
            r.bytes() == src.spec_bytes(),
            r.position() == 0,
    {
        Self { src, pos: 0 }
    }

    /// Reads the next byte and moves past it; `None` at the end.
    pub fn next(&mut self) -> (r: Option<u8>)
        ensures
            final(self).src == old(self).src,
            r == peek_at(old(self).bytes(), old(self).position()),
            r is Some ==> final(self).position() == old(self).position() + 1,
            r is None ==> final(self).position() == old(self).position(),
    {
        let b = self.src.as_bytes();
        if self.pos >= b.len() {
            return None;
        }
        let c = b[self.pos];
        self.pos += 1;
        Some(c)
    }

    /// The byte `offset` bytes ahead of the current position, if any.
    pub fn peek(&self, offset: usize) -> (r: Option<u8>)
        requires
            self.pos + offset <= usize::MAX,
        ensures
            r == peek_at(self.bytes(), self.position() + offset),
    {
        let b = self.src.as_bytes();
        if self.pos + offset < b.len() {
            Some(b[self.pos + offset])
        } else {
            None
        }
    }

    /// Tokenizes the source from the current position on.
    pub fn tokenize(&mut self) -> (r: Vec<Token>)
        requires
            old(self).wf(),
        ensures
            r@ == spec_tokenize(old(self).bytes(), old(self).position()),
            final(self).wf(),
            final(self).bytes() == old(self).bytes(),
    {
        let mut tokens: Vec<Token> = Vec::new();
        let ghost b = self.bytes();
        let ghost p0 = self.position();
        while self.pos < self.src.len()
            invariant
                self.wf(),
                self.bytes() == b,
                p0 <= self.position(),
                tokens@ + spec_tokenize(b, self.position()) == spec_tokenize(b, p0),
            decreases b.len() - self.position(),
        {
            let ghost p = self.position();
            let ghost before = tokens@;
            proof {
                lemma_tokenize_unfold(b, p);
                lemma_lex_step_advances(b, p);
            }
            self.step(&mut tokens);
            proof {
                let step = lex_step(b, p);
                assert(before + step.0 + spec_tokenize(b, step.1) =~= before + (step.0
                    + spec_tokenize(b, step.1)));
            }
        }
        assert(tokens@ =~= spec_tokenize(b, p0));
        tokens
    }

    /// Lexes the tokens that the byte at the current position starts.
    fn step(&mut self, tokens: &mut Vec<Token>)
        requires
            old(self).wf(),
            old(self).position() < old(self).bytes().len(),
        ensures
            final(self).wf(),
            final(self).bytes() == old(self).bytes(),
            final(tokens)@ == old(tokens)@ + lex_step(old(self).bytes(), old(self).position()).0,
            final(self).position() == lex_step(old(self).bytes(), old(self).position()).1,
    {
        let ghost b = self.bytes();
        let ghost p = self.position();
        proof {
            lemma_body_end(b, p + 1);
            if p + 2 <= b.len() {
                lemma_body_end(b, p + 2);
                lemma_value_end(b, p + 2, LT);
                lemma_value_end(b, p + 2, TICK);
            }
            if p + 3 <= b.len() {
                lemma_body_end(b, p + 3);
            }
        }
        let c = match self.next() {
            Some(c) => c,
            None => 0,
        };
        let start_pos = (self.pos - 1) as u32;
        if c == 97 || c == 115 || c == 114 || c == 99 {
            match self.tick_prefixed_ref_token(start_pos) {
                Some(t) => tokens.push(t),
                None => {
                    let t = self.make_body(start_pos);
                    tokens.push(t);
                },
            }
        } else if c == TICK {
            self.step_tick(tokens, start_pos);
        } else if c == LBRACE {
            if self.peek(0) != Some(GT) {
                let t = self.make_body(start_pos);
                tokens.push(t);
            } else {
                self.pos += 1;
                let t = Token::new(TokenKind::FragmentOpen, start_pos, self.pos as u32);
                tokens.push(t);
                let t = self.make_fragment_id(self.pos as u32);
                tokens.push(t);
            }
        } else if c == LT {
            if self.peek(0) == Some(RBRACE) {
                self.pos += 1;
                let t = Token::new(TokenKind::FragmentClose, start_pos, self.pos as u32);
                tokens.push(t);
            }
        } else if c == COLON {
            if self.peek(0) == Some(COLON) {
                self.pos += 1;
                let t = Token::new(TokenKind::DoubleColon, start_pos, self.pos as u32);
                tokens.push(t);
                let t = self.make_ref_value(self.pos as u32);
                tokens.push(t);
            } else {
                let t = self.make_body(start_pos);
                tokens.push(t);
            }
        } else {
            let t = self.make_body(start_pos);
            tokens.push(t);
        }
    }

    /// Lexes what a backtick at `start_pos` starts: a triple backtick taken
    /// into body text, a double-backtick delimiter followed by body text, or
    /// a single tick.
    fn step_tick(&mut self, tokens: &mut Vec<Token>, start_pos: u32)
        requires
            old(self).wf(),
            old(self).position() == start_pos + 1,
            start_pos < old(self).bytes().len(),
            old(self).bytes()[start_pos as int] == TICK,
        ensures
            final(self).wf(),
            final(self).bytes() == old(self).bytes(),
            final(tokens)@ == old(tokens)@ + lex_step(old(self).bytes(), start_pos as int).0,
            final(self).position() == lex_step(old(self).bytes(), start_pos as int).1,
    {
        let ghost b = self.bytes();
        let ghost p = start_pos as int;
        proof {
            if p + 2 <= b.len() {
                lemma_body_end(b, p + 2);
            }
            if p + 3 <= b.len() {
                lemma_body_end(b, p + 3);
            }
        }
        let p1 = self.peek(0);
        let p2 = self.peek(1);
        if p1 == Some(TICK) && p2 == Some(TICK) {
            self.pos += 2;
            let t = self.make_body(start_pos);
            tokens.push(t);
        } else if p1 == Some(TICK) {
            self.pos += 1;
            let t = Token::new(TokenKind::TickDouble, start_pos, self.pos as u32);
            tokens.push(t);
            let t = self.make_body(self.pos as u32);
            tokens.push(t);
        } else {
            let t = Token::new(TokenKind::Tick, start_pos, self.pos as u32);
            tokens.push(t);
        }
    }

    fn make_fragment_id(&mut self, start_pos: u32) -> (r: Token)
        requires
            old(self).wf(),
            start_pos == old(self).position(),
        ensures
            final(self).wf(),
            final(self).bytes() == old(self).bytes(),
            final(self).position() == value_end(old(self).bytes(), start_pos as int, LT),
            r == tok(TokenKind::RefValue, start_pos as int, final(self).position()),
    {
        let ghost b = self.bytes();
        loop
            invariant
                self.wf(),
                self.bytes() == b,
                start_pos <= self.position(),
                value_end(b, self.position(), LT) == value_end(b, start_pos as int, LT),
            ensures
                self.wf(),
                self.bytes() == b,
                self.position() == value_end(b, start_pos as int, LT),
            decreases b.len() - self.position(),
        {
            match self.next() {
                Some(c) => {
                    if c == LT {
                        self.pos -= 1;
                        break;
                    }
                },
                None => break,
            }
        }
        Token::new(TokenKind::RefValue, start_pos, self.pos as u32)
    }

    fn make_ref_value(&mut self, start_pos: u32) -> (r: Token)
        requires
            old(self).wf(),
            start_pos == old(self).position(),
        ensures
            final(self).wf(),
            final(self).bytes() == old(self).bytes(),
            final(self).position() == value_end(old(self).bytes(), start_pos as int, TICK),
            r == tok(TokenKind::RefValue, start_pos as int, final(self).position()),
    {
        let ghost b = self.bytes();
        loop
            invariant
                self.wf(),
                self.bytes() == b,
                start_pos <= self.position(),
                value_end(b, self.position(), TICK) == value_end(b, start_pos as int, TICK),
            ensures
                self.wf(),
                self.bytes() == b,
                self.position() == value_end(b, start_pos as int, TICK),
            decreases b.len() - self.position(),
        {
            match self.next() {
                Some(c) => {
                    if c == TICK {
                        self.pos -= 1;
                        break;
                    }
                },
                None => break,
            }
        }
        Token::new(TokenKind::RefValue, start_pos, self.pos as u32)
    }

    fn make_body(&mut self, start_pos: u32) -> (r: Token)
        requires
            old(self).wf(),
            start_pos <= old(self).position(),
        ensures
            final(self).wf(),
            final(self).bytes() == old(self).bytes(),
            final(self).position() == body_end(old(self).bytes(), old(self).position()),
            r == tok(TokenKind::BodyText, start_pos as int, final(self).position()),
    {
        let ghost b = self.bytes();
        let ghost p0 = self.position();
        loop
            invariant
                self.wf(),
                self.bytes() == b,
                p0 <= self.position(),
                body_end(b, self.position()) == body_end(b, p0),
            ensures
                self.wf(),
                self.bytes() == b,
                self.position() == body_end(b, p0),
            decreases b.len() - self.position(),
        {
            match self.next() {
                Some(c) => {
                    if c == TICK {
                        let p1 = self.peek(0);
                        let p2 = self.peek(1);
                        if p1 == Some(TICK) && p2 == Some(TICK) {
                            self.pos += 2;
                        } else {
                            self.pos -= 1;
                            break;
                        }
                    } else if c == LBRACE {
                        self.pos -= 1;
                        break;
                    }
                },
                None => break,
            }
        }
        Token::new(TokenKind::BodyText, start_pos, self.pos as u32)
    }
}

} // verus!
