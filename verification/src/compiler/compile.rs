//! AST-based compiler for `.pan` body text.
//!
//! Pure text transformation: fragment expansion, var/env substitution,
//! backtick-wrapping of typed refs. A prior check pass validates referential
//! integrity; unresolvable refs are substituted with an empty string or
//! passed through verbatim.
use core::ops::Range;
use vstd::prelude::*;
use vstd::string::StringSliceAdditionalSpecFns;
use vstd::utf8::{decode_utf8, encode_utf8, valid_utf8};

use super::lex::TICK;
use super::parse::{nodes_view, spec_parse, Node, NodeView, PanParse, RefKind};
use super::PanSource;
use crate::collections::{first_uses, lemma_first_uses_empty, lemma_first_uses_push, string_views, StrMap};
use crate::parse::{parse_frontmatter, spec_parse_frontmatter};
use crate::tokens::counted;
use crate::workspace::Workspace;
use crate::text::{
    at_boundary, bytes_at, find_from, find_bytes, lemma_after_ascii, lemma_ends_at_boundary,
    lemma_str_bytes, matches_at, slice_str, trim, trim_chars,
};

verus! {

// ── Fragments ─────────────────────────────────────────────────────────────────

/// Fragment content pre-rendered for an entire workspace.
///
/// Built once with [`render_fragments`] before the per-file compilation loop.
#[derive(Debug)]
pub struct RenderedFragments {
    /// Fragment id → content without trailing newlines, ready to interpolate.
    pub rendered: StrMap<String>,
    /// Fragment id → reason string for fragments that cannot be expanded.
    pub poisoned: StrMap<String>,
}

/// What becomes of one fragment: its text, or the reason it cannot be used.
pub enum FragmentOutcome {
    /// The fragment's text, ready to interpolate.
    Rendered(Seq<char>),
    /// Why the fragment cannot be expanded.
    Poisoned(Seq<char>),
}

/// `cs` without its trailing newlines.
pub open spec fn strip_trailing_newlines(cs: Seq<char>) -> Seq<char>
    decreases cs.len(),
{
    if cs.len() > 0 && cs.last() == '\n' {
        strip_trailing_newlines(cs.drop_last())
    } else {
        cs
    }
}

/// Trailing newlines from `e` on do not change the stripped text.
proof fn lemma_strip_newlines_from(cs: Seq<char>, e: int)
    requires
        0 <= e <= cs.len(),
        forall|k: int| e <= k < cs.len() ==> #[trigger] cs[k] == '\n',
    ensures
        strip_trailing_newlines(cs) == strip_trailing_newlines(cs.subrange(0, e)),
    decreases cs.len() - e,
{
    if e == cs.len() {
        assert(cs.subrange(0, e) =~= cs);
    } else {
        let d = cs.drop_last();
        assert forall|k: int| e <= k < d.len() implies #[trigger] d[k] == '\n' by {
            assert(d[k] == cs[k]);
        }
        lemma_strip_newlines_from(d, e);
        assert(d.subrange(0, e) =~= cs.subrange(0, e));
    }
}

/// `s` without its trailing newlines, as `str::trim_end_matches('\n')`
/// gives it.
pub(crate) fn trim_trailing_newlines(s: &str) -> (r: &str)
    ensures
        r@ == strip_trailing_newlines(s@),
{
    let n = s.unicode_len();
    let mut e: usize = n;
    while e > 0 && s.get_char(e - 1) == '\n'
        invariant
            n == s@.len(),
            e <= n,
            forall|k: int| e <= k < n ==> #[trigger] s@[k] == '\n',
        decreases e,
    {
        e -= 1;
    }
    proof {
        lemma_strip_newlines_from(s@, e as int);
        let t = s@.subrange(0, e as int);
        if e > 0 {
            assert(t.last() == s@[e - 1]);
        }
    }
    s.substring_char(0, e)
}

/// The value of the first fragment insertion among `ns`.
pub open spec fn first_fragment(ns: Seq<NodeView>) -> Option<Seq<char>>
    decreases ns.len(),
{
    if ns.len() == 0 {
        None
    } else if ns[0] is Fragment {
        Some(ns[0]->Fragment_value)
    } else {
        first_fragment(ns.drop_first())
    }
}

/// The kind and value of the first typed ref among `ns`.
pub open spec fn first_ref(ns: Seq<NodeView>) -> Option<(RefKind, Seq<char>)>
    decreases ns.len(),
{
    if ns.len() == 0 {
        None
    } else if ns[0] is Ref {
        Some((ns[0]->Ref_kind, ns[0]->Ref_value))
    } else {
        first_ref(ns.drop_first())
    }
}

/// The keyword of a ref kind, as written before `::`.
pub open spec fn ref_prefix(k: RefKind) -> Seq<char> {
    match k {
        RefKind::Agent => "agent"@,
        RefKind::Skill => "skill"@,
        RefKind::Cmd => "cmd"@,
        RefKind::Path => "path"@,
        RefKind::Url => "url"@,
        RefKind::Reference => "ref"@,
        RefKind::Var => "var"@,
        RefKind::Env => "env"@,
    }
}

/// What becomes of a fragment whose content is `content`: a fragment that
/// includes another one, or holds a typed ref, cannot be expanded; any other
/// is used without its trailing newlines.
pub open spec fn fragment_outcome(content: Seq<char>) -> FragmentOutcome {
    let ns = spec_parse(encode_utf8(content)).0;
    match first_fragment(ns) {
        Some(id) => FragmentOutcome::Poisoned(
            "nested include detected (it includes '"@ + trim_chars(id)
                + "') — nesting is not supported"@,
        ),
        None => match first_ref(ns) {
            Some((k, v)) => FragmentOutcome::Poisoned(
                "ref detected ('"@ + ref_prefix(k) + "::"@ + v
                    + "') — refs are not supported in fragments"@,
            ),
            None => FragmentOutcome::Rendered(strip_trailing_newlines(content)),
        },
    }
}

fn ref_prefix_str(k: RefKind) -> (r: &'static str)
    ensures
        r@ == ref_prefix(k),
{
    match k {
        RefKind::Agent => "agent",
        RefKind::Skill => "skill",
        RefKind::Cmd => "cmd",
        RefKind::Path => "path",
        RefKind::Url => "url",
        RefKind::Reference => "ref",
        RefKind::Var => "var",
        RefKind::Env => "env",
    }
}

/// The first fragment insertion among the nodes.
fn find_fragment(nodes: &Vec<Node>) -> (r: Option<&String>)
    ensures
        r matches Some(v) ==> first_fragment(nodes_view(nodes@)) == Some(v@),
        r is None ==> first_fragment(nodes_view(nodes@)) is None,
{
    let mut i: usize = 0;
    assert(nodes_view(nodes@).skip(0) =~= nodes_view(nodes@));
    while i < nodes.len()
        invariant
            i <= nodes@.len(),
            first_fragment(nodes_view(nodes@)) == first_fragment(nodes_view(nodes@).skip(i as int)),
        decreases nodes@.len() - i,
    {
        proof {
            assert(nodes_view(nodes@).skip(i as int).drop_first() =~= nodes_view(nodes@).skip(i + 1));
        }
        match &nodes[i] {
            Node::Fragment { value, .. } => {
                return Some(value);
            },
            _ => {},
        }
        i += 1;
    }
    None
}

/// The first typed ref among the nodes.
fn find_ref(nodes: &Vec<Node>) -> (r: Option<(RefKind, &String)>)
    ensures
        r matches Some((k, v)) ==> first_ref(nodes_view(nodes@)) == Some((k, v@)),
        r is None ==> first_ref(nodes_view(nodes@)) is None,
{
    let mut i: usize = 0;
    assert(nodes_view(nodes@).skip(0) =~= nodes_view(nodes@));
    while i < nodes.len()
        invariant
            i <= nodes@.len(),
            first_ref(nodes_view(nodes@)) == first_ref(nodes_view(nodes@).skip(i as int)),
        decreases nodes@.len() - i,
    {
        proof {
            assert(nodes_view(nodes@).skip(i as int).drop_first() =~= nodes_view(nodes@).skip(i + 1));
        }
        match &nodes[i] {
            Node::Ref { kind, value, .. } => {
                return Some((*kind, value));
            },
            _ => {},
        }
        i += 1;
    }
    None
}

/// A typed ref among `ns` makes [`first_ref`] find one.
proof fn lemma_first_ref_some(ns: Seq<NodeView>, i: int)
    requires
        0 <= i < ns.len(),
        ns[i] is Ref,
    ensures
        first_ref(ns) is Some,
    decreases ns.len(),
{
    if i > 0 && !(ns[0] is Ref) {
        assert(ns.drop_first()[i - 1] == ns[i]);
        lemma_first_ref_some(ns.drop_first(), i - 1);
    }
}

/// A fragment include among `ns` makes [`first_fragment`] find one.
proof fn lemma_first_fragment_some(ns: Seq<NodeView>, i: int)
    requires
        0 <= i < ns.len(),
        ns[i] is Fragment,
    ensures
        first_fragment(ns) is Some,
    decreases ns.len(),
{
    if i > 0 && !(ns[0] is Fragment) {
        assert(ns.drop_first()[i - 1] == ns[i]);
        lemma_first_fragment_some(ns.drop_first(), i - 1);
    }
}

/// Without typed refs and fragment includes among `ns`, neither
/// [`first_ref`] nor [`first_fragment`] finds anything.
proof fn lemma_first_none(ns: Seq<NodeView>)
    requires
        forall|i: int| 0 <= i < ns.len() ==> !(#[trigger] ns[i] is Ref) && !(ns[i] is Fragment),
    ensures
        first_ref(ns) is None,
        first_fragment(ns) is None,
    decreases ns.len(),
{
    if ns.len() > 0 {
        let t = ns.drop_first();
        assert forall|i: int| 0 <= i < t.len() implies !(#[trigger] t[i] is Ref) && !(t[i] is Fragment) by {
            assert(t[i] == ns[i + 1]);
        }
        lemma_first_none(t);
        assert(!(ns[0] is Ref) && !(ns[0] is Fragment));
    }
}

/// Law: a fragment whose parse holds a typed ref or a fragment include is
/// never rendered: it is poisoned. A fragment whose parse holds neither is
/// rendered as its content without trailing newlines.
pub proof fn lemma_fragment_outcome_law(content: Seq<char>)
    ensures
        (exists|i: int|
            0 <= i < spec_parse(encode_utf8(content)).0.len() && (#[trigger] spec_parse(
                encode_utf8(content),
            ).0[i] is Ref || spec_parse(encode_utf8(content)).0[i] is Fragment)) ==> fragment_outcome(
            content,
        ) is Poisoned,
        (forall|i: int|
            0 <= i < spec_parse(encode_utf8(content)).0.len() ==> !(#[trigger] spec_parse(
                encode_utf8(content),
            ).0[i] is Ref) && !(spec_parse(encode_utf8(content)).0[i] is Fragment)) ==> fragment_outcome(
            content,
        ) == FragmentOutcome::Rendered(strip_trailing_newlines(content)),
{
    let ns = spec_parse(encode_utf8(content)).0;
    if exists|i: int| 0 <= i < ns.len() && (#[trigger] ns[i] is Ref || ns[i] is Fragment) {
        let i = choose|i: int| 0 <= i < ns.len() && (#[trigger] ns[i] is Ref || ns[i] is Fragment);
        if ns[i] is Ref {
            lemma_first_ref_some(ns, i);
        } else {
            lemma_first_fragment_some(ns, i);
        }
    }
    if forall|i: int| 0 <= i < ns.len() ==> !(#[trigger] ns[i] is Ref) && !(ns[i] is Fragment) {
        lemma_first_none(ns);
    }
}

/// Decides what becomes of one fragment.
fn render_one(content: &String) -> (r: Result<String, String>)
    requires
        encode_utf8(content@).len() < u32::MAX,
    ensures
        r matches Ok(t) ==> fragment_outcome(content@) == FragmentOutcome::Rendered(t@),
        r matches Err(m) ==> fragment_outcome(content@) == FragmentOutcome::Poisoned(m@),
{
    let frag_src = PanSource::new(content.clone());
    let mut parser = PanParse::new(&frag_src);
    parser.parse();
    match find_fragment(&parser.nodes) {
        Some(nested_id) => {
            let mut msg = String::from_str("nested include detected (it includes '");
            msg.append(trim(nested_id.as_str()));
            msg.append("') — nesting is not supported");
            Err(msg)
        },
        None => match find_ref(&parser.nodes) {
            Some((kind, value)) => {
                let mut msg = String::from_str("ref detected ('");
                msg.append(ref_prefix_str(kind));
                msg.append("::");
                msg.append(value.as_str());
                msg.append("') — refs are not supported in fragments");
                Err(msg)
            },
            None => Ok(String::from_str(trim_trailing_newlines(content.as_str()))),
        },
    }
}

/// Pre-renders all fragments for an entire workspace.
///
/// Trailing newlines are stripped from rendered content. Fragments
/// containing nested `{> ... <}` directives or typed refs are placed in
/// `poisoned`; every fragment lands in exactly one of the two maps.
pub fn render_fragments(raw: &StrMap<String>) -> (r: RenderedFragments)
    requires
        raw.wf(),
        forall|id: Seq<char>| #[trigger] raw@.contains_key(id) ==> encode_utf8(raw@[id]@).len() < u32::MAX,
    ensures
        r.rendered.wf(),
        r.poisoned.wf(),
        forall|id: Seq<char>|
            #[trigger] r.rendered@.contains_key(id) <==> raw@.contains_key(id) && fragment_outcome(
                raw@[id]@,
            ) is Rendered,
        forall|id: Seq<char>|
            #[trigger] r.poisoned@.contains_key(id) <==> raw@.contains_key(id) && fragment_outcome(
                raw@[id]@,
            ) is Poisoned,
        forall|id: Seq<char>|
            #[trigger] r.rendered@.contains_key(id) ==> fragment_outcome(raw@[id]@)
                == FragmentOutcome::Rendered(r.rendered@[id]@),
        forall|id: Seq<char>|
            #[trigger] r.poisoned@.contains_key(id) ==> fragment_outcome(raw@[id]@)
                == FragmentOutcome::Poisoned(r.poisoned@[id]@),
{
    let mut rendered: StrMap<String> = StrMap::new();
    let mut poisoned: StrMap<String> = StrMap::new();
    let n = raw.len();
    proof {
        raw.lemma_entries();
    }
    let ghost ks = raw.key_seq();
    let mut i: usize = 0;
    while i < n
        invariant
            raw.wf(),
            ks == raw.key_seq(),
            n == ks.len(),
            raw.val_seq().len() == ks.len(),
            crate::collections::sorted_keys(ks),
            i <= n,
            forall|id: Seq<char>| #[trigger] raw@.contains_key(id) ==> encode_utf8(raw@[id]@).len() < u32::MAX,
            forall|j: int| 0 <= j < ks.len() ==> #[trigger] raw@[ks[j]] == raw.val_seq()[j],
            forall|id: Seq<char>| raw@.contains_key(id) <==> ks.contains(id),
            rendered.wf(),
            poisoned.wf(),
            forall|id: Seq<char>|
                #[trigger] rendered@.contains_key(id) <==> ks.subrange(0, i as int).contains(id)
                    && fragment_outcome(raw@[id]@) is Rendered,
            forall|id: Seq<char>|
                #[trigger] poisoned@.contains_key(id) <==> ks.subrange(0, i as int).contains(id)
                    && fragment_outcome(raw@[id]@) is Poisoned,
            forall|id: Seq<char>|
                #[trigger] rendered@.contains_key(id) ==> fragment_outcome(raw@[id]@)
                    == FragmentOutcome::Rendered(rendered@[id]@),
            forall|id: Seq<char>|
                #[trigger] poisoned@.contains_key(id) ==> fragment_outcome(raw@[id]@)
                    == FragmentOutcome::Poisoned(poisoned@[id]@),
        decreases n - i,
    {
        let id = raw.key_at(i);
        let content = raw.value_at(i);
        let ghost k = ks[i as int];
        proof {
            assert(raw@.contains_key(k)) by {
                assert(ks.contains(k));
            }
            assert(raw@[k] == *content);
            assert(ks.subrange(0, i + 1) =~= ks.subrange(0, i as int).push(k));
            crate::collections::lemma_sorted_distinct(ks);
            assert(!ks.subrange(0, i as int).contains(k)) by {
                if ks.subrange(0, i as int).contains(k) {
                    let j = choose|j: int| 0 <= j < i && ks.subrange(0, i as int)[j] == k;
                    assert(ks[j] == k);
                }
            }
        }
        let ghost prev = ks.subrange(0, i as int);
        let ghost next = ks.subrange(0, i + 1);
        proof {
            crate::collections::lemma_push_contains(prev, k);
        }
        match render_one(content) {
            Ok(text) => {
                rendered.insert(id.clone(), text);
                proof {
                    assert forall|q: Seq<char>| #[trigger] poisoned@.contains_key(q) <==> next.contains(q)
                        && fragment_outcome(raw@[q]@) is Poisoned by {
                        if q == k {
                            assert(fragment_outcome(raw@[q]@) is Rendered);
                        }
                    }
                }
            },
            Err(msg) => {
                poisoned.insert(id.clone(), msg);
                proof {
                    assert forall|q: Seq<char>| #[trigger] rendered@.contains_key(q) <==> next.contains(q)
                        && fragment_outcome(raw@[q]@) is Rendered by {
                        if q == k {
                            assert(fragment_outcome(raw@[q]@) is Poisoned);
                        }
                    }
                }
            },
        }
        i += 1;
    }
    proof {
        assert(ks.subrange(0, n as int) =~= ks);
    }
    RenderedFragments { rendered, poisoned }
}

// ── Front matter boundary ─────────────────────────────────────────────────────

/// `---`
pub open spec fn dashes() -> Seq<u8> {
    seq![45u8, 45, 45]
}

/// A newline followed by `---`.
pub open spec fn newline_dashes() -> Seq<u8> {
    seq![10u8, 45, 45, 45]
}

/// The offset at which the body of `b` starts: after the line that closes a
/// front matter opened by `---` at the very start (the first `\n---` after
/// the opening `---`), or 0 when there is no such front matter.
pub open spec fn body_start(b: Seq<u8>) -> int {
    if !bytes_at(b, 0, dashes()) {
        0
    } else {
        match find_from(b, newline_dashes(), 3) {
            None => 0,
            Some(close) => match find_from(b, seq![10u8], close + 4) {
                Some(nl) => nl + 1,
                None => b.len() as int,
            },
        }
    }
}

/// Positions found by [`find_from`] hold the pattern.
pub proof fn lemma_find_from(b: Seq<u8>, pat: Seq<u8>, from: int)
    requires
        0 <= from,
    ensures
        find_from(b, pat, from) matches Some(i) ==> from <= i && bytes_at(b, i, pat),
    decreases b.len() + 1 - from,
{
    if from + pat.len() <= b.len() && !bytes_at(b, from, pat) {
        lemma_find_from(b, pat, from + 1);
    }
}

/// Returns the byte offset at which the body of `raw` starts, skipping a
/// leading `---` front matter and the rest of its closing line.
pub fn body_start_offset(raw: &str) -> (r: usize)
    ensures
        r == body_start(raw.spec_bytes()),
        r <= raw.spec_bytes().len(),
        at_boundary(raw.spec_bytes(), r as int),
{
    let b = raw.as_bytes();
    let len = b.len();
    let ghost bs = b@;
    proof {
        lemma_str_bytes(raw);
        lemma_ends_at_boundary(bs);
    }
    let dash: [u8; 3] = [45, 45, 45];
    let nl_dash: [u8; 4] = [10, 45, 45, 45];
    let nl: [u8; 1] = [10];
    assert(dash@ == dashes());
    assert(nl_dash@ == newline_dashes());
    assert(nl@ == seq![10u8]);
    if !matches_at(b, 0, dash.as_slice()) {
        return 0;
    }
    match find_bytes(b, nl_dash.as_slice(), 3) {
        None => 0,
        Some(close) => {
            proof {
                lemma_find_from(bs, newline_dashes(), 3);
                assert(bs.subrange(close as int, close + 4)[3] == bs[close + 3]);
                assert(close + 4 <= len);
            }
            match find_bytes(b, nl.as_slice(), close + 4) {
                Some(i) => {
                    proof {
                        lemma_find_from(bs, seq![10u8], close + 4);
                        assert(bs.subrange(i as int, i + 1)[0] == bs[i as int]);
                        lemma_after_ascii(bs, i as int);
                    }
                    i + 1
                },
                None => len,
            }
        },
    }
}

// ── Compilation ───────────────────────────────────────────────────────────────

/// Output of a single [`compile`] call.
#[derive(Debug)]
pub struct CompileOutput {
    /// Compiled text: frontmatter section prepended to the compiled body.
    pub text: String,
    /// Fragment ids expanded, in first-use order (deduplicated).
    pub fragments_used: Vec<String>,
    /// Token count over `text`.
    pub activation_tokens: u32,
    /// Token count over `"{name} {description}"` from the frontmatter.
    pub discovery_tokens: u32,
}

/// The value of the environment variable `name` as compilation sees it: the
/// process environment's value, else the declared default, else nothing.
pub open spec fn env_value(ws: &Workspace, name: Seq<char>) -> Seq<char> {
    if ws.process_env@.contains_key(name) {
        ws.process_env@[name]@
    } else if ws.env@.contains_key(name) {
        ws.env@[name].default@
    } else {
        Seq::empty()
    }
}

/// Law: an `env::` ref compiles to the variable's value in the process
/// environment when it is set there, whatever default `[env]` declares; to
/// the declared default when it is not set there; and to nothing when
/// neither has it. A `var::` ref compiles to its declared value, or nothing.
pub proof fn lemma_env_and_var_ref_text(
    ws: &Workspace,
    body: Seq<u8>,
    value: Seq<char>,
    source_range: Range<u32>,
)
    ensures
        ({
            let t = node_text(ws, body, NodeView::Ref { kind: RefKind::Env, value, source_range });
            &&& ws.process_env@.contains_key(value) ==> t == ws.process_env@[value]@
            &&& !ws.process_env@.contains_key(value) && ws.env@.contains_key(value) ==> t
                == ws.env@[value].default@
            &&& !ws.process_env@.contains_key(value) && !ws.env@.contains_key(value) ==> t.len() == 0
        }),
        ({
            let t = node_text(ws, body, NodeView::Ref { kind: RefKind::Var, value, source_range });
            &&& ws.vars@.contains_key(value) ==> t == ws.vars@[value]@
            &&& !ws.vars@.contains_key(value) ==> t.len() == 0
        }),
{
}

/// Law: a structural ref (`ref::`, `cmd::`, `skill::`, `agent::`, `path::`,
/// `url::`) compiles to its value between backticks, and a fragment include
/// to the fragment's rendered text, or to nothing when it has none.
pub proof fn lemma_structural_ref_and_fragment_text(
    ws: &Workspace,
    body: Seq<u8>,
    kind: RefKind,
    value: Seq<char>,
    source_range: Range<u32>,
)
    ensures
        !(kind is Var) && !(kind is Env) ==> node_text(ws, body, NodeView::Ref { kind, value, source_range })
            == seq!['`'] + value + seq!['`'],
        ws.fragments.rendered@.contains_key(trim_chars(value)) ==> node_text(
            ws,
            body,
            NodeView::Fragment { value, source_range },
        ) == ws.fragments.rendered@[trim_chars(value)]@,
        !ws.fragments.rendered@.contains_key(trim_chars(value)) ==> node_text(
            ws,
            body,
            NodeView::Fragment { value, source_range },
        ).len() == 0,
{
}

/// The text of `body` between two byte offsets.
pub open spec fn text_between(body: Seq<u8>, start: int, end: int) -> Seq<char> {
    decode_utf8(body.subrange(start, end))
}

/// What one node of `body` compiles to.
pub open spec fn node_text(ws: &Workspace, body: Seq<u8>, n: NodeView) -> Seq<char> {
    match n {
        NodeView::Body { source_range } => text_between(
            body,
            source_range.start as int,
            source_range.end as int,
        ),
        NodeView::RefSuspect { source_range } => text_between(
            body,
            source_range.start as int,
            source_range.end as int,
        ),
        NodeView::EscapedBody { source_range } => seq!['`'] + text_between(
            body,
            source_range.start + 2,
            source_range.end - 2,
        ) + seq!['`'],
        NodeView::Fragment { value, .. } => {
            let id = trim_chars(value);
            if ws.fragments.rendered@.contains_key(id) {
                ws.fragments.rendered@[id]@
            } else {
                Seq::empty()
            }
        },
        NodeView::Ref { kind, value, .. } => match kind {
            RefKind::Var => if ws.vars@.contains_key(value) {
                ws.vars@[value]@
            } else {
                Seq::empty()
            },
            RefKind::Env => env_value(ws, value),
            _ => seq!['`'] + value + seq!['`'],
        },
    }
}

/// What the nodes `ns` of `body` compile to, one after the other.
pub open spec fn body_text(ws: &Workspace, body: Seq<u8>, ns: Seq<NodeView>) -> Seq<char>
    decreases ns.len(),
{
    if ns.len() == 0 {
        Seq::empty()
    } else {
        body_text(ws, body, ns.drop_last()) + node_text(ws, body, ns.last())
    }
}

/// The ids of the fragments that the nodes `ns` expand, in first-use order,
/// each once.
pub open spec fn used_fragments(ws: &Workspace, ns: Seq<NodeView>) -> Seq<Seq<char>>
    decreases ns.len(),
{
    if ns.len() == 0 {
        Seq::empty()
    } else {
        let prev = used_fragments(ws, ns.drop_last());
        match ns.last() {
            NodeView::Fragment { value, .. } => {
                let id = trim_chars(value);
                if ws.fragments.rendered@.contains_key(id) && !prev.contains(id) {
                    prev.push(id)
                } else {
                    prev
                }
            },
            _ => prev,
        }
    }
}

/// Law: the fragments that compiling the nodes `ns` expands are listed once
/// each, and each is a rendered fragment of the workspace.
pub proof fn lemma_used_fragments_distinct(ws: &Workspace, ns: Seq<NodeView>)
    ensures
        used_fragments(ws, ns).no_duplicates(),
        forall|i: int|
            0 <= i < used_fragments(ws, ns).len() ==> ws.fragments.rendered@.contains_key(
                #[trigger] used_fragments(ws, ns)[i],
            ),
    decreases ns.len(),
{
    if ns.len() > 0 {
        lemma_used_fragments_distinct(ws, ns.drop_last());
        let prev = used_fragments(ws, ns.drop_last());
        if let NodeView::Fragment { value, .. } = ns.last() {
            let id = trim_chars(value);
            if ws.fragments.rendered@.contains_key(id) && !prev.contains(id) {
                assert forall|i: int, j: int| 0 <= i < j < prev.push(id).len() implies prev.push(id)[i]
                    != prev.push(id)[j] by {
                    if j == prev.len() {
                        assert(prev.push(id)[i] == prev[i]);
                    }
                }
            }
        }
    }
}

/// The ids of the fragments that the nodes `ns` include, in node order and
/// with repeats, leaving out ids that name no rendered fragment.
pub open spec fn fragment_ids(ws: &Workspace, ns: Seq<NodeView>) -> Seq<Seq<char>>
    decreases ns.len(),
{
    if ns.len() == 0 {
        Seq::empty()
    } else {
        let prev = fragment_ids(ws, ns.drop_last());
        match ns.last() {
            NodeView::Fragment { value, .. } => if ws.fragments.rendered@.contains_key(trim_chars(value)) {
                prev.push(trim_chars(value))
            } else {
                prev
            },
            _ => prev,
        }
    }
}

/// Law: compiling the nodes `ns` lists each fragment it expands once, in the
/// order in which the nodes first include it.
pub proof fn lemma_used_fragments_first_uses(ws: &Workspace, ns: Seq<NodeView>)
    ensures
        first_uses(used_fragments(ws, ns), fragment_ids(ws, ns)),
    decreases ns.len(),
{
    if ns.len() == 0 {
        lemma_first_uses_empty::<Seq<char>>();
    } else {
        lemma_used_fragments_first_uses(ws, ns.drop_last());
        if let NodeView::Fragment { value, .. } = ns.last() {
            if ws.fragments.rendered@.contains_key(trim_chars(value)) {
                lemma_first_uses_push(
                    used_fragments(ws, ns.drop_last()),
                    fragment_ids(ws, ns.drop_last()),
                    trim_chars(value),
                );
            }
        }
    }
}

/// The text or nothing.
pub open spec fn or_empty(o: Option<Seq<char>>) -> Seq<char> {
    match o {
        Some(s) => s,
        None => Seq::empty(),
    }
}

/// `"{name} {description}"` from the front matter of `src`, or nothing when
/// it has none that can be read.
pub open spec fn discovery_text(src: Seq<char>) -> Seq<char> {
    match spec_parse_frontmatter(src) {
        Ok(Some((n, d))) => or_empty(n) + " "@ + or_empty(d),
        _ => Seq::empty(),
    }
}

/// `"{name} {description}"` from the front matter of `src`, or nothing.
pub fn discovery_text_of(src: &str) -> (r: String)
    ensures
        r@ == discovery_text(src@),
{
    match parse_frontmatter(src) {
        Ok(Some(fm)) => {
            let n = match &fm.name {
                Some(s) => s.as_str(),
                None => "",
            };
            let d = match &fm.description {
                Some(s) => s.as_str(),
                None => "",
            };
            proof {
                reveal_strlit("");
            }
            crate::text::concat3(n, " ", d)
        },
        _ => String::new(),
    }
}

/// The bytes of the body of `b`: what follows its front matter.
pub open spec fn body_bytes(b: Seq<u8>) -> Seq<u8> {
    b.subrange(body_start(b), b.len() as int)
}

/// The compiled text of the source whose bytes are `b`: its front matter
/// section, then its compiled body.
pub open spec fn compiled_text(ws: &Workspace, b: Seq<u8>) -> Seq<char> {
    text_between(b, 0, body_start(b)) + body_text(ws, body_bytes(b), spec_parse(body_bytes(b)).0)
}

/// Law: the compiled text of a source begins with the source's front matter
/// section, up to where its body starts, unchanged.
pub proof fn lemma_compiled_keeps_front_matter(ws: &Workspace, b: Seq<u8>)
    ensures
        text_between(b, 0, body_start(b)).is_prefix_of(compiled_text(ws, b)),
{
    let pre = text_between(b, 0, body_start(b));
    assert(compiled_text(ws, b).subrange(0, pre.len() as int) =~= pre);
}

/// Whether `v` holds a string equal to `s`.
pub fn contains_str(v: &Vec<String>, s: &str) -> (r: bool)
    ensures
        r == string_views(v@).contains(s@),
{
    let mut i: usize = 0;
    while i < v.len()
        invariant
            i <= v@.len(),
            forall|j: int| 0 <= j < i ==> v@[j]@ != s@,
        decreases v@.len() - i,
    {
        if crate::text::str_eq(v[i].as_str(), s) {
            proof {
                assert(string_views(v@)[i as int] == s@);
            }
            return true;
        }
        i += 1;
    }
    proof {
        if string_views(v@).contains(s@) {
            let j = choose|j: int| 0 <= j < string_views(v@).len() && string_views(v@)[j] == s@;
            assert(v@[j]@ == s@);
        }
    }
    false
}

/// Appends what one node of `body` compiles to.
fn compile_node(
    ws: &Workspace,
    body: &str,
    node: &Node,
    out: &mut String,
    fragments_used: &mut Vec<String>,
)
    requires
        ws.wf(),
        valid_utf8(body.spec_bytes()),
        crate::compiler::parse::node_ok(body.spec_bytes(), node@),
    ensures
        final(out)@ == old(out)@ + node_text(ws, body.spec_bytes(), node@),
        string_views(final(fragments_used)@) == (match node@ {
            NodeView::Fragment { value, .. } => {
                let id = trim_chars(value);
                if ws.fragments.rendered@.contains_key(id) && !string_views(
                    old(fragments_used)@,
                ).contains(id) {
                    string_views(old(fragments_used)@).push(id)
                } else {
                    string_views(old(fragments_used)@)
                }
            },
            _ => string_views(old(fragments_used)@),
        }),
{
    let ghost b = body.spec_bytes();
    match node {
        Node::Body { source_range } => {
            out.append(slice_str(body, source_range.start as usize, source_range.end as usize));
        },
        Node::RefSuspect { source_range } => {
            out.append(slice_str(body, source_range.start as usize, source_range.end as usize));
        },
        Node::EscapedBody { source_range } => {
            proof {
                lemma_after_ascii(b, source_range.start + 1);
            }
            out.append("`");
            out.append(
                slice_str(body, (source_range.start + 2) as usize, (source_range.end - 2) as usize),
            );
            out.append("`");
            proof {
                reveal_strlit("`");
            }
        },
        Node::Fragment { value, .. } => {
            let id = trim(value.as_str());
            match ws.fragments.rendered.get(id) {
                Some(content) => {
                    out.append(content.as_str());
                    if !contains_str(fragments_used, id) {
                        let ghost before = fragments_used@;
                        fragments_used.push(String::from_str(id));
                        proof {
                            assert(string_views(fragments_used@) =~= string_views(before).push(id@));
                        }
                    }
                },
                None => {
                    assert(out@ =~= out@ + Seq::<char>::empty());
                },
            }
        },
        Node::Ref { kind, value, .. } => match kind {
            RefKind::Var => match ws.vars.get(value.as_str()) {
                Some(v) => out.append(v.as_str()),
                None => {
                    assert(out@ =~= out@ + Seq::<char>::empty());
                },
            },
            RefKind::Env => match ws.process_env.get(value.as_str()) {
                Some(v) => out.append(v.as_str()),
                None => match ws.env.get(value.as_str()) {
                    Some(e) => out.append(e.default.as_str()),
                    None => {
                        assert(out@ =~= out@ + Seq::<char>::empty());
                    },
                },
            },
            _ => {
                out.append("`");
                out.append(value.as_str());
                out.append("`");
                proof {
                    reveal_strlit("`");
                }
            },
        },
    }
}

/// Compiles a single `.pan` source to its output text.
///
/// Infallible: a prior check reports what cannot be resolved. Unresolvable
/// refs fall back gracefully (empty string for var/env, verbatim backtick
/// for structural refs). Token counts come from `count_tokens`, called with
/// the text and the workspace's tokenizer model.
pub fn compile<F: Fn(&str, &str) -> u32>(ws: &Workspace, source: &PanSource, count_tokens: &F) -> (r: CompileOutput)
    requires
        ws.wf(),
        source.wf(),
        forall|t: &str, m: &str| count_tokens.requires((t, m)),
    ensures
        r.text@ == compiled_text(ws, source.bytes()),
        string_views(r.fragments_used@) == used_fragments(
            ws,
            spec_parse(body_bytes(source.bytes())).0,
        ),
        counted(*count_tokens, r.text@, ws.tokenizer@, r.activation_tokens),
        counted(*count_tokens, discovery_text(source.src@), ws.tokenizer@, r.discovery_tokens),
{
    let raw = source.as_str();
    let ghost b = source.bytes();
    proof {
        lemma_str_bytes(raw);
        lemma_ends_at_boundary(b);
    }
    let body_offset = body_start_offset(raw);
    let body = slice_str(raw, body_offset, raw.len());
    let fm_section = slice_str(raw, 0, body_offset);
    let ghost bb = body.spec_bytes();
    let body_source = PanSource::new(String::from_str(body));
    let mut parser = PanParse::new(&body_source);
    parser.parse();
    proof {
        lemma_str_bytes(body);
        crate::compiler::parse::lemma_spec_parse_ok(bb);
    }
    let ghost ns = spec_parse(bb).0;
    let mut out = String::new();
    let mut fragments_used: Vec<String> = Vec::new();
    let mut i: usize = 0;
    while i < parser.nodes.len()
        invariant
            ws.wf(),
            bb == body.spec_bytes(),
            valid_utf8(bb),
            nodes_view(parser.nodes@) == ns,
            crate::compiler::parse::nodes_ok(bb, ns, 0),
            i <= ns.len(),
            out@ == body_text(ws, bb, ns.subrange(0, i as int)),
            string_views(fragments_used@) == used_fragments(ws, ns.subrange(0, i as int)),
        decreases ns.len() - i,
    {
        proof {
            assert(ns.subrange(0, i + 1).drop_last() =~= ns.subrange(0, i as int));
            assert(ns.subrange(0, i + 1).last() == ns[i as int]);
            assert(crate::compiler::parse::node_ok(bb, ns[i as int]));
        }
        compile_node(ws, body, &parser.nodes[i], &mut out, &mut fragments_used);
        i += 1;
    }
    proof {
        assert(ns.subrange(0, ns.len() as int) =~= ns);
    }
    let full_text = crate::text::concat(fm_section, out.as_str());
    let activation_tokens = crate::tokens::count_tokens(count_tokens, full_text.as_str(), ws.tokenizer.as_str());
    let discovery = discovery_text_of(source.as_str());
    let discovery_tokens = crate::tokens::count_tokens(count_tokens, discovery.as_str(), ws.tokenizer.as_str());
    CompileOutput { text: full_text, fragments_used, activation_tokens, discovery_tokens }
}

} // verus!
