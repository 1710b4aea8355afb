//! Referential integrity checking for `.pan` source files.
//!
//! Runs before compilation in both the build and lint pipelines. Reports
//! broken fragment references, undeclared vars/env, missing ref paths, and
//! commands absent from PATH. Does not write any files.
use core::ops::Range;
use vstd::prelude::*;
use vstd::string::StringSliceAdditionalSpecFns;
use vstd::utf8::valid_utf8;

use super::compile::{body_bytes, body_start, body_start_offset};
use super::parse::{node_ok, nodes_ok, nodes_view, spec_parse, Node, NodeView, PanParse, RefKind};
use super::{line_start_before, newline_starts, PanSource};
use crate::collections::StrSet;
use crate::text::{first_word, first_word_of, lemma_ends_at_boundary, lemma_str_bytes, slice_str, trim, trim_chars};
use crate::workspace::Workspace;

verus! {

/// Severity of a check diagnostic.
#[derive(Debug, Clone, Copy, PartialEq, Eq, Structural)]
pub enum Severity {
    /// A hard error; checking fails.
    Error,
    /// A non-fatal advisory.
    Warning,
}

/// The category of referential-integrity problem a [`CheckDiag`] describes.
///
/// Callers (e.g. the lint engine) use this to attach a stable rule identifier
/// instead of pattern-matching on the human-readable message.
#[derive(Debug, Clone, Copy, PartialEq, Eq, Structural)]
pub enum CheckKind {
    /// A `{> fragment <}` include that is missing or cannot be expanded.
    Fragment,
    /// A `ref::` path that does not exist in the skill directory.
    PathRef,
    /// A `cmd::` command not found on PATH.
    Command,
    /// A `skill::` reference to an unknown skill.
    Skill,
    /// A `var::` reference not declared in `[vars]`.
    Var,
    /// An `env::` reference not declared in `[env]`.
    Env,
}

/// A diagnostic produced by [`check_source_file`].
#[derive(Debug, Clone, PartialEq, Eq)]
pub struct CheckDiag {
    /// Category of the problem.
    pub kind: CheckKind,
    /// Severity of the diagnostic.
    pub severity: Severity,
    /// Human-readable description of the problem.
    pub message: String,
    /// 1-based line in the full source file (frontmatter included).
    pub line: u32,
    /// 1-based column.
    pub col: u32,
}

/// The value of a [`CheckDiag`].
pub struct CheckDiagView {
    /// Category of the problem.
    pub kind: CheckKind,
    /// Severity of the diagnostic.
    pub severity: Severity,
    /// Description of the problem.
    pub message: Seq<char>,
    /// 1-based line.
    pub line: int,
    /// 1-based column.
    pub col: int,
}

impl View for CheckDiag {
    type V = CheckDiagView;

    open spec fn view(&self) -> CheckDiagView {
        CheckDiagView {
            kind: self.kind,
            severity: self.severity,
            message: self.message@,
            line: self.line as int,
            col: self.col as int,
        }
    }
}

/// The views of a sequence of diagnostics.
pub open spec fn diags_view(ds: Seq<CheckDiag>) -> Seq<CheckDiagView> {
    ds.map_values(|d: CheckDiag| d@)
}

/// The command a `cmd::` value names: its first word, or the whole value
/// when it has none.
pub open spec fn command_of(value: Seq<char>) -> Seq<char> {
    match first_word(value) {
        Some(w) => w,
        None => value,
    }
}

/// The diagnostics for one node starting on `line`, column `col`.
pub open spec fn node_diags(
    ws: &Workspace,
    known_files: Set<Seq<char>>,
    n: NodeView,
    line: int,
    col: int,
) -> Seq<CheckDiagView> {
    let d = |kind: CheckKind, severity: Severity, message: Seq<char>|
        CheckDiagView { kind, severity, message, line, col };
    match n {
        NodeView::Fragment { value, .. } => {
            let id = trim_chars(value);
            if ws.fragments.poisoned@.contains_key(id) {
                seq![
                    d(
                        CheckKind::Fragment,
                        Severity::Error,
                        "cannot expand fragment '"@ + id + "': "@ + ws.fragments.poisoned@[id]@,
                    ),
                ]
            } else if !ws.fragments.rendered@.contains_key(id) {
                seq![d(CheckKind::Fragment, Severity::Error, "fragment '"@ + id + "' not found"@)]
            } else {
                Seq::empty()
            }
        },
        NodeView::Ref { kind, value, .. } => match kind {
            RefKind::Reference => if known_files.len() != 0 && !known_files.contains(value) {
                seq![d(CheckKind::PathRef, Severity::Error, "ref path not found: '"@ + value + "'"@)]
            } else {
                Seq::empty()
            },
            RefKind::Cmd => {
                let cmd = command_of(value);
                if !ws.allowed_commands@.contains(cmd) && !ws.commands_on_path@.contains(cmd) {
                    seq![
                        d(
                            CheckKind::Command,
                            Severity::Warning,
                            "command '"@ + cmd + "' not found on PATH"@,
                        ),
                    ]
                } else {
                    Seq::empty()
                }
            },
            RefKind::Skill => if ws.skills@.dom().len() != 0 && !ws.skills@.contains_key(value) {
                seq![
                    d(
                        CheckKind::Skill,
                        Severity::Error,
                        "skill '"@ + value + "' not found in workspace"@,
                    ),
                ]
            } else {
                Seq::empty()
            },
            RefKind::Var => if !ws.vars@.contains_key(value) {
                seq![
                    d(CheckKind::Var, Severity::Error, "var '"@ + value + "' not declared in [vars]"@),
                ]
            } else {
                Seq::empty()
            },
            RefKind::Env => if !ws.env@.contains_key(value) {
                seq![
                    d(CheckKind::Env, Severity::Error, "env '"@ + value + "' not declared in [env]"@),
                ]
            } else {
                Seq::empty()
            },
            _ => Seq::empty(),
        },
        _ => Seq::empty(),
    }
}

/// Law: in a workspace that has at least one skill, a `skill::` ref to a
/// name that is not one of its skills gives exactly one error, of kind
/// `Skill`, naming the missing skill; a ref to one of its skills gives none.
pub proof fn lemma_skill_ref_checked(
    ws: &Workspace,
    known_files: Set<Seq<char>>,
    value: Seq<char>,
    source_range: Range<u32>,
    line: int,
    col: int,
    some_skill: Seq<char>,
)
    requires
        ws.wf(),
        ws.skills@.contains_key(some_skill),
    ensures
        ({
            let ds = node_diags(
                ws,
                known_files,
                NodeView::Ref { kind: RefKind::Skill, value, source_range },
                line,
                col,
            );
            &&& !ws.skills@.contains_key(value) ==> ds.len() == 1 && ds[0].kind is Skill
                && ds[0].severity is Error && ds[0].message == "skill '"@ + value
                + "' not found in workspace"@ && ds[0].line == line && ds[0].col == col
            &&& ws.skills@.contains_key(value) ==> ds.len() == 0
        }),
{
    ws.skills.lemma_entries();
    assert(ws.skills.key_seq().contains(some_skill));
    assert(ws.skills@.dom().len() != 0);
}

/// Law: an `env::` ref to a name that the workspace's `[env]` does not
/// declare gives exactly one error, of kind `Env`, naming it, whatever the
/// process environment holds; a declared name gives none.
pub proof fn lemma_env_ref_checked(
    ws: &Workspace,
    known_files: Set<Seq<char>>,
    value: Seq<char>,
    source_range: Range<u32>,
    line: int,
    col: int,
)
    ensures
        ({
            let ds = node_diags(
                ws,
                known_files,
                NodeView::Ref { kind: RefKind::Env, value, source_range },
                line,
                col,
            );
            &&& !ws.env@.contains_key(value) ==> ds.len() == 1 && ds[0].kind is Env
                && ds[0].severity is Error && ds[0].message == "env '"@ + value
                + "' not declared in [env]"@ && ds[0].line == line && ds[0].col == col
            &&& ws.env@.contains_key(value) ==> ds.len() == 0
        }),
{
}

/// Law: a `var::` ref gives one error of kind `Var` exactly when `[vars]`
/// does not declare its name; a `ref::` path gives one error of kind
/// `PathRef` exactly when the known files are not empty and lack it; a
/// `cmd::` ref gives one warning of kind `Command` exactly when its command
/// is neither allowed nor on the PATH; a fragment include gives one error of
/// kind `Fragment` exactly when its fragment is poisoned or not rendered.
/// Each such diagnostic stands where the node starts.
pub proof fn lemma_other_nodes_checked(
    ws: &Workspace,
    known_files: Set<Seq<char>>,
    value: Seq<char>,
    source_range: Range<u32>,
    line: int,
    col: int,
)
    ensures
        ({
            let ds = node_diags(ws, known_files, NodeView::Ref { kind: RefKind::Var, value, source_range }, line, col);
            &&& !ws.vars@.contains_key(value) ==> ds.len() == 1 && ds[0].kind is Var && ds[0].severity is Error
                && ds[0].line == line && ds[0].col == col
            &&& ws.vars@.contains_key(value) ==> ds.len() == 0
        }),
        ({
            let ds = node_diags(ws, known_files, NodeView::Ref { kind: RefKind::Reference, value, source_range }, line, col);
            &&& known_files.len() != 0 && !known_files.contains(value) ==> ds.len() == 1 && ds[0].kind is PathRef
                && ds[0].severity is Error && ds[0].line == line && ds[0].col == col
            &&& known_files.len() == 0 || known_files.contains(value) ==> ds.len() == 0
        }),
        ({
            let ds = node_diags(ws, known_files, NodeView::Ref { kind: RefKind::Cmd, value, source_range }, line, col);
            let cmd = command_of(value);
            &&& !ws.allowed_commands@.contains(cmd) && !ws.commands_on_path@.contains(cmd) ==> ds.len() == 1
                && ds[0].kind is Command && ds[0].severity is Warning && ds[0].line == line && ds[0].col == col
            &&& ws.allowed_commands@.contains(cmd) || ws.commands_on_path@.contains(cmd) ==> ds.len() == 0
        }),
        ({
            let ds = node_diags(ws, known_files, NodeView::Fragment { value, source_range }, line, col);
            let id = trim_chars(value);
            &&& ws.fragments.poisoned@.contains_key(id) || !ws.fragments.rendered@.contains_key(id) ==> ds.len()
                == 1 && ds[0].kind is Fragment && ds[0].severity is Error && ds[0].line == line && ds[0].col == col
            &&& !ws.fragments.poisoned@.contains_key(id) && ws.fragments.rendered@.contains_key(id) ==> ds.len() == 0
        }),
        node_diags(ws, known_files, NodeView::Body { source_range }, line, col).len() == 0,
        node_diags(ws, known_files, NodeView::EscapedBody { source_range }, line, col).len() == 0,
        node_diags(ws, known_files, NodeView::RefSuspect { source_range }, line, col).len() == 0,
{
}

/// The line, in the whole source `b`, on which byte `start` of its body lies.
pub open spec fn source_line(b: Seq<u8>, start: int) -> int {
    let body = body_bytes(b);
    (newline_starts(b, body_start(b)).len() + 1 + newline_starts(
        body,
        if start <= body.len() { start } else { body.len() as int },
    ).len()) as int
}

/// The column of byte `start` of the body of `b`.
pub open spec fn source_col(b: Seq<u8>, start: int) -> int {
    let body = body_bytes(b);
    start - line_start_before(body, if start <= body.len() { start } else { body.len() as int }) + 1
}

/// The diagnostics for the nodes `ns` of the body of `b`, in order.
pub open spec fn nodes_diags(
    ws: &Workspace,
    known_files: Set<Seq<char>>,
    b: Seq<u8>,
    ns: Seq<NodeView>,
) -> Seq<CheckDiagView>
    decreases ns.len(),
{
    if ns.len() == 0 {
        Seq::empty()
    } else {
        let n = ns.last();
        nodes_diags(ws, known_files, b, ns.drop_last()) + node_diags(
            ws,
            known_files,
            n,
            source_line(b, n.range().start as int),
            source_col(b, n.range().start as int),
        )
    }
}

/// The diagnostics of the source whose bytes are `b`.
pub open spec fn spec_check(ws: &Workspace, known_files: Set<Seq<char>>, b: Seq<u8>) -> Seq<
    CheckDiagView,
> {
    nodes_diags(ws, known_files, b, spec_parse(body_bytes(b)).0)
}

/// Counts the newlines among the first `n` bytes of `s`.
fn count_newlines(s: &str, n: usize) -> (r: u32)
    requires
        n <= s.spec_bytes().len() < u32::MAX,
    ensures
        r == newline_starts(s.spec_bytes(), n as int).len(),
{
    let b = s.as_bytes();
    let mut count: u32 = 0;
    let mut i: usize = 0;
    while i < n
        invariant
            b@ == s.spec_bytes(),
            n <= b@.len() < u32::MAX,
            i <= n,
            count == newline_starts(b@, i as int).len(),
            count <= i,
        decreases n - i,
    {
        if b[i] == 10u8 {
            count += 1;
        }
        i += 1;
    }
    count
}

/// Newline counts never exceed the number of bytes counted.
pub proof fn lemma_newline_count_bound(b: Seq<u8>, n: int)
    requires
        0 <= n <= b.len(),
    ensures
        newline_starts(b, n).len() <= n,
    decreases n,
{
    if n > 0 {
        lemma_newline_count_bound(b, n - 1);
    }
}

fn push_diag(diags: &mut Vec<CheckDiag>, kind: CheckKind, severity: Severity, message: String, line: u32, col: u32)
    ensures
        diags_view(final(diags)@) == diags_view(old(diags)@).push(
            CheckDiagView { kind, severity, message: message@, line: line as int, col: col as int },
        ),
{
    let ghost before = diags@;
    diags.push(CheckDiag { kind, severity, message, line, col });
    proof {
        assert(diags_view(diags@) =~= diags_view(before).push(
            CheckDiagView { kind, severity, message: message@, line: line as int, col: col as int },
        ));
    }
}

fn check_node(
    ws: &Workspace,
    known_files: &StrSet,
    node: &Node,
    line: u32,
    col: u32,
    diags: &mut Vec<CheckDiag>,
)
    requires
        ws.wf(),
        known_files.wf(),
    ensures
        diags_view(final(diags)@) == diags_view(old(diags)@) + node_diags(
            ws,
            known_files@,
            node@,
            line as int,
            col as int,
        ),
{
    let ghost before = diags_view(diags@);
    proof {
        ws.skills.lemma_entries();
    }
    match node {
        Node::Fragment { value, .. } => {
            let id = trim(value.as_str());
            match ws.fragments.poisoned.get(id) {
                Some(reason) => {
                    let mut msg = String::from_str("cannot expand fragment '");
                    msg.append(id);
                    msg.append("': ");
                    msg.append(reason.as_str());
                    push_diag(diags, CheckKind::Fragment, Severity::Error, msg, line, col);
                },
                None => {
                    if !ws.fragments.rendered.contains_key(id) {
                        let msg = crate::text::concat3("fragment '", id, "' not found");
                        push_diag(diags, CheckKind::Fragment, Severity::Error, msg, line, col);
                    }
                },
            }
        },
        Node::Ref { kind, value, .. } => {
            let v = value.as_str();
            match kind {
                RefKind::Reference => {
                    if !known_files.is_empty() && !known_files.contains(v) {
                        let msg = crate::text::concat3("ref path not found: '", v, "'");
                        push_diag(diags, CheckKind::PathRef, Severity::Error, msg, line, col);
                    }
                },
                RefKind::Cmd => {
                    let cmd = match first_word_of(v) {
                        Some(w) => w,
                        None => v,
                    };
                    if !ws.allowed_commands.contains(cmd) && !ws.commands_on_path.contains(cmd) {
                        let msg = crate::text::concat3("command '", cmd, "' not found on PATH");
                        push_diag(diags, CheckKind::Command, Severity::Warning, msg, line, col);
                    }
                },
                RefKind::Skill => {
                    if !ws.skills.is_empty() && !ws.skills.contains_key(v) {
                        let msg = crate::text::concat3("skill '", v, "' not found in workspace");
                        push_diag(diags, CheckKind::Skill, Severity::Error, msg, line, col);
                    }
                },
                RefKind::Var => {
                    if !ws.vars.contains_key(v) {
                        let msg = crate::text::concat3("var '", v, "' not declared in [vars]");
                        push_diag(diags, CheckKind::Var, Severity::Error, msg, line, col);
                    }
                },
                RefKind::Env => {
                    if !ws.env.contains_key(v) {
                        let msg = crate::text::concat3("env '", v, "' not declared in [env]");
                        push_diag(diags, CheckKind::Env, Severity::Error, msg, line, col);
                    }
                },
                _ => {},
            }
        },
        _ => {},
    }
    proof {
        assert(diags_view(diags@) =~= before + node_diags(ws, known_files@, node@, line as int, col as int));
    }
}

/// Checks referential integrity of a single `.pan` source file.
///
/// `known_files` is the set of relative paths under the artefact's source
/// directory used to validate `ref::` targets. Pass an empty set to skip
/// that check (e.g. for agents). A command is found when it is allowed by
/// the configuration or was found on `PATH` when the workspace was resolved.
pub fn check_source_file(ws: &Workspace, source: &PanSource, known_files: &StrSet) -> (r: Vec<CheckDiag>)
    requires
        ws.wf(),
        source.wf(),
        known_files.wf(),
    ensures
        diags_view(r@) == spec_check(ws, known_files@, source.bytes()),
{
    let raw = source.as_str();
    let ghost b = source.bytes();
    proof {
        lemma_str_bytes(raw);
        lemma_ends_at_boundary(b);
    }
    let body_offset = body_start_offset(raw);
    let body = slice_str(raw, body_offset, raw.len());
    let fm_line_offset = count_newlines(raw, body_offset);
    let ghost bb = body.spec_bytes();
    let body_source = PanSource::new(String::from_str(body));
    let mut parser = PanParse::new(&body_source);
    parser.parse();
    proof {
        lemma_str_bytes(body);
        crate::compiler::parse::lemma_spec_parse_ok(bb);
        lemma_newline_count_bound(b, body_offset as int);
    }
    let ghost ns = spec_parse(bb).0;
    let mut diags: Vec<CheckDiag> = Vec::new();
    let mut i: usize = 0;
    while i < parser.nodes.len()
        invariant
            ws.wf(),
            known_files.wf(),
            source.wf(),
            b == source.bytes(),
            bb == body.spec_bytes(),
            bb == body_bytes(b),
            body_source.wf(),
            body_source.bytes() == bb,
            fm_line_offset == newline_starts(b, body_start(b)).len(),
            fm_line_offset <= body_start(b),
            0 <= body_start(b) <= b.len(),
            valid_utf8(bb),
            nodes_view(parser.nodes@) == ns,
            nodes_ok(bb, ns, 0),
            i <= ns.len(),
            diags_view(diags@) == nodes_diags(ws, known_files@, b, ns.subrange(0, i as int)),
        decreases ns.len() - i,
    {
        proof {
            assert(ns.subrange(0, i + 1).drop_last() =~= ns.subrange(0, i as int));
            assert(ns.subrange(0, i + 1).last() == ns[i as int]);
            assert(node_ok(bb, ns[i as int]));
            lemma_newline_count_bound(bb, ns[i as int].range().start as int);
        }
        let start = match &parser.nodes[i] {
            Node::Ref { source_range, .. } => source_range.start,
            Node::Fragment { source_range, .. } => source_range.start,
            Node::RefSuspect { source_range } => source_range.start,
            Node::EscapedBody { source_range } => source_range.start,
            Node::Body { source_range } => source_range.start,
        };
        proof {
            let st = ns[i as int].range().start as int;
            super::lemma_last_start(bb, st);
            assert(bb.len() + body_start(b) == b.len());
            assert(b.len() < u32::MAX);
        }
        let loc = body_source.location_at(start);
        let line = loc.line + fm_line_offset;
        check_node(ws, known_files, &parser.nodes[i], line, loc.column, &mut diags);
        i += 1;
    }
    proof {
        assert(ns.subrange(0, ns.len() as int) =~= ns);
    }
    diags
}

} // verus!
