//! Compilation pipeline: `.pan` sources → `SKILL.md` output text.
//!
//! This module is pure — it accepts pre-loaded content and returns compiled
//! text without reading or writing files.
use vstd::prelude::*;
use vstd::string::StringSliceAdditionalSpecFns;
use vstd::utf8::{decode_utf8, encode_utf8, valid_utf8};

use crate::collections::{first_uses, lemma_first_uses_empty, lemma_first_uses_push, string_views, StrMap, StrSet};
use crate::config::EnvVar;
use crate::lockfile::SkillRefs;
use crate::parse::{gray_matter_parse, read_matter, strip_bom, without_bom, FrontData, FrontDataView};
use crate::patterns::{find_captures, regex_captures, Captures, CapturesView};
use crate::refs::{
    extract_markdown_links, extract_path_refs, link_views, spec_links, spec_path_refs, spec_typed_refs,
    typed_ok, typed_refs, typed_views, MarkdownLinkView, RefKind, TypedRefView,
};
use crate::text::{
    at_boundary, concat, concat3, str_eq, decimal, first_word, first_word_of, join_newline, join_newlines, lemma_after_ascii,
    lemma_ends_at_boundary, lemma_str_bytes, line_offset_by, lines, slice_str, split_newline, split_newlines, str_views,
    split_newline_bytes, text_lines_bytes, to_decimal, wrapping_line,
};

use crate::compiler::compile::{discovery_text, discovery_text_of};
use crate::tokens::{count_tokens as count_tokens_with, counted};

pub use crate::hashing::hash_bytes;

verus! {

// ── Public types ──────────────────────────────────────────────────────────────

/// A named skill source unit — the content of a `.pan` file.
#[derive(Debug, Clone)]
pub struct SourceUnit {
    /// Skill name (must match the `name` field in frontmatter).
    pub name: String,
    /// Display path for diagnostics (e.g. `"src/skills/foo/foo.pan"`).
    pub path: String,
    /// Raw source file content.
    pub content: String,
}

/// Context required to compile a single skill.
pub struct CompileContext {
    /// The skill source to compile.
    pub source: SourceUnit,
    /// Loaded fragment content keyed by fragment name (without `.fragment.pan`).
    pub fragments: StrMap<String>,
    /// Relative file paths that exist in the skill directory (for `ref::` validation).
    /// Pass an empty set to skip file-existence checks.
    pub known_files: StrSet,
    /// Commands known to be available on `PATH` (for `cmd::` validation).
    /// Pass an empty set to skip command-existence checks.
    pub known_commands: StrSet,
    /// Skill names present in the workspace (for `skill::` validation).
    /// Pass an empty set to skip skill-existence checks.
    pub known_skills: StrSet,
    /// Template variable substitutions declared in `[vars]`.
    pub vars: StrMap<String>,
    /// Environment variable declarations from `[env]`.
    pub env: StrMap<EnvVar>,
    /// The process environment, as name → value, for `env::` refs.
    pub process_env: StrMap<String>,
    /// Tokenizer model (e.g. `"cl100k_base"`).
    pub tokenizer: String,
}

impl CompileContext {
    /// The maps and sets of the context are well formed.
    pub open spec fn wf(&self) -> bool {
        &&& self.fragments.wf()
        &&& self.known_files.wf()
        &&& self.known_commands.wf()
        &&& self.known_skills.wf()
        &&& self.vars.wf()
        &&& self.env.wf()
        &&& self.process_env.wf()
    }
}

/// Result of compiling a single skill.
#[derive(Debug)]
pub struct CompileResult {
    /// Compiled `SKILL.md` content.
    pub output: String,
    /// Fragment names inlined during compilation.
    pub fragments_used: Vec<String>,
    /// Structured ref inventory collected from compiled output.
    pub refs: SkillRefs,
    /// Token count for name + description (discovery cost).
    pub discovery_tokens: u32,
    /// Token count for the full compiled output (activation cost).
    pub activation_tokens: u32,
    /// Relative paths from `ref::` directives (for computing transitive tokens).
    pub ref_paths: Vec<String>,
    /// Warnings for `cmd::` refs whose commands were not in `known_commands`.
    pub cmd_warnings: Vec<BuildDiagnostic>,
}

// ── Diagnostics ───────────────────────────────────────────────────────────────

/// Build diagnostic severity.
#[derive(Debug, Clone, Copy, PartialEq, Eq, Structural)]
pub enum BuildSeverity {
    /// Non-fatal warning.
    Warning,
    /// Fatal validation error.
    Error,
}

/// A single build-time diagnostic.
#[derive(Debug, Clone)]
pub struct BuildDiagnostic {
    /// Severity of the diagnostic.
    pub severity: BuildSeverity,
    /// Skill name this applies to.
    pub skill: String,
    /// Description of the problem.
    pub message: String,
    /// File path where the issue was found (display string).
    pub path: String,
    /// 1-based line number where the issue was found.
    pub line: u32,
    /// 1-based column number where the issue was found.
    pub col: u32,
}

/// The value of a [`BuildDiagnostic`].
pub struct BuildDiagnosticView {
    /// Severity of the diagnostic.
    pub severity: BuildSeverity,
    /// Skill name.
    pub skill: Seq<char>,
    /// Description of the problem.
    pub message: Seq<char>,
    /// File path.
    pub path: Seq<char>,
    /// Line number.
    pub line: u32,
    /// Column number.
    pub col: u32,
}

impl View for BuildDiagnostic {
    type V = BuildDiagnosticView;

    open spec fn view(&self) -> BuildDiagnosticView {
        BuildDiagnosticView {
            severity: self.severity,
            skill: self.skill@,
            message: self.message@,
            path: self.path@,
            line: self.line,
            col: self.col,
        }
    }
}

/// The views of a sequence of diagnostics.
pub open spec fn build_views(ds: Seq<BuildDiagnostic>) -> Seq<BuildDiagnosticView> {
    ds.map_values(|d: BuildDiagnostic| d@)
}

/// The tag of a severity.
pub open spec fn severity_tag(s: BuildSeverity) -> Seq<char> {
    match s {
        BuildSeverity::Warning => "warning"@,
        BuildSeverity::Error => "error"@,
    }
}

/// The one-line text of a diagnostic: `[{tag}] {skill} {message} ({path}:{line}:{col})`.
pub open spec fn diagnostic_text(d: BuildDiagnosticView) -> Seq<char> {
    "["@ + severity_tag(d.severity) + "] "@ + d.skill + " "@ + d.message + " ("@ + d.path + ":"@
        + decimal(d.line as nat) + ":"@ + decimal(d.col as nat) + ")"@
}

impl BuildDiagnostic {
    /// A diagnostic with the given fields.
    pub fn new(severity: BuildSeverity, skill: &str, message: String, path: &str, line: u32, col: u32) -> (r: Self)
        ensures
            r@ == (BuildDiagnosticView { severity, skill: skill@, message: message@, path: path@, line, col }),
    {
        BuildDiagnostic {
            severity,
            skill: String::from_str(skill),
            message,
            path: String::from_str(path),
            line,
            col,
        }
    }

    /// Renders this diagnostic as a plain-text one-liner (no ANSI colours).
    pub fn render_text(&self) -> (r: String)
        ensures
            r@ == diagnostic_text(self@),
    {
        let tag = match self.severity {
            BuildSeverity::Warning => "warning",
            BuildSeverity::Error => "error",
        };
        let mut out = String::from_str("[");
        out.append(tag);
        out.append("] ");
        out.append(self.skill.as_str());
        out.append(" ");
        out.append(self.message.as_str());
        out.append(" (");
        out.append(self.path.as_str());
        out.append(":");
        let line = to_decimal(self.line as u64);
        out.append(line.as_str());
        out.append(":");
        let col = to_decimal(self.col as u64);
        out.append(col.as_str());
        out.append(")");
        out
    }
}

/// Build failure containing one or more diagnostics.
#[derive(Debug)]
pub struct BuildFailure {
    /// The diagnostics that caused the build to fail.
    pub diagnostics: Vec<BuildDiagnostic>,
}

/// The texts of the diagnostics `ds`, one per line.
pub open spec fn failure_text(ds: Seq<BuildDiagnosticView>) -> Seq<char> {
    join_newline(ds.map_values(|d: BuildDiagnosticView| diagnostic_text(d)))
}

impl BuildFailure {
    /// A failure made of the given diagnostics.
    pub fn new(diagnostics: Vec<BuildDiagnostic>) -> (r: Self)
        ensures
            r.diagnostics == diagnostics,
    {
        Self { diagnostics }
    }

    /// Renders all diagnostics as plain-text, one per line.
    pub fn render_text(&self) -> (r: String)
        ensures
            r@ == failure_text(build_views(self.diagnostics@)),
    {
        let mut texts: Vec<String> = Vec::new();
        let mut i: usize = 0;
        while i < self.diagnostics.len()
            invariant
                i <= self.diagnostics@.len(),
                string_views(texts@) == build_views(self.diagnostics@).subrange(0, i as int).map_values(
                    |d: BuildDiagnosticView| diagnostic_text(d),
                ),
            decreases self.diagnostics@.len() - i,
        {
            let ghost before = texts@;
            let t = self.diagnostics[i].render_text();
            texts.push(t);
            proof {
                assert(string_views(texts@) =~= string_views(before).push(t@));
                assert(build_views(self.diagnostics@).subrange(0, i + 1) =~= build_views(
                    self.diagnostics@,
                ).subrange(0, i as int).push(self.diagnostics@[i as int]@));
                assert(string_views(texts@) =~= build_views(self.diagnostics@).subrange(0, i + 1).map_values(
                    |d: BuildDiagnosticView| diagnostic_text(d),
                ));
            }
            i += 1;
        }
        proof {
            assert(build_views(self.diagnostics@).subrange(0, self.diagnostics@.len() as int) =~= build_views(
                self.diagnostics@,
            ));
        }
        join_newlines(&texts)
    }
}

/// Why compiling a skill failed.
#[derive(Debug)]
pub enum CompileError {
    /// The source could not be compiled; the message says why.
    Message(String),
    /// Ref directives could not be resolved.
    Failure(BuildFailure),
}

/// The text of a compile error.
pub open spec fn error_text(e: &CompileError) -> Seq<char> {
    match e {
        CompileError::Message(m) => m@,
        CompileError::Failure(f) => failure_text(build_views(f.diagnostics@)),
    }
}

impl CompileError {
    /// The error as text: the message, or the failure's diagnostics one per line.
    pub fn to_string(&self) -> (r: String)
        ensures
            r@ == error_text(self),
    {
        match self {
            CompileError::Message(m) => m.clone(),
            CompileError::Failure(f) => f.render_text(),
        }
    }
}

/// Renders the minimal `.pan` scaffold for a skill named `name`.
pub fn scaffold_content(name: &str) -> (r: String)
    ensures
        r@ == "---\nname: "@ + name@ + "\ndescription: \"TODO: describe this skill\"\n---\n\n# "@ + name@
            + "\n"@,
{
    let mut out = String::from_str("---\nname: ");
    out.append(name);
    out.append("\ndescription: \"TODO: describe this skill\"\n---\n\n# ");
    out.append(name);
    out.append("\n");
    out
}

// ── Front matter and body ─────────────────────────────────────────────────────

/// `x` without trailing `\r` and `\n` bytes.
pub open spec fn trim_crlf(x: Seq<u8>) -> Seq<u8>
    decreases x.len(),
{
    if x.len() > 0 && (x.last() == 13u8 || x.last() == 10u8) {
        trim_crlf(x.drop_last())
    } else {
        x
    }
}

/// The offset just past the line of `b` that starts at `i`.
pub open spec fn line_end(b: Seq<u8>, i: int) -> int {
    match crate::text::find_from(b, seq![10u8], i) {
        Some(j) => j + 1,
        None => b.len() as int,
    }
}

/// The offset just past the first line after the first one, from the line
/// starting at `i` (numbered `line_no`) on, that reads `---` once its line
/// ending is removed; 0 when there is none.
pub open spec fn body_offset_from(b: Seq<u8>, i: int, line_no: int) -> int
    decreases b.len() - i,
{
    if i < 0 || i >= b.len() {
        0
    } else {
        let j = line_end(b, i);
        if j <= i || j > b.len() {
            0
        } else if line_no + 1 > 1 && trim_crlf(b.subrange(i, j)) == seq![45u8, 45, 45] {
            j
        } else {
            body_offset_from(b, j, line_no + 1)
        }
    }
}

fn is_dash_line(b: &[u8], i: usize, j: usize) -> (r: bool)
    requires
        i <= j <= b@.len(),
    ensures
        r == (trim_crlf(b@.subrange(i as int, j as int)) == seq![45u8, 45, 45]),
{
    let mut k = j;
    while k > i && (b[k - 1] == 13u8 || b[k - 1] == 10u8)
        invariant
            i <= k <= j <= b@.len(),
            trim_crlf(b@.subrange(i as int, j as int)) == trim_crlf(b@.subrange(i as int, k as int)),
        decreases k - i,
    {
        proof {
            assert(b@.subrange(i as int, k as int).drop_last() =~= b@.subrange(i as int, k - 1));
        }
        k -= 1;
    }
    proof {
        let x = b@.subrange(i as int, k as int);
        if k > i {
            assert(x.last() == b@[k - 1]);
        }
    }
    if k - i != 3 {
        proof {
            let x = b@.subrange(i as int, k as int);
            assert(trim_crlf(x) == x);
        }
        return false;
    }
    let r = b[i] == 45u8 && b[i + 1] == 45u8 && b[i + 2] == 45u8;
    proof {
        let x = b@.subrange(i as int, k as int);
        assert(trim_crlf(x) == x);
        if r {
            assert(x =~= seq![45u8, 45, 45]);
        } else {
            assert(x[0] == b@[i as int]);
            assert(x[1] == b@[i + 1]);
            assert(x[2] == b@[i + 2]);
        }
    }
    r
}

/// Returns the offset just past the closing `---` line of a front matter, or 0.
fn find_body_offset(source: &str) -> (r: usize)
    ensures
        r == body_offset_from(source.spec_bytes(), 0, 0),
{
    let b = source.as_bytes();
    let len = b.len();
    let nl: [u8; 1] = [10];
    let mut offset: usize = 0;
    let mut line_no: usize = 0;
    while offset < len
        invariant
            nl@ == seq![10u8],
            b@ == source.spec_bytes(),
            len == b@.len(),
            offset <= len,
            line_no <= offset,
            body_offset_from(b@, offset as int, line_no as int) == body_offset_from(b@, 0, 0),
        decreases len - offset,
    {
        proof {
            crate::text::lemma_find_from_at(b@, seq![10u8], offset as int);
        }
        let next = match crate::text::find_bytes(b, nl.as_slice(), offset) {
            Some(j) => j + 1,
            None => len,
        };
        line_no += 1;
        if line_no > 1 && is_dash_line(b, offset, next) {
            return next;
        }
        offset = next;
    }
    0
}

/// The 1-based line on which the body `body` of `source` starts: where it is
/// found after the front matter, else where the front matter ends.
pub open spec fn body_start_line(sb: Seq<u8>, bb: Seq<u8>) -> u32 {
    let body_offset = body_offset_from(sb, 0, 0);
    let content_offset = if bb.len() == 0 {
        body_offset
    } else {
        match crate::text::find_from(sb, bb, body_offset) {
            Some(o) => o,
            None => body_offset,
        }
    };
    (crate::compiler::newline_starts(sb, content_offset).len() + 1) as u32
}

fn find_body_start_line(source: &str, body: &str) -> (r: u32)
    ensures
        r == body_start_line(source.spec_bytes(), body.spec_bytes()),
{
    let sb = source.as_bytes();
    let bb = body.as_bytes();
    let body_offset = find_body_offset(source);
    proof {
        crate::text::lemma_find_from_at(sb@, bb@, body_offset as int);
    }
    let content_offset = if bb.len() == 0 {
        body_offset
    } else {
        match crate::text::find_bytes(sb, bb, body_offset) {
            Some(o) => o,
            None => body_offset,
        }
    };
    proof {
        lemma_body_offset_bound(sb@, 0, 0);
    }
    let count = count_newlines_before(sb, content_offset);
    crate::text::succ_u32(count)
}

/// The body offset lies inside the text.
proof fn lemma_body_offset_bound(b: Seq<u8>, i: int, line_no: int)
    ensures
        0 <= body_offset_from(b, i, line_no) <= b.len(),
    decreases b.len() - i,
{
    if 0 <= i < b.len() {
        let j = line_end(b, i);
        if i < j <= b.len() {
            lemma_body_offset_bound(b, j, line_no + 1);
        }
    }
}

fn count_newlines_before(b: &[u8], n: usize) -> (r: usize)
    requires
        n <= b@.len(),
    ensures
        r == crate::compiler::newline_starts(b@, n as int).len(),
{
    let mut count: usize = 0;
    let mut i: usize = 0;
    while i < n
        invariant
            n <= b@.len(),
            i <= n,
            count == crate::compiler::newline_starts(b@, i as int).len(),
            count <= i,
        decreases n - i,
    {
        if b[i] == 10u8 {
            count += 1;
        }
        i += 1;
    }
    count
}

/// What [`parse_source`] gives for `source`: the raw front matter, the
/// `name` field, the body and the line on which the body starts; or the
/// message of the error.
pub open spec fn spec_parse_source(source: Seq<char>) -> Result<(Seq<char>, Seq<char>, Seq<char>, u32), Seq<char>> {
    let s = without_bom(source);
    match gray_matter_parse(s) {
        Err(_) => Err("failed to parse skill source"@),
        Ok(p) => match p.data {
            None => Err("source has no YAML frontmatter"@),
            Some(FrontDataView::Mapping { name: Ok(Some(n)), .. }) => Ok(
                (p.matter, n, p.content, body_start_line(encode_utf8(s), encode_utf8(p.content))),
            ),
            Some(_) => Err("failed to parse skill source"@),
        },
    }
}

/// Parses a `.pan` source, returning `(frontmatter_str, name, body, body_start_line)`.
pub fn parse_source(source: &str) -> (r: Result<(String, String, String, u32), String>)
    ensures
        r matches Ok(v) ==> spec_parse_source(source@) matches Ok(w) && w == (v.0@, v.1@, v.2@, v.3),
        r matches Err(e) ==> spec_parse_source(source@) matches Err(m) && m == e@,
{
    let source = strip_bom(source);
    match read_matter(source) {
        Err(_) => Err(String::from_str("failed to parse skill source")),
        Ok(parts) => match parts.data {
            None => Err(String::from_str("source has no YAML frontmatter")),
            Some(FrontData::Mapping { name: Ok(Some(n)), .. }) => {
                let line = find_body_start_line(source, parts.content.as_str());
                Ok((parts.matter, n, parts.content, line))
            },
            Some(_) => Err(String::from_str("failed to parse skill source")),
        },
    }
}

// ── Fragment includes ─────────────────────────────────────────────────────────

/// The pattern of a `{{> fragment-name }}` include line.
pub open spec fn include_pattern() -> Seq<char> {
    "^\\{\\{>\\s*([\\w-]+)\\s*\\}\\}\\s*$"@
}

/// The fragment name that `line` includes, if it is an include line.
pub open spec fn include_name(line: Seq<char>) -> Option<Seq<char>> {
    match regex_captures(include_pattern(), line) {
        Some(ms) => if ms.len() > 0 && ms[0].len() > 1 && ms[0][1] is Some {
            Some(ms[0][1]->0.text)
        } else {
            None
        },
        None => None,
    }
}

/// `line` holds an include.
pub open spec fn is_include(line: Seq<char>) -> bool {
    match regex_captures(include_pattern(), line) {
        Some(ms) => ms.len() > 0,
        None => false,
    }
}

/// The index of the first include line among `ls`.
pub open spec fn first_include(ls: Seq<Seq<char>>) -> Option<int>
    decreases ls.len(),
{
    if ls.len() == 0 {
        None
    } else {
        match first_include(ls.drop_last()) {
            Some(k) => Some(k),
            None => if is_include(ls.last()) {
                Some(ls.len() - 1)
            } else {
                None
            },
        }
    }
}

/// What one line of a body becomes, with the fragments used so far.
pub open spec fn include_step(
    line: Seq<char>,
    frags: Map<Seq<char>, String>,
    used: Seq<Seq<char>>,
) -> Result<(Seq<char>, Seq<Seq<char>>), Seq<char>> {
    match include_name(line) {
        None => Ok((line, used)),
        Some(name) => if !frags.contains_key(name) {
            Err("fragment '"@ + name + "' not found"@)
        } else {
            let content = frags[name]@;
            match first_include(text_lines_bytes(encode_utf8(content))) {
                Some(k) => Err(
                    "fragment '"@ + name + "' contains a nested fragment include on line "@ + decimal(
                        (k + 1) as nat,
                    ) + " — nesting is not supported (keep includes flat)"@,
                ),
                None => Ok(
                    (
                        crate::compiler::compile::strip_trailing_newlines(content),
                        if used.contains(name) {
                            used
                        } else {
                            used.push(name)
                        },
                    ),
                ),
            }
        },
    }
}

/// What the lines `ls` become, with the fragments they use; the first line
/// that fails decides the error.
pub open spec fn include_lines(ls: Seq<Seq<char>>, frags: Map<Seq<char>, String>) -> Result<
    (Seq<Seq<char>>, Seq<Seq<char>>),
    Seq<char>,
>
    decreases ls.len(),
{
    if ls.len() == 0 {
        Ok((Seq::empty(), Seq::empty()))
    } else {
        match include_lines(ls.drop_last(), frags) {
            Err(e) => Err(e),
            Ok((out, used)) => match include_step(ls.last(), frags, used) {
                Err(e) => Err(e),
                Ok((l, u)) => Ok((out.push(l), u)),
            },
        }
    }
}

/// The fragment names that the include lines among `ls` name, in order and
/// with repeats.
pub open spec fn include_names(ls: Seq<Seq<char>>) -> Seq<Seq<char>>
    decreases ls.len(),
{
    if ls.len() == 0 {
        Seq::empty()
    } else {
        let prev = include_names(ls.drop_last());
        match include_name(ls.last()) {
            Some(name) => prev.push(name),
            None => prev,
        }
    }
}

/// The fragments that expanding the lines `ls` uses are the names that its
/// include lines name, once each in order of first use, and each is a known
/// fragment.
pub proof fn lemma_include_lines_used(ls: Seq<Seq<char>>, frags: Map<Seq<char>, String>)
    ensures
        include_lines(ls, frags) matches Ok((out, used)) ==> first_uses(used, include_names(ls))
            && forall|i: int| 0 <= i < used.len() ==> frags.contains_key(#[trigger] used[i]),
    decreases ls.len(),
{
    if ls.len() == 0 {
        lemma_first_uses_empty::<Seq<char>>();
    } else {
        lemma_include_lines_used(ls.drop_last(), frags);
        if let Ok((out, used)) = include_lines(ls.drop_last(), frags) {
            if let Some(name) = include_name(ls.last()) {
                lemma_first_uses_push(used, include_names(ls.drop_last()), name);
                if frags.contains_key(name) && !used.contains(name) {
                    assert forall|i: int| 0 <= i < used.push(name).len() implies frags.contains_key(
                        #[trigger] used.push(name)[i],
                    ) by {
                        if i < used.len() {
                            assert(used.push(name)[i] == used[i]);
                        }
                    }
                }
            }
        }
    }
}

/// Law: the fragments that a body uses are the ones its include lines name,
/// listed once each in order of first use, and each is one of the given
/// fragments.
pub proof fn lemma_fragments_used_distinct(body: Seq<char>, frags: Map<Seq<char>, String>)
    ensures
        spec_process_fragments(body, frags) matches Ok((text, used)) ==> first_uses(
            used,
            include_names(split_newline_bytes(encode_utf8(body))),
        ) && used.no_duplicates() && forall|i: int|
            0 <= i < used.len() ==> frags.contains_key(#[trigger] used[i]),
{
    lemma_include_lines_used(split_newline_bytes(encode_utf8(body)), frags);
}

/// What [`process_fragments`] gives for a body: the expanded body and the
/// fragments used, or the error message.
pub open spec fn spec_process_fragments(body: Seq<char>, frags: Map<Seq<char>, String>) -> Result<
    (Seq<char>, Seq<Seq<char>>),
    Seq<char>,
> {
    match include_lines(split_newline_bytes(encode_utf8(body)), frags) {
        Err(e) => Err(e),
        Ok((out, used)) => Ok((join_newline(out), used)),
    }
}

/// The fragment name that `line` includes, if it is an include line.
fn fragment_include(line: &str) -> (r: Option<String>)
    ensures
        r matches Some(n) ==> include_name(line@) == Some(n@),
        r is None ==> include_name(line@) is None,
{
    match find_captures("^\\{\\{>\\s*([\\w-]+)\\s*\\}\\}\\s*$", line) {
        Some(caps) => {
            let ghost ms = crate::patterns::captures_view(caps@);
            if caps.len() > 0 && caps[0].groups.len() > 1 {
                proof {
                    assert(ms[0] == caps@[0]@);
                }
                match &caps[0].groups[1] {
                    Some(g) => Some(g.text.clone()),
                    None => None,
                }
            } else {
                proof {
                    if caps@.len() > 0 {
                        assert(ms[0] == caps@[0]@);
                    }
                }
                None
            }
        },
        None => None,
    }
}

/// Whether `line` holds an include.
fn has_include(line: &str) -> (r: bool)
    ensures
        r == is_include(line@),
{
    match find_captures("^\\{\\{>\\s*([\\w-]+)\\s*\\}\\}\\s*$", line) {
        Some(caps) => caps.len() > 0,
        None => false,
    }
}

/// The index of the first include line of `text`.
fn find_include_line(text: &str) -> (r: Option<usize>)
    ensures
        r matches Some(k) ==> k < usize::MAX,
        r matches Some(k) ==> first_include(crate::text::text_lines(text)) == Some(k as int),
        r is None ==> first_include(crate::text::text_lines(text)) is None,
{
    let ls = lines(text);
    let ghost v = str_views(ls@);
    let mut i: usize = 0;
    while i < ls.len()
        invariant
            v == str_views(ls@),
            v == crate::text::text_lines(text),
            i <= v.len(),
            first_include(v.subrange(0, i as int)) is None,
        decreases v.len() - i,
    {
        proof {
            assert(v.subrange(0, i + 1).drop_last() =~= v.subrange(0, i as int));
            assert(v.subrange(0, i + 1).last() == ls@[i as int]@);
        }
        if has_include(ls[i]) {
            proof {
                lemma_first_include_prefix(v, (i + 1) as int);
            }
            return Some(i);
        }
        i += 1;
    }
    proof {
        assert(v.subrange(0, v.len() as int) =~= v);
    }
    None
}

/// The first include of a sequence is the first include of any prefix that holds one.
proof fn lemma_first_include_prefix(ls: Seq<Seq<char>>, n: int)
    requires
        0 <= n <= ls.len(),
        first_include(ls.subrange(0, n)) is Some,
    ensures
        first_include(ls) == first_include(ls.subrange(0, n)),
    decreases ls.len() - n,
{
    if n < ls.len() {
        assert(ls.subrange(0, n + 1).drop_last() =~= ls.subrange(0, n));
        lemma_first_include_prefix(ls, n + 1);
    } else {
        assert(ls.subrange(0, n) =~= ls);
    }
}

/// Once a prefix of the lines fails, the whole sequence fails the same way.
proof fn lemma_include_err_prefix(ls: Seq<Seq<char>>, n: int, frags: Map<Seq<char>, String>)
    requires
        0 <= n <= ls.len(),
        include_lines(ls.subrange(0, n), frags) is Err,
    ensures
        include_lines(ls, frags) == include_lines(ls.subrange(0, n), frags),
    decreases ls.len() - n,
{
    if n < ls.len() {
        assert(ls.subrange(0, n + 1).drop_last() =~= ls.subrange(0, n));
        lemma_include_err_prefix(ls, n + 1, frags);
    } else {
        assert(ls.subrange(0, n) =~= ls);
    }
}

/// Expands `{{> fragment-name }}` include directives in `body`.
///
/// Returns the expanded body and the list of fragment names used.
pub fn process_fragments(body: &str, fragments: &StrMap<String>) -> (r: Result<(String, Vec<String>), String>)
    requires
        fragments.wf(),
    ensures
        r matches Ok(v) ==> spec_process_fragments(body@, fragments@) matches Ok(w) && w == (v.0@, string_views(v.1@)),
        r matches Err(e) ==> spec_process_fragments(body@, fragments@) matches Err(m) && m == e@,
{
    let mut fragments_used: Vec<String> = Vec::new();
    let line_list = split_newlines(body);
    let ghost ls = str_views(line_list@);
    let mut out_lines: Vec<String> = Vec::new();
    let mut i: usize = 0;
    proof {
        assert(ls.subrange(0, 0) =~= Seq::<Seq<char>>::empty());
        assert(string_views(out_lines@) =~= Seq::<Seq<char>>::empty());
        assert(string_views(fragments_used@) =~= Seq::<Seq<char>>::empty());
    }
    while i < line_list.len()
        invariant
            fragments.wf(),
            ls == str_views(line_list@),
            ls == split_newline(body),
            i <= ls.len(),
            include_lines(ls.subrange(0, i as int), fragments@) == Ok::<(Seq<Seq<char>>, Seq<Seq<char>>), Seq<char>>((string_views(out_lines@), string_views(fragments_used@))),
        decreases ls.len() - i,
    {
        let line = line_list[i];
        let ghost prev_out = out_lines@;
        let ghost prev_used = fragments_used@;
        proof {
            assert(ls.subrange(0, i + 1).drop_last() =~= ls.subrange(0, i as int));
            assert(ls.subrange(0, i + 1).last() == line@);
        }
        match fragment_include(line) {
            Some(frag_name) => {
                let content = match fragments.get(frag_name.as_str()) {
                    Some(c) => c,
                    None => {
                        let msg = concat3("fragment '", frag_name.as_str(), "' not found");
                        proof {
                            lemma_include_err_prefix(ls, i + 1, fragments@);
                        }
                        return Err(msg);
                    },
                };
                match find_include_line(content.as_str()) {
                    Some(k) => {
                        let mut msg = concat3("fragment '", frag_name.as_str(), "' contains a nested fragment include on line ");
                        let n = to_decimal((k as u64) + 1);
                        msg.append(n.as_str());
                        msg.append(" — nesting is not supported (keep includes flat)");
                        proof {
                            lemma_include_err_prefix(ls, i + 1, fragments@);
                        }
                        return Err(msg);
                    },
                    None => {},
                }
                if !crate::compiler::compile::contains_str(&fragments_used, frag_name.as_str()) {
                    fragments_used.push(frag_name.clone());
                    proof {
                        assert(string_views(fragments_used@) =~= string_views(prev_used).push(frag_name@));
                    }
                }
                let trimmed = crate::compiler::compile::trim_trailing_newlines(content.as_str());
                out_lines.push(String::from_str(trimmed));
                proof {
                    assert(string_views(out_lines@) =~= string_views(prev_out).push(trimmed@));
                }
            },
            None => {
                out_lines.push(String::from_str(line));
                proof {
                    assert(string_views(out_lines@) =~= string_views(prev_out).push(line@));
                }
            },
        }
        i += 1;
    }
    proof {
        assert(ls.subrange(0, ls.len() as int) =~= ls);
    }
    let joined = join_newlines(&out_lines);
    Ok((joined, fragments_used))
}

// ── Ref directives ────────────────────────────────────────────────────────────

/// What a typed ref becomes in the compiled text: structural refs keep their
/// value in backticks, a variable its declared value, an environment
/// variable its value in the environment or its default.
pub open spec fn ref_replacement(ctx: &CompileContext, tr: TypedRefView) -> Seq<char> {
    let v = tr.value;
    match tr.kind {
        RefKind::Var => if ctx.vars@.contains_key(v) {
            ctx.vars@[v]@
        } else {
            Seq::empty()
        },
        RefKind::Env => if ctx.env@.contains_key(v) {
            if ctx.process_env@.contains_key(v) {
                ctx.process_env@[v]@
            } else {
                ctx.env@[v].default@
            }
        } else {
            Seq::empty()
        },
        _ => "`"@ + v + "`"@,
    }
}

/// A diagnostic about a ref of `skill` in `path`, on the ref's line offset by
/// the line where the body starts.
pub open spec fn ref_diag(
    severity: BuildSeverity,
    skill: Seq<char>,
    path: Seq<char>,
    body_start_line: u32,
    tr: TypedRefView,
    message: Seq<char>,
) -> BuildDiagnosticView {
    BuildDiagnosticView {
        severity,
        skill,
        message,
        path,
        line: wrapping_line(body_start_line, tr.line),
        col: tr.col,
    }
}

/// The error a typed ref raises, if any.
pub open spec fn ref_error(
    ctx: &CompileContext,
    skill: Seq<char>,
    path: Seq<char>,
    bsl: u32,
    tr: TypedRefView,
) -> Option<BuildDiagnosticView> {
    let v = tr.value;
    let e = |m: Seq<char>| ref_diag(BuildSeverity::Error, skill, path, bsl, tr, m);
    match tr.kind {
        RefKind::Ref => if ctx.known_files@.len() != 0 && !ctx.known_files@.contains(v) {
            Some(e("ref path not found: '"@ + v + "'"@))
        } else {
            None
        },
        RefKind::Skill => if ctx.known_skills@.len() != 0 && !ctx.known_skills@.contains(v) {
            Some(e("skill '"@ + v + "' not found in workspace"@))
        } else {
            None
        },
        RefKind::Var => if !ctx.vars@.contains_key(v) {
            Some(e("var '"@ + v + "' not declared in [vars]"@))
        } else {
            None
        },
        RefKind::Env => if !ctx.env@.contains_key(v) {
            Some(e("env '"@ + v + "' not declared in [env]"@))
        } else {
            None
        },
        RefKind::Cmd => None,
    }
}

/// The warning a typed ref raises, if any: a command missing from the known ones.
pub open spec fn ref_warning(
    ctx: &CompileContext,
    skill: Seq<char>,
    path: Seq<char>,
    bsl: u32,
    tr: TypedRefView,
) -> Option<BuildDiagnosticView> {
    let cmd = crate::compiler::check::command_of(tr.value);
    if tr.kind is Cmd && ctx.known_commands@.len() != 0 && !ctx.known_commands@.contains(cmd) {
        Some(
            ref_diag(
                BuildSeverity::Warning,
                skill,
                path,
                bsl,
                tr,
                "command '"@ + cmd + "' not found on PATH"@,
            ),
        )
    } else {
        None
    }
}

/// Where the previous ref of `trs` ends: the end of its second-to-last, or 0.
pub open spec fn prev_end(trs: Seq<TypedRefView>) -> int {
    if trs.len() >= 2 {
        trs[trs.len() - 2].end
    } else {
        0
    }
}

/// Where the last ref of `trs` ends, or 0.
pub open spec fn last_end(trs: Seq<TypedRefView>) -> int {
    if trs.len() >= 1 {
        trs.last().end
    } else {
        0
    }
}

/// The text of `b` up to the end of the last ref of `trs`, refs replaced.
pub open spec fn refs_text(ctx: &CompileContext, b: Seq<u8>, trs: Seq<TypedRefView>) -> Seq<char>
    decreases trs.len(),
{
    if trs.len() == 0 {
        Seq::empty()
    } else {
        refs_text(ctx, b, trs.drop_last()) + crate::compiler::compile::text_between(
            b,
            prev_end(trs),
            trs.last().start,
        ) + ref_replacement(ctx, trs.last())
    }
}

/// The diagnostics that `f` picks from the refs `trs`, in order.
pub open spec fn refs_diags(
    trs: Seq<TypedRefView>,
    f: spec_fn(TypedRefView) -> Option<BuildDiagnosticView>,
) -> Seq<BuildDiagnosticView>
    decreases trs.len(),
{
    if trs.len() == 0 {
        Seq::empty()
    } else {
        let prev = refs_diags(trs.drop_last(), f);
        match f(trs.last()) {
            Some(d) => prev.push(d),
            None => prev,
        }
    }
}

/// What [`process_refs`] gives for a body: the text with refs replaced and
/// the warnings, or the errors.
pub open spec fn spec_process_refs(
    ctx: &CompileContext,
    body: Seq<char>,
    skill: Seq<char>,
    path: Seq<char>,
    bsl: u32,
) -> Result<(Seq<char>, Seq<BuildDiagnosticView>), Seq<BuildDiagnosticView>> {
    let b = encode_utf8(body);
    let trs = spec_typed_refs(body, b);
    let errors = refs_diags(trs, |tr: TypedRefView| ref_error(ctx, skill, path, bsl, tr));
    let warnings = refs_diags(trs, |tr: TypedRefView| ref_warning(ctx, skill, path, bsl, tr));
    if errors.len() > 0 {
        Err(errors)
    } else {
        Ok(
            (
                refs_text(ctx, b, trs) + crate::compiler::compile::text_between(
                    b,
                    last_end(trs),
                    b.len() as int,
                ),
                warnings,
            ),
        )
    }
}

/// The refs of `trs` give diagnostics exactly when `f` picks one of them.
pub proof fn lemma_refs_diags_nonempty(
    trs: Seq<TypedRefView>,
    f: spec_fn(TypedRefView) -> Option<BuildDiagnosticView>,
)
    ensures
        refs_diags(trs, f).len() > 0 <==> exists|k: int| 0 <= k < trs.len() && #[trigger] f(trs[k]) is Some,
    decreases trs.len(),
{
    if trs.len() > 0 {
        let init = trs.drop_last();
        lemma_refs_diags_nonempty(init, f);
        if exists|k: int| 0 <= k < init.len() && #[trigger] f(init[k]) is Some {
            let k = choose|k: int| 0 <= k < init.len() && #[trigger] f(init[k]) is Some;
            assert(trs[k] == init[k]);
        }
        if f(trs.last()) is Some {
            assert(f(trs[trs.len() - 1]) is Some);
        }
        if exists|k: int| 0 <= k < trs.len() && #[trigger] f(trs[k]) is Some {
            let k = choose|k: int| 0 <= k < trs.len() && #[trigger] f(trs[k]) is Some;
            if k < init.len() {
                assert(init[k] == trs[k]);
            }
        }
    }
}

/// Law: a body is refused exactly when one of its typed refs cannot be
/// resolved: a ref path or a skill missing from a non-empty known set, or a
/// variable or environment variable that is not declared.
pub proof fn lemma_process_refs_fails_iff_unresolved(
    ctx: &CompileContext,
    body: Seq<char>,
    skill: Seq<char>,
    path: Seq<char>,
    bsl: u32,
)
    ensures
        spec_process_refs(ctx, body, skill, path, bsl) is Err <==> exists|k: int|
            0 <= k < spec_typed_refs(body, encode_utf8(body)).len() && ref_error(
                ctx,
                skill,
                path,
                bsl,
                #[trigger] spec_typed_refs(body, encode_utf8(body))[k],
            ) is Some,
{
    let trs = spec_typed_refs(body, encode_utf8(body));
    let f = |tr: TypedRefView| ref_error(ctx, skill, path, bsl, tr);
    lemma_refs_diags_nonempty(trs, f);
    if exists|k: int| 0 <= k < trs.len() && #[trigger] f(trs[k]) is Some {
        let k = choose|k: int| 0 <= k < trs.len() && #[trigger] f(trs[k]) is Some;
        assert(ref_error(ctx, skill, path, bsl, trs[k]) is Some);
    }
    if exists|k: int| 0 <= k < trs.len() && ref_error(ctx, skill, path, bsl, #[trigger] trs[k]) is Some {
        let k = choose|k: int| 0 <= k < trs.len() && ref_error(ctx, skill, path, bsl, #[trigger] trs[k]) is Some;
        assert(f(trs[k]) is Some);
    }
}

/// Whether `s` is a member of a set, an empty set admitting everything.
fn known_or_unchecked(set: &StrSet, s: &str) -> (r: bool)
    requires
        set.wf(),
    ensures
        r == !(set@.len() != 0 && !set@.contains(s@)),
{
    set.is_empty() || set.contains(s)
}

/// Transforms all backtick ref directives in `body`.
///
/// Returns `(processed_body, cmd_warnings)`, or every error found.
pub fn process_refs(
    body: &str,
    skill_name: &str,
    source_path: &str,
    body_start_line: u32,
    ctx: &CompileContext,
) -> (r: Result<(String, Vec<BuildDiagnostic>), BuildFailure>)
    requires
        ctx.wf(),
    ensures
        r matches Ok(v) ==> spec_process_refs(ctx, body@, skill_name@, source_path@, body_start_line) matches Ok(w)
            && w == (v.0@, build_views(v.1@)),
        r matches Err(f) ==> spec_process_refs(ctx, body@, skill_name@, source_path@, body_start_line) matches Err(es)
            && es == build_views(f.diagnostics@),
{
    let ghost b = body.spec_bytes();
    let ghost sk = skill_name@;
    let ghost sp = source_path@;
    let ghost fe = |tr: TypedRefView| ref_error(ctx, sk, sp, body_start_line, tr);
    let ghost fw = |tr: TypedRefView| ref_warning(ctx, sk, sp, body_start_line, tr);
    let trs = typed_refs(body);
    let ghost ts = typed_views(trs@);
    proof {
        lemma_str_bytes(body);
        lemma_ends_at_boundary(b);
    }
    let mut result = String::new();
    let mut last: usize = 0;
    let mut errors: Vec<BuildDiagnostic> = Vec::new();
    let mut cmd_warnings: Vec<BuildDiagnostic> = Vec::new();
    let mut i: usize = 0;
    proof {
        assert(ts.subrange(0, 0) =~= Seq::<TypedRefView>::empty());
        assert(build_views(errors@) =~= Seq::<BuildDiagnosticView>::empty());
        assert(build_views(cmd_warnings@) =~= Seq::<BuildDiagnosticView>::empty());
    }
    while i < trs.len()
        invariant
            ctx.wf(),
            b == body.spec_bytes(),
            valid_utf8(b),
            ts == typed_views(trs@),
            ts == spec_typed_refs(body@, b),
            typed_ok(b, ts),
            fe == (|tr: TypedRefView| ref_error(ctx, sk, sp, body_start_line, tr)),
            fw == (|tr: TypedRefView| ref_warning(ctx, sk, sp, body_start_line, tr)),
            sk == skill_name@,
            sp == source_path@,
            i <= ts.len(),
            at_boundary(b, b.len() as int),
            last == last_end(ts.subrange(0, i as int)),
            last <= b.len(),
            at_boundary(b, last as int),
            i > 0 ==> last == ts[i - 1].end,
            result@ == refs_text(ctx, b, ts.subrange(0, i as int)),
            build_views(errors@) == refs_diags(ts.subrange(0, i as int), fe),
            build_views(cmd_warnings@) == refs_diags(ts.subrange(0, i as int), fw),
        decreases ts.len() - i,
    {
        let ghost sub = ts.subrange(0, i + 1);
        let ghost e0 = errors@;
        let ghost w0 = cmd_warnings@;
        let tr = &trs[i];
        proof {
            assert(sub.drop_last() =~= ts.subrange(0, i as int));
            assert(sub.last() == ts[i as int]);
            assert(ts[i as int] == tr@);
            assert(0 <= ts[i as int].start <= ts[i as int].end <= b.len());
            assert(at_boundary(b, ts[i as int].start) && at_boundary(b, ts[i as int].end));
            if i > 0 {
                assert(ts[i - 1].end <= ts[i as int].start);
                assert(prev_end(sub) == ts[i - 1].end);
            } else {
                assert(prev_end(sub) == 0);
            }
        }
        let gap = slice_str(body, last, tr.start);
        result.append(gap);
        last = tr.end;
        let v = tr.value.as_str();
        let line = line_offset_by(body_start_line, tr.line);
        proof {
            reveal_strlit("`");
        }
        match tr.kind {
            RefKind::Ref => {
                if !known_or_unchecked(&ctx.known_files, v) {
                    let msg = concat3("ref path not found: '", v, "'");
                    errors.push(BuildDiagnostic::new(BuildSeverity::Error, skill_name, msg, source_path, line, tr.col));
                }
                result.append("`");
                result.append(v);
                result.append("`");
            },
            RefKind::Cmd => {
                let cmd = match first_word_of(v) {
                    Some(w) => w,
                    None => v,
                };
                if !known_or_unchecked(&ctx.known_commands, cmd) {
                    let msg = concat3("command '", cmd, "' not found on PATH");
                    cmd_warnings.push(BuildDiagnostic::new(BuildSeverity::Warning, skill_name, msg, source_path, line, tr.col));
                }
                result.append("`");
                result.append(v);
                result.append("`");
            },
            RefKind::Skill => {
                if !known_or_unchecked(&ctx.known_skills, v) {
                    let msg = concat3("skill '", v, "' not found in workspace");
                    errors.push(BuildDiagnostic::new(BuildSeverity::Error, skill_name, msg, source_path, line, tr.col));
                }
                result.append("`");
                result.append(v);
                result.append("`");
            },
            RefKind::Var => match ctx.vars.get(v) {
                Some(val) => result.append(val.as_str()),
                None => {
                    let msg = concat3("var '", v, "' not declared in [vars]");
                    errors.push(BuildDiagnostic::new(BuildSeverity::Error, skill_name, msg, source_path, line, tr.col));
                },
            },
            RefKind::Env => match ctx.env.get(v) {
                Some(e) => {
                    match ctx.process_env.get(v) {
                        Some(val) => result.append(val.as_str()),
                        None => result.append(e.default.as_str()),
                    }
                },
                None => {
                    let msg = concat3("env '", v, "' not declared in [env]");
                    errors.push(BuildDiagnostic::new(BuildSeverity::Error, skill_name, msg, source_path, line, tr.col));
                },
            },
        }
        proof {
            assert(build_views(errors@) =~= refs_diags(sub, fe)) by {
                if errors@.len() > e0.len() {
                    assert(build_views(errors@) =~= build_views(e0).push(errors@.last()@));
                }
            }
            assert(build_views(cmd_warnings@) =~= refs_diags(sub, fw)) by {
                if cmd_warnings@.len() > w0.len() {
                    assert(build_views(cmd_warnings@) =~= build_views(w0).push(cmd_warnings@.last()@));
                }
            }
        }
        i += 1;
    }
    proof {
        assert(ts.subrange(0, ts.len() as int) =~= ts);
    }
    let ghost before_tail = result@;
    proof {
        assert(last == last_end(ts));
    }
    let blen = body.as_bytes().len();
    let tail = slice_str(body, last, blen);
    result.append(tail);
    proof {
        assert(result@ == refs_text(ctx, b, ts) + crate::compiler::compile::text_between(b, last_end(ts), b.len() as int));
    }
    if errors.len() > 0 {
        return Err(BuildFailure::new(errors));
    }
    proof {
        assert(build_views(errors@).len() == 0);
    }
    Ok((result, cmd_warnings))
}

// ── Structured refs ───────────────────────────────────────────────────────────

/// The values of the typed refs of kind `k` among `ts`.
pub open spec fn values_of_kind(ts: Seq<TypedRefView>, k: RefKind) -> Set<Seq<char>> {
    Set::new(|v: Seq<char>| exists|i: int| 0 <= i < ts.len() && #[trigger] ts[i].kind == k && ts[i].value == v)
}

/// The targets of the links among `ls` that are URLs (`url`) or are not.
pub open spec fn link_targets(ls: Seq<MarkdownLinkView>, url: bool) -> Set<Seq<char>> {
    Set::new(|t: Seq<char>| exists|i: int| 0 <= i < ls.len() && #[trigger] ls[i].is_url == url && ls[i].target == t)
}

/// `v` lists the members of `s` in increasing order, each once.
pub open spec fn lists_sorted(v: Seq<String>, s: Set<Seq<char>>) -> bool {
    &&& crate::collections::sorted_keys(string_views(v))
    &&& string_views(v).to_set() == s
}

/// Extending the sequence by one ref adds its value when it has kind `k`.
proof fn lemma_values_of_kind_step(v: Seq<TypedRefView>, i: int, k: RefKind)
    requires
        0 <= i < v.len(),
    ensures
        values_of_kind(v.subrange(0, i + 1), k) == (if v[i].kind == k {
            values_of_kind(v.subrange(0, i), k).insert(v[i].value)
        } else {
            values_of_kind(v.subrange(0, i), k)
        }),
{
    let a = values_of_kind(v.subrange(0, i), k);
    let b = values_of_kind(v.subrange(0, i + 1), k);
    let c = if v[i].kind == k {
        a.insert(v[i].value)
    } else {
        a
    };
    assert forall|x: Seq<char>| b.contains(x) implies c.contains(x) by {
        let j = choose|j: int| 0 <= j < i + 1 && #[trigger] v.subrange(0, i + 1)[j].kind == k && v.subrange(0, i + 1)[j].value == x;
        if j < i {
            assert(v.subrange(0, i)[j] == v.subrange(0, i + 1)[j]);
        }
    }
    assert forall|x: Seq<char>| c.contains(x) implies b.contains(x) by {
        if a.contains(x) {
            let j = choose|j: int| 0 <= j < i && #[trigger] v.subrange(0, i)[j].kind == k && v.subrange(0, i)[j].value == x;
            assert(v.subrange(0, i + 1)[j] == v.subrange(0, i)[j]);
        } else {
            assert(v.subrange(0, i + 1)[i] == v[i]);
        }
    }
    assert(b =~= c);
}

/// Extending the sequence by one link adds its target when its kind is `url`.
proof fn lemma_link_targets_step(v: Seq<MarkdownLinkView>, i: int, url: bool)
    requires
        0 <= i < v.len(),
    ensures
        link_targets(v.subrange(0, i + 1), url) == (if v[i].is_url == url {
            link_targets(v.subrange(0, i), url).insert(v[i].target)
        } else {
            link_targets(v.subrange(0, i), url)
        }),
{
    let a = link_targets(v.subrange(0, i), url);
    let b = link_targets(v.subrange(0, i + 1), url);
    let c = if v[i].is_url == url {
        a.insert(v[i].target)
    } else {
        a
    };
    assert forall|x: Seq<char>| b.contains(x) implies c.contains(x) by {
        let j = choose|j: int| 0 <= j < i + 1 && #[trigger] v.subrange(0, i + 1)[j].is_url == url && v.subrange(0, i + 1)[j].target == x;
        if j < i {
            assert(v.subrange(0, i)[j] == v.subrange(0, i + 1)[j]);
        }
    }
    assert forall|x: Seq<char>| c.contains(x) implies b.contains(x) by {
        if a.contains(x) {
            let j = choose|j: int| 0 <= j < i && #[trigger] v.subrange(0, i)[j].is_url == url && v.subrange(0, i)[j].target == x;
            assert(v.subrange(0, i + 1)[j] == v.subrange(0, i)[j]);
        } else {
            assert(v.subrange(0, i + 1)[i] == v[i]);
        }
    }
    assert(b =~= c);
}

fn insert_kind(set: &mut StrSet, ts: &Vec<crate::refs::TypedRef>, k: RefKind)
    requires
        old(set).wf(),
    ensures
        final(set).wf(),
        final(set)@ == old(set)@.union(values_of_kind(typed_views(ts@), k)),
{
    let ghost v = typed_views(ts@);
    let ghost s0 = set@;
    let mut i: usize = 0;
    while i < ts.len()
        invariant
            set.wf(),
            v == typed_views(ts@),
            i <= ts@.len(),
            set@ == s0.union(values_of_kind(v.subrange(0, i as int), k)),
        decreases ts@.len() - i,
    {
        let ghost before = set@;
        if ts[i].kind == k {
            set.insert(ts[i].value.clone());
        }
        proof {
            assert(v[i as int] == ts@[i as int]@);
            lemma_values_of_kind_step(v, i as int, k);
            assert(set@ =~= s0.union(values_of_kind(v.subrange(0, i + 1), k)));
        }
        i += 1;
    }
    proof {
        assert(v.subrange(0, ts@.len() as int) =~= v);
    }
}

fn insert_links(set: &mut StrSet, ls: &Vec<crate::refs::MarkdownLink>, url: bool)
    requires
        old(set).wf(),
    ensures
        final(set).wf(),
        final(set)@ == old(set)@.union(link_targets(link_views(ls@), url)),
{
    let ghost v = link_views(ls@);
    let ghost s0 = set@;
    let mut i: usize = 0;
    while i < ls.len()
        invariant
            set.wf(),
            v == link_views(ls@),
            i <= ls@.len(),
            set@ == s0.union(link_targets(v.subrange(0, i as int), url)),
        decreases ls@.len() - i,
    {
        if ls[i].is_url == url {
            set.insert(ls[i].target.clone());
        }
        proof {
            assert(v[i as int] == ls@[i as int]@);
            lemma_link_targets_step(v, i as int, url);
            assert(set@ =~= s0.union(link_targets(v.subrange(0, i + 1), url)));
        }
        i += 1;
    }
    proof {
        assert(v.subrange(0, ls@.len() as int) =~= v);
    }
}

fn sorted_list(set: &StrSet) -> (r: Vec<String>)
    requires
        set.wf(),
    ensures
        lists_sorted(r@, set@),
{
    let r = set.to_vec();
    proof {
        set.lemma_items();
    }
    r
}

/// `r` is the ref inventory of `text`: the paths of its `ref::` directives and
/// of its non-URL links, its commands, its skills and its URLs, each list
/// sorted and without duplicates.
pub open spec fn refs_inventory(r: &SkillRefs, text: Seq<char>) -> bool {
    let b = encode_utf8(text);
    &&& lists_sorted(
        r.paths@,
        values_of_kind(spec_typed_refs(text, b), RefKind::Ref).union(link_targets(spec_links(text, b), false)),
    )
    &&& lists_sorted(r.commands@, values_of_kind(spec_typed_refs(text, b), RefKind::Cmd))
    &&& lists_sorted(r.skills@, values_of_kind(spec_typed_refs(text, b), RefKind::Skill))
    &&& lists_sorted(r.urls@, link_targets(spec_links(text, b), true))
}

/// Collects all detectable refs from compiled text into a structured form.
///
/// Gathers typed refs (`kind::value`) and markdown link targets. Duplicates
/// are removed and lists are sorted for deterministic lockfile output.
pub fn collect_structured_refs(text: &str) -> (r: SkillRefs)
    ensures
        refs_inventory(&r, text@),
{
    let trs = typed_refs(text);
    let links = extract_markdown_links(text);
    let mut paths = StrSet::new();
    let mut commands = StrSet::new();
    let mut skills = StrSet::new();
    let mut urls = StrSet::new();
    insert_kind(&mut paths, &trs, RefKind::Ref);
    insert_links(&mut paths, &links, false);
    insert_kind(&mut commands, &trs, RefKind::Cmd);
    insert_kind(&mut skills, &trs, RefKind::Skill);
    insert_links(&mut urls, &links, true);
    proof {
        let e = Set::<Seq<char>>::empty();
        assert(e.union(values_of_kind(typed_views(trs@), RefKind::Ref)).union(link_targets(link_views(links@), false)) =~= values_of_kind(typed_views(trs@), RefKind::Ref).union(link_targets(link_views(links@), false)));
        assert(e.union(values_of_kind(typed_views(trs@), RefKind::Cmd)) =~= values_of_kind(typed_views(trs@), RefKind::Cmd));
        assert(e.union(values_of_kind(typed_views(trs@), RefKind::Skill)) =~= values_of_kind(typed_views(trs@), RefKind::Skill));
        assert(e.union(link_targets(link_views(links@), true)) =~= link_targets(link_views(links@), true));
    }
    SkillRefs {
        paths: sorted_list(&paths),
        commands: sorted_list(&commands),
        skills: sorted_list(&skills),
        urls: sorted_list(&urls),
    }
}

// ── Compile ───────────────────────────────────────────────────────────────────

/// What went wrong in a compile, as values.
pub enum CompileErrorView {
    /// The message of the error.
    Message(Seq<char>),
    /// The diagnostics of the failure.
    Failure(Seq<BuildDiagnosticView>),
}

impl View for CompileError {
    type V = CompileErrorView;

    open spec fn view(&self) -> CompileErrorView {
        match self {
            CompileError::Message(m) => CompileErrorView::Message(m@),
            CompileError::Failure(f) => CompileErrorView::Failure(build_views(f.diagnostics@)),
        }
    }
}

/// The compiled output: the front matter between `---` lines, a blank line,
/// then the body.
pub open spec fn compiled_output(frontmatter: Seq<char>, body: Seq<char>) -> Seq<char> {
    "---\n"@ + frontmatter + "\n---\n\n"@ + body
}

/// The message for a front matter `name` that differs from the skill's
/// directory name `dir`.
pub open spec fn name_mismatch_message(name: Seq<char>, dir: Seq<char>) -> Seq<char> {
    "frontmatter name '"@ + name + "' does not match skill directory '"@ + dir + "'"@
}

/// What [`compile`] gives for `ctx`: the output text, the fragments used and
/// the `cmd::` warnings; or the error.
pub open spec fn spec_compile(ctx: &CompileContext) -> Result<
    (Seq<char>, Seq<Seq<char>>, Seq<BuildDiagnosticView>),
    CompileErrorView,
> {
    let src = ctx.source;
    match spec_parse_source(src.content@) {
        Err(_) => Err(CompileErrorView::Message("failed to parse "@ + src.path@)),
        Ok((fm, name, body, bsl)) => if name != src.name@ {
            Err(CompileErrorView::Message(name_mismatch_message(name, src.name@)))
        } else {
            match spec_process_fragments(body, ctx.fragments@) {
                Err(e) => Err(CompileErrorView::Message(e)),
                Ok((expanded, used)) => match spec_process_refs(ctx, expanded, src.name@, src.path@, bsl) {
                    Err(es) => Err(CompileErrorView::Failure(es)),
                    Ok((text, warnings)) => Ok((compiled_output(fm, text), used, warnings)),
                },
            }
        },
    }
}

/// Law: compiling a skill fails exactly when its source has no front matter
/// with a string `name`, that name is not the skill's, a fragment include
/// cannot be expanded, or one of the typed refs of the expanded body cannot
/// be resolved.
pub proof fn lemma_compile_fails_iff(ctx: &CompileContext)
    ensures
        spec_compile(ctx) is Err <==> match spec_parse_source(ctx.source.content@) {
            Err(_) => true,
            Ok((fm, name, body, bsl)) => name != ctx.source.name@ || match spec_process_fragments(
                body,
                ctx.fragments@,
            ) {
                Err(_) => true,
                Ok((expanded, used)) => exists|k: int|
                    0 <= k < spec_typed_refs(expanded, encode_utf8(expanded)).len() && ref_error(
                        ctx,
                        ctx.source.name@,
                        ctx.source.path@,
                        bsl,
                        #[trigger] spec_typed_refs(expanded, encode_utf8(expanded))[k],
                    ) is Some,
            },
        },
{
    if let Ok((fm, name, body, bsl)) = spec_parse_source(ctx.source.content@) {
        if let Ok((expanded, used)) = spec_process_fragments(body, ctx.fragments@) {
            lemma_process_refs_fails_iff_unresolved(ctx, expanded, ctx.source.name@, ctx.source.path@, bsl);
        }
    }
}

/// Compiles a single skill from pre-loaded content.
///
/// Parses the front matter (whose `name` must match the skill's directory),
/// expands fragment includes, resolves ref directives, and reports the ref
/// inventory, the `ref::` paths of the source and two token counts: of the
/// whole output (activation) and of name and description (discovery), both
/// from `count_tokens`, called with the text and the tokenizer model.
pub fn compile<F: Fn(&str, &str) -> u32>(ctx: &CompileContext, count_tokens: &F) -> (r: Result<
    CompileResult,
    CompileError,
>)
    requires
        ctx.wf(),
        forall|t: &str, m: &str| count_tokens.requires((t, m)),
    ensures
        r matches Ok(res) ==> spec_compile(ctx) matches Ok((out, used, warnings)) && res.output@ == out
            && string_views(res.fragments_used@) == used && build_views(res.cmd_warnings@) == warnings
            && refs_inventory(&res.refs, out) && string_views(res.ref_paths@) == spec_path_refs(
            ctx.source.content@,
        ) && counted(*count_tokens, out, ctx.tokenizer@, res.activation_tokens) && counted(
            *count_tokens,
            discovery_text(out),
            ctx.tokenizer@,
            res.discovery_tokens,
        ),
        r matches Err(e) ==> spec_compile(ctx) matches Err(v) && v == e@,
{
    let (frontmatter, name, body, body_start_line) = match parse_source(ctx.source.content.as_str()) {
        Ok(v) => v,
        Err(_) => {
            return Err(CompileError::Message(concat("failed to parse ", ctx.source.path.as_str())));
        },
    };
    if !str_eq(name.as_str(), ctx.source.name.as_str()) {
        let mut msg = String::from_str("frontmatter name '");
        msg.append(name.as_str());
        msg.append("' does not match skill directory '");
        msg.append(ctx.source.name.as_str());
        msg.append("'");
        return Err(CompileError::Message(msg));
    }
    let (processed_body, fragments_used) = match process_fragments(body.as_str(), &ctx.fragments) {
        Ok(v) => v,
        Err(e) => {
            return Err(CompileError::Message(e));
        },
    };
    let (compiled_body, cmd_warnings) = match process_refs(
        processed_body.as_str(),
        ctx.source.name.as_str(),
        ctx.source.path.as_str(),
        body_start_line,
        ctx,
    ) {
        Ok(v) => v,
        Err(f) => {
            return Err(CompileError::Failure(f));
        },
    };
    let mut output = String::from_str("---\n");
    output.append(frontmatter.as_str());
    output.append("\n---\n\n");
    output.append(compiled_body.as_str());
    let refs = collect_structured_refs(output.as_str());
    let discovery = discovery_text_of(output.as_str());
    let discovery_tokens = count_tokens_with(count_tokens, discovery.as_str(), ctx.tokenizer.as_str());
    let activation_tokens = count_tokens_with(count_tokens, output.as_str(), ctx.tokenizer.as_str());
    let ref_paths = extract_path_refs(ctx.source.content.as_str());
    Ok(
        CompileResult {
            output,
            fragments_used,
            refs,
            discovery_tokens,
            activation_tokens,
            ref_paths,
            cmd_warnings,
        },
    )
}

// ── Build options ─────────────────────────────────────────────────────────────

/// Output format for build results.
#[derive(Debug, Clone, Copy, PartialEq, Eq, Structural)]
pub enum OutputFormat {
    /// Plain text.
    Text,
    /// A JSON build report, for machine consumption.
    Json,
}

impl Default for OutputFormat {
    /// Plain text.
    fn default() -> (r: Self)
        ensures
            r == OutputFormat::Text,
    {
        OutputFormat::Text
    }
}

/// Options controlling the build step.
#[derive(Debug)]
pub struct BuildOptions {
    /// If true, skip network checks (e.g. URL verification).
    pub offline: bool,
    /// If true, treat URL verification warnings as errors.
    pub strict: bool,
    /// Output format for build results.
    pub format: OutputFormat,
}

impl BuildOptions {
    /// Options with the text output format.
    pub fn new(offline: bool, strict: bool) -> (r: Self)
        ensures
            r.offline == offline,
            r.strict == strict,
            r.format == OutputFormat::Text,
    {
        BuildOptions { offline, strict, format: OutputFormat::Text }
    }

    /// Options with the given output format.
    pub fn new_with_format(offline: bool, strict: bool, format: OutputFormat) -> (r: Self)
        ensures
            r.offline == offline,
            r.strict == strict,
            r.format == format,
    {
        BuildOptions { offline, strict, format }
    }
}

impl Default for BuildOptions {
    /// Online, not strict, text output.
    fn default() -> (r: Self)
        ensures
            !r.offline,
            !r.strict,
            r.format == OutputFormat::Text,
    {
        BuildOptions::new(false, false)
    }
}

} // verus!
