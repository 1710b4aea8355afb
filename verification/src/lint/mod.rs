//! Lint engine for skill quality validation.
//!
//! Lint aggregates the pipeline stages rather than reimplementing them: for
//! every target skill it runs the referential-integrity check and the
//! compiler, then the lint-specific rules (frontmatter validity,
//! untyped-backtick hints, size budgets, unused fragments, cross-skill
//! duplication). Workspace freshness (`stale-build`) comes from
//! [`crate::freshness::verify`].
use vstd::prelude::*;

use vstd::utf8::encode_utf8;

use crate::collections::{string_views, StrMap, StrSet};
use crate::compiler::check::{
    check_source_file, diags_view, spec_check as check_spec, CheckDiag, CheckDiagView, CheckKind,
    Severity as CheckSeverity,
};
use crate::compiler::compile::{
    body_bytes, compile, compiled_text, discovery_text, used_fragments as compiler_used_fragments, CompileOutput,
};
use crate::compiler::parse::spec_parse;
use crate::compiler::PanSource;
use crate::config::SkilletConfig;
use crate::freshness::{expected_result, joined, result_names, verify, DiskState};
use crate::lockfile::Lockfile;
use rules::duplication::{sig_of, sorted_members, spec_check as duplication_spec, strip_ok, NHASH};
use rules::oversized::fragment_diags;
use rules::unused_fragment::{unused_diags, used_fragments};
use crate::text::{concat, concat3, decimal, str_views, to_decimal};
use crate::tokens::{gives_one_count, lemma_counted_is_count, token_count};
use crate::workspace::skill::Skill;
use crate::workspace::Workspace;
use rules::invalid_frontmatter::frontmatter_diags;
use rules::oversized::{description_diags as oversized_description_diags, skill_diags as oversized_skill_diags};
use rules::untyped_backtick::untyped_diags;
use crate::parse::opt_view;

/// Individual lint rule implementations.
pub mod rules;

verus! {

// ── Public types ──────────────────────────────────────────────────────────────

/// Diagnostic severity level.
#[derive(Debug, Clone, Copy, PartialEq, Eq, Structural, PartialOrd, Ord)]
pub enum Severity {
    /// Informational — shown only with `--pedantic`.
    Info,
    /// Warning — build succeeds; promoted to error with `--strict`.
    Warning,
    /// Error — build fails; `skillet lint` exits non-zero.
    Error,
}

/// A single lint finding.
#[non_exhaustive]
#[derive(Debug, Clone)]
pub struct Diagnostic {
    /// Short rule identifier (e.g. `"stale-path-ref"`).
    pub rule: String,
    /// Severity of the finding.
    pub severity: Severity,
    /// Skill name this applies to, or `"<workspace>"` for workspace-level rules.
    pub skill: String,
    /// Description of the problem.
    pub message: String,
    /// File path where the issue was found (when known).
    pub path: Option<String>,
    /// 1-based line number where the issue was found (when known).
    pub line: Option<u32>,
    /// 1-based column number where the issue was found (when known).
    pub col: Option<u32>,
    /// The duplicated passage text (duplication rule only).
    pub duplicated_text: Option<String>,
    /// Skill names that share the duplicated passage (duplication rule only).
    pub affected_skills: Option<Vec<String>>,
}

/// A lint finding, as values.
pub struct DiagnosticView {
    /// Rule identifier.
    pub rule: Seq<char>,
    /// Severity.
    pub severity: Severity,
    /// Skill name, or `"<workspace>"`.
    pub skill: Seq<char>,
    /// Description.
    pub message: Seq<char>,
    /// File path, if known.
    pub path: Option<Seq<char>>,
    /// Line, if known.
    pub line: Option<u32>,
    /// Column, if known.
    pub col: Option<u32>,
    /// The duplicated passage, if any.
    pub duplicated_text: Option<Seq<char>>,
    /// The skills sharing the passage, if any.
    pub affected_skills: Option<Seq<Seq<char>>>,
}

/// The view of an optional list of strings.
pub open spec fn opt_list_view(o: Option<Vec<String>>) -> Option<Seq<Seq<char>>> {
    match o {
        Some(v) => Some(crate::collections::string_views(v@)),
        None => None,
    }
}

impl View for Diagnostic {
    type V = DiagnosticView;

    open spec fn view(&self) -> DiagnosticView {
        DiagnosticView {
            rule: self.rule@,
            severity: self.severity,
            skill: self.skill@,
            message: self.message@,
            path: opt_view(self.path),
            line: self.line,
            col: self.col,
            duplicated_text: opt_view(self.duplicated_text),
            affected_skills: opt_list_view(self.affected_skills),
        }
    }
}

/// The views of a sequence of diagnostics.
pub open spec fn diag_views(ds: Seq<Diagnostic>) -> Seq<DiagnosticView> {
    ds.map_values(|d: Diagnostic| d@)
}

/// A finding with the given location and no duplication details.
pub open spec fn located(
    severity: Severity,
    skill: Seq<char>,
    rule: Seq<char>,
    message: Seq<char>,
    path: Option<Seq<char>>,
    line: Option<u32>,
    col: Option<u32>,
) -> DiagnosticView {
    DiagnosticView {
        rule,
        severity,
        skill,
        message,
        path,
        line,
        col,
        duplicated_text: None,
        affected_skills: None,
    }
}

/// A finding without location or duplication details.
pub open spec fn plain(severity: Severity, skill: Seq<char>, rule: Seq<char>, message: Seq<char>) -> DiagnosticView {
    located(severity, skill, rule, message, None, None, None)
}

/// One skill carried through `check` and `compile`, ready for the lint rules.
#[derive(Debug)]
pub struct CompiledSkill {
    /// Skill name (directory name).
    pub name: String,
    /// Path to the `.pan` source file.
    pub source_path: String,
    /// Raw source content (empty if unreadable).
    pub raw: String,
    /// Referential-integrity diagnostics from the check stage.
    pub check_diags: Vec<CheckDiag>,
    /// Output of the compile stage.
    pub output: CompileOutput,
}

/// What the lint rules read besides the workspace: the compiled text of
/// each skill, by name.
#[derive(Debug)]
pub struct LintContext {
    /// Compiled `SKILL.md` text per skill name.
    pub compiled_texts: StrMap<String>,
}

impl Default for LintContext {
    /// A context with no compiled texts.
    fn default() -> (r: Self)
        ensures
            r.compiled_texts.wf(),
            r.compiled_texts@ == Map::<Seq<char>, String>::empty(),
    {
        LintContext { compiled_texts: StrMap::new() }
    }
}

// ── Shared helpers ────────────────────────────────────────────────────────────

/// Constructs a [`Diagnostic`] without location information.
pub fn diag(severity: Severity, skill: &str, rule: &str, message: String) -> (r: Diagnostic)
    ensures
        r@ == plain(severity, skill@, rule@, message@),
{
    Diagnostic {
        rule: String::from_str(rule),
        severity,
        skill: String::from_str(skill),
        message,
        path: None,
        line: None,
        col: None,
        duplicated_text: None,
        affected_skills: None,
    }
}

/// Constructs a [`Diagnostic`] with optional file/line/column location.
pub fn diag_located(
    severity: Severity,
    skill: &str,
    rule: &str,
    message: String,
    path: Option<String>,
    line: Option<u32>,
    col: Option<u32>,
) -> (r: Diagnostic)
    ensures
        r@ == located(severity, skill@, rule@, message@, opt_view(path), line, col),
{
    Diagnostic {
        rule: String::from_str(rule),
        severity,
        skill: String::from_str(skill),
        message,
        path,
        line,
        col,
        duplicated_text: None,
        affected_skills: None,
    }
}

// ── Copies ──────────────────────────────────────────────────────────────────────

/// A copy of the list `v`.
pub(crate) fn copy_strings(v: &Vec<String>) -> (r: Vec<String>)
    ensures
        string_views(r@) == string_views(v@),
{
    let mut out: Vec<String> = Vec::new();
    let mut i: usize = 0;
    while i < v.len()
        invariant
            i <= v@.len(),
            string_views(out@) == string_views(v@).subrange(0, i as int),
        decreases v@.len() - i,
    {
        let ghost before = out@;
        let s = v[i].clone();
        out.push(s);
        proof {
            assert(string_views(out@) =~= string_views(before).push(s@));
            assert(string_views(v@).subrange(0, i + 1) =~= string_views(v@).subrange(0, i as int).push(v@[i as int]@));
        }
        i += 1;
    }
    proof {
        assert(string_views(v@).subrange(0, v@.len() as int) =~= string_views(v@));
    }
    out
}

/// A copy of the optional text `o`.
pub(crate) fn copy_opt(o: &Option<String>) -> (r: Option<String>)
    ensures
        crate::parse::opt_view(r) == crate::parse::opt_view(*o),
{
    match o {
        Some(s) => Some(s.clone()),
        None => None,
    }
}

/// A copy of the diagnostic `d`.
pub(crate) fn copy_diagnostic(d: &Diagnostic) -> (r: Diagnostic)
    ensures
        r@ == d@,
{
    let affected_skills = match &d.affected_skills {
        Some(v) => Some(copy_strings(v)),
        None => None,
    };
    Diagnostic {
        rule: d.rule.clone(),
        severity: d.severity,
        skill: d.skill.clone(),
        message: d.message.clone(),
        path: copy_opt(&d.path),
        line: d.line,
        col: d.col,
        duplicated_text: copy_opt(&d.duplicated_text),
        affected_skills,
    }
}

// ── Options and output ────────────────────────────────────────────────────────

/// Output format for lint results.
#[derive(Debug, Clone, Copy, PartialEq, Eq, Structural)]
pub enum OutputFormat {
    /// Default coloured text output.
    Text,
    /// Machine-parseable JSON array.
    Json,
    /// Suppress all output (useful for benchmarks and programmatic use).
    Silent,
}

impl Default for OutputFormat {
    /// Text output.
    fn default() -> (r: Self)
        ensures
            r == OutputFormat::Text,
    {
        OutputFormat::Text
    }
}

/// Options controlling lint behaviour.
#[non_exhaustive]
#[derive(Debug)]
pub struct LintOptions {
    /// Promote all warnings to errors.
    pub strict: bool,
    /// Show info-level diagnostics.
    pub pedantic: bool,
    /// Output format.
    pub format: OutputFormat,
    /// Single-skill mode: lint only this skill, skipping workspace rules.
    pub skill: Option<String>,
    /// Single-file mode: lint only this `.pan` file, skipping workspace rules.
    pub file_path: Option<String>,
    /// Print elapsed time per phase and total to stdout after results.
    pub verbose: bool,
}

impl LintOptions {
    /// Creates options with the given strictness, pedantry and format, for
    /// the whole workspace.
    pub fn new(strict: bool, pedantic: bool, format: OutputFormat) -> (r: Self)
        ensures
            r.strict == strict,
            r.pedantic == pedantic,
            r.format == format,
            r.skill is None,
            r.file_path is None,
            !r.verbose,
    {
        LintOptions { strict, pedantic, format, skill: None, file_path: None, verbose: false }
    }
}

impl Default for LintOptions {
    /// Options for the whole workspace, neither strict nor pedantic, with
    /// text output.
    fn default() -> (r: Self)
        ensures
            !r.strict,
            !r.pedantic,
            r.format == OutputFormat::Text,
            r.skill is None,
            r.file_path is None,
            !r.verbose,
    {
        LintOptions::new(false, false, OutputFormat::Text)
    }
}

/// Result of a [`lint`] run.
#[derive(Debug)]
pub struct LintOutput {
    /// All diagnostics produced, before severity promotion or filtering.
    pub diagnostics: Vec<Diagnostic>,
    /// Recomputed MinHash signatures `(skill_name, signature)` that the caller
    /// should write back to the lockfile.
    pub updated_minhash: Vec<(String, Vec<u64>)>,
}

// ── Pipeline stages ───────────────────────────────────────────────────────────

/// The source text of skill `n`: what the caller read, or nothing.
pub open spec fn raw_text(raws: Map<Seq<char>, String>, n: Seq<char>) -> Seq<char> {
    if raws.contains_key(n) {
        raws[n]@
    } else {
        Seq::empty()
    }
}

/// `cs` is skill `s` with source `raw` carried through the check and the
/// compiler, with token counts from `count_tokens`.
pub open spec fn compiled_with<F: Fn(&str, &str) -> u32>(
    cs: CompiledSkill,
    ws: &Workspace,
    s: Skill,
    raw: Seq<char>,
    count_tokens: F,
) -> bool {
    let b = encode_utf8(raw);
    &&& cs.name@ == s.name@
    &&& cs.source_path@ == s.source_path@
    &&& cs.raw@ == raw
    &&& diags_view(cs.check_diags@) == check_spec(ws, string_views(s.files@).to_set(), b)
    &&& cs.output.text@ == compiled_text(ws, b)
    &&& string_views(cs.output.fragments_used@) == compiler_used_fragments(ws, spec_parse(body_bytes(b)).0)
    &&& cs.output.activation_tokens == token_count(count_tokens, cs.output.text@, ws.tokenizer@)
    &&& cs.output.discovery_tokens == token_count(count_tokens, discovery_text(raw), ws.tokenizer@)
}

/// Carries one skill, whose source text is `raw`, through the check and the
/// compiler.
pub fn compile_skill<F: Fn(&str, &str) -> u32>(
    skill: &Skill,
    ws: &Workspace,
    raw: &str,
    count_tokens: &F,
) -> (r: CompiledSkill)
    requires
        ws.wf(),
        encode_utf8(raw@).len() < u32::MAX,
        forall|t: &str, m: &str| count_tokens.requires((t, m)),
        gives_one_count(*count_tokens),
    ensures
        compiled_with(r, ws, *skill, raw@, *count_tokens),
{
    let source = PanSource::new(String::from_str(raw));
    let known_files = ws.get_source_files_for_skill(skill);
    let check_diags = check_source_file(ws, &source, &known_files);
    let output = compile(ws, &source, count_tokens);
    proof {
        lemma_counted_is_count(*count_tokens, output.text@, ws.tokenizer@, output.activation_tokens);
        lemma_counted_is_count(*count_tokens, discovery_text(raw@), ws.tokenizer@, output.discovery_tokens);
    }
    CompiledSkill {
        name: skill.name.clone(),
        source_path: skill.source_path.clone(),
        raw: String::from_str(raw),
        check_diags,
        output,
    }
}

// ── Targets ───────────────────────────────────────────────────────────────────

/// Whether `opts` asks for skill `s`: the skill whose source is the given
/// file (relative to the workspace root unless absolute), the skill of the
/// given name, or every skill.
pub open spec fn wanted(ws: &Workspace, opts: &LintOptions, s: Skill) -> bool {
    match opts.file_path {
        Some(p) => s.source_path@ == joined(ws.root@, p@),
        None => match opts.skill {
            Some(n) => s.name@ == n@,
            None => true,
        },
    }
}

/// The skills of `vs` that `opts` asks for, in order.
pub open spec fn lint_targets(ws: &Workspace, opts: &LintOptions, vs: Seq<Skill>) -> Seq<Skill>
    decreases vs.len(),
{
    if vs.len() == 0 {
        Seq::empty()
    } else {
        lint_targets(ws, opts, vs.drop_last()) + if wanted(ws, opts, vs.last()) {
            seq![vs.last()]
        } else {
            Seq::empty()
        }
    }
}

/// Whether the whole workspace is linted, with the workspace rules.
pub open spec fn whole_workspace(opts: &LintOptions) -> bool {
    opts.file_path is None && opts.skill is None
}

/// `cs` are the target skills of `opts`, each carried through the check and
/// the compiler.
pub open spec fn compiled_targets<F: Fn(&str, &str) -> u32>(
    ws: &Workspace,
    opts: &LintOptions,
    raws: Map<Seq<char>, String>,
    count_tokens: F,
    cs: Seq<CompiledSkill>,
) -> bool {
    let ts = lint_targets(ws, opts, ws.skills.val_seq());
    &&& cs.len() == ts.len()
    &&& forall|i: int|
        0 <= i < cs.len() ==> compiled_with(#[trigger] cs[i], ws, ts[i], raw_text(raws, ts[i].name@), count_tokens)
}

// ── Per-skill rules ───────────────────────────────────────────────────────────

/// The rule slug of a referential-integrity finding of kind `k`.
pub open spec fn check_rule(k: CheckKind) -> Seq<char> {
    match k {
        CheckKind::Fragment => "stale-fragment-ref"@,
        CheckKind::PathRef => "stale-path-ref"@,
        CheckKind::Command => "stale-command-ref"@,
        CheckKind::Skill => "stale-skill-ref"@,
        CheckKind::Var => "stale-var-ref"@,
        CheckKind::Env => "stale-env-ref"@,
    }
}

/// The lint severity of a check severity.
pub open spec fn lint_severity(s: CheckSeverity) -> Severity {
    match s {
        CheckSeverity::Error => Severity::Error,
        CheckSeverity::Warning => Severity::Warning,
    }
}

/// A referential-integrity finding `d` of skill `skill` in the file `path`,
/// as a lint finding.
pub open spec fn from_check(skill: Seq<char>, path: Seq<char>, d: CheckDiagView) -> DiagnosticView {
    located(
        lint_severity(d.severity),
        skill,
        check_rule(d.kind),
        d.message,
        Some(path),
        Some(d.line as u32),
        Some(d.col as u32),
    )
}

/// Maps a referential-integrity [`CheckDiag`] onto a lint [`Diagnostic`],
/// deriving the rule slug from its [`CheckKind`].
pub fn diag_from_check(skill: &str, path: &str, d: &CheckDiag) -> (r: Diagnostic)
    ensures
        r@ == from_check(skill@, path@, d@),
{
    let rule = match d.kind {
        CheckKind::Fragment => "stale-fragment-ref",
        CheckKind::PathRef => "stale-path-ref",
        CheckKind::Command => "stale-command-ref",
        CheckKind::Skill => "stale-skill-ref",
        CheckKind::Var => "stale-var-ref",
        CheckKind::Env => "stale-env-ref",
    };
    let severity = match d.severity {
        CheckSeverity::Error => Severity::Error,
        CheckSeverity::Warning => Severity::Warning,
    };
    diag_located(
        severity,
        skill,
        rule,
        d.message.clone(),
        Some(String::from_str(path)),
        Some(d.line),
        Some(d.col),
    )
}

/// The findings of the per-skill rules for the compiled skill `cs`, with the
/// workspace's skill names `names`.
pub open spec fn skill_rule_diags(cs: CompiledSkill, config: &SkilletConfig, names: Seq<Seq<char>>) -> Seq<
    DiagnosticView,
> {
    let path = cs.source_path@;
    frontmatter_diags(cs.name@, cs.raw@) + diags_view(cs.check_diags@).map_values(
        |d: CheckDiagView| from_check(cs.name@, path, d),
    ) + untyped_diags(cs.name@, path, encode_utf8(cs.raw@), names) + oversized_skill_diags(
        cs.name@,
        cs.output.activation_tokens,
        config.lint.max_activation_tokens,
    ) + oversized_description_diags(cs.name@, cs.output.discovery_tokens, config.lint.max_discovery_tokens)
}

/// The findings of the per-skill rules for each of the compiled skills.
pub open spec fn all_skill_diags(cs: Seq<CompiledSkill>, config: &SkilletConfig, names: Seq<Seq<char>>) -> Seq<
    DiagnosticView,
>
    decreases cs.len(),
{
    if cs.len() == 0 {
        Seq::empty()
    } else {
        all_skill_diags(cs.drop_last(), config, names) + skill_rule_diags(cs.last(), config, names)
    }
}

/// Runs the per-skill rules on one compiled skill.
fn lint_skill_rules(cs: &CompiledSkill, config: &SkilletConfig, skill_names: &Vec<&str>) -> (r: Vec<Diagnostic>)
    requires
        encode_utf8(cs.raw@).len() < u32::MAX,
    ensures
        diag_views(r@) == skill_rule_diags(*cs, config, str_views(skill_names@)),
{
    let mut diags = rules::invalid_frontmatter::check(cs.name.as_str(), cs.raw.as_str());
    let file_path = cs.source_path.as_str();
    let ghost cd = diags_view(cs.check_diags@);
    let ghost start = diag_views(diags@);
    let mut i: usize = 0;
    while i < cs.check_diags.len()
        invariant
            cd == diags_view(cs.check_diags@),
            i <= cs.check_diags@.len(),
            diag_views(diags@) == start + cd.subrange(0, i as int).map_values(
                |d: CheckDiagView| from_check(cs.name@, file_path@, d),
            ),
        decreases cs.check_diags@.len() - i,
    {
        let ghost before = diags@;
        let d = diag_from_check(cs.name.as_str(), file_path, &cs.check_diags[i]);
        diags.push(d);
        proof {
            assert(cd[i as int] == cs.check_diags@[i as int]@);
            assert(diag_views(diags@) =~= diag_views(before).push(d@));
            assert(cd.subrange(0, i + 1) =~= cd.subrange(0, i as int).push(cd[i as int]));
            assert(diag_views(diags@) =~= start + cd.subrange(0, i + 1).map_values(
                |d: CheckDiagView| from_check(cs.name@, file_path@, d),
            ));
        }
        i += 1;
    }
    proof {
        assert(cd.subrange(0, cs.check_diags@.len() as int) =~= cd);
    }
    let ghost after_check = diag_views(diags@);
    let mut untyped = rules::untyped_backtick::check(cs.name.as_str(), file_path, cs.raw.as_str(), skill_names.as_slice());
    let ghost u = diag_views(untyped@);
    diags.append(&mut untyped);
    let ghost after_untyped = diag_views(diags@);
    proof {
        assert(after_untyped =~= after_check + u);
    }
    let mut big = rules::oversized::check_skill(cs, config);
    let ghost b = diag_views(big@);
    diags.append(&mut big);
    let ghost after_big = diag_views(diags@);
    proof {
        assert(after_big =~= after_untyped + b);
    }
    let mut long = rules::oversized::check_description(cs, config);
    let ghost l = diag_views(long@);
    diags.append(&mut long);
    proof {
        assert(diag_views(diags@) =~= after_big + l);
    }
    diags
}

// ── Workspace rules ───────────────────────────────────────────────────────────

/// The compiled text of each compiled skill, by name.
pub open spec fn text_map(cs: Seq<CompiledSkill>) -> Map<Seq<char>, Seq<char>>
    decreases cs.len(),
{
    if cs.len() == 0 {
        Map::empty()
    } else {
        text_map(cs.drop_last()).insert(cs.last().name@, cs.last().output.text@)
    }
}

/// What the duplication rule gives for the compiled skills `cs`: the texts
/// by skill name, in name order.
pub open spec fn duplication_result(lock: &Lockfile, cs: Seq<CompiledSkill>) -> (
    Seq<DiagnosticView>,
    Seq<(Seq<char>, Seq<u64>)>,
) {
    let m = text_map(cs);
    let names = sorted_members(m.dom());
    duplication_spec(lock, names, names.map_values(|n: Seq<char>| m[n]))
}

/// The findings of the workspace rules for the compiled skills `cs`.
pub open spec fn workspace_rule_diags(
    cs: Seq<CompiledSkill>,
    ws: &Workspace,
    config: &SkilletConfig,
    lock: &Lockfile,
) -> Seq<DiagnosticView> {
    unused_diags(ws.raw_fragments.key_seq(), used_fragments(cs)) + fragment_diags(
        ws.fragment_tokens.key_seq(),
        ws.fragment_tokens.val_seq(),
        config.lint.max_fragment_tokens,
    ) + duplication_result(lock, cs).0
}

/// Every signature the lockfile caches has its [`NHASH`] values.
pub open spec fn minhash_ok(lock: &Lockfile) -> bool {
    forall|n: Seq<char>|
        #[trigger] lock.skills@.contains_key(n) && lock.skills@[n].minhash@.len() > 0 ==> lock.skills@[n].minhash@.len()
            >= NHASH
}

/// The compiled texts of the skills, by name.
fn text_context(compiled: &Vec<CompiledSkill>) -> (r: LintContext)
    ensures
        r.compiled_texts.wf(),
        r.compiled_texts@.dom() == text_map(compiled@).dom(),
        forall|n: Seq<char>|
            #[trigger] r.compiled_texts@.contains_key(n) ==> r.compiled_texts@[n]@ == text_map(compiled@)[n],
{
    let mut texts: StrMap<String> = StrMap::new();
    let mut i: usize = 0;
    proof {
        assert(texts@.dom() =~= text_map(compiled@.subrange(0, 0)).dom());
    }
    while i < compiled.len()
        invariant
            texts.wf(),
            i <= compiled@.len(),
            texts@.dom() == text_map(compiled@.subrange(0, i as int)).dom(),
            forall|n: Seq<char>|
                #[trigger] texts@.contains_key(n) ==> texts@[n]@ == text_map(compiled@.subrange(0, i as int))[n],
        decreases compiled@.len() - i,
    {
        let t = compiled[i].output.text.clone();
        texts.insert(compiled[i].name.clone(), t);
        proof {
            assert(compiled@.subrange(0, i + 1).drop_last() =~= compiled@.subrange(0, i as int));
            assert(compiled@.subrange(0, i + 1).last() == compiled@[i as int]);
            assert(texts@.dom() =~= text_map(compiled@.subrange(0, i + 1)).dom());
        }
        i += 1;
    }
    proof {
        assert(compiled@.subrange(0, compiled@.len() as int) =~= compiled@);
    }
    LintContext { compiled_texts: texts }
}

/// The keys of a map in order are its sorted members, and its values in key
/// order are the values of those keys.
proof fn lemma_context_order(ctx: &LintContext, m: Map<Seq<char>, Seq<char>>)
    requires
        ctx.compiled_texts.wf(),
        ctx.compiled_texts@.dom() == m.dom(),
        forall|n: Seq<char>| #[trigger] ctx.compiled_texts@.contains_key(n) ==> ctx.compiled_texts@[n]@ == m[n],
    ensures
        ctx.compiled_texts.key_seq() == sorted_members(m.dom()),
        string_views(ctx.compiled_texts.val_seq()) == sorted_members(m.dom()).map_values(|n: Seq<char>| m[n]),
{
    let t = &ctx.compiled_texts;
    t.lemma_entries();
    let ks = t.key_seq();
    assert(ks.to_set() =~= m.dom()) by {
        assert forall|k: Seq<char>| ks.to_set().contains(k) <==> m.dom().contains(k) by {
            assert(t@.contains_key(k) <==> ks.contains(k));
        }
    }
    assert(exists|v: Seq<Seq<char>>| crate::collections::sorted_keys(v) && v.to_set() == m.dom());
    crate::collections::lemma_sorted_unique(sorted_members(m.dom()), ks);
    assert(string_views(t.val_seq()) =~= ks.map_values(|n: Seq<char>| m[n])) by {
        assert forall|i: int| 0 <= i < ks.len() implies #[trigger] string_views(t.val_seq())[i] == m[ks[i]] by {
            assert(t@[ks[i]] == t.val_seq()[i]);
            assert(ks.contains(ks[i]));
        }
    }
}

/// Runs the workspace rules: unused fragments, oversized fragments and
/// cross-skill duplication.
fn lint_workspace_rules(
    compiled: &Vec<CompiledSkill>,
    ws: &Workspace,
    config: &SkilletConfig,
    lockfile: &Lockfile,
) -> (r: (Vec<Diagnostic>, Vec<(String, Vec<u64>)>))
    requires
        ws.wf(),
        lockfile.wf(),
        minhash_ok(lockfile),
        forall|i: int| 0 <= i < compiled@.len() ==> strip_ok(#[trigger] compiled@[i].output.text@),
    ensures
        diag_views(r.0@) == workspace_rule_diags(compiled@, ws, config, lockfile),
        rules::duplication::named_sig_views(r.1@) == duplication_result(lockfile, compiled@).1,
{
    let mut diags = rules::unused_fragment::check(compiled, ws);
    let ghost a = diag_views(diags@);
    let mut sized = rules::oversized::check_fragments(ws, config);
    let ghost b = diag_views(sized@);
    diags.append(&mut sized);
    let ctx = text_context(compiled);
    let ghost m = text_map(compiled@);
    proof {
        lemma_context_order(&ctx, m);
        lemma_text_map_ok(compiled@);
        let names = ctx.compiled_texts.key_seq();
        let tv = string_views(ctx.compiled_texts.val_seq());
        ctx.compiled_texts.lemma_entries();
        assert forall|i: int| 0 <= i < names.len() implies strip_ok(#[trigger] tv[i]) by {
            assert(ctx.compiled_texts@[names[i]] == ctx.compiled_texts.val_seq()[i]);
            assert(ctx.compiled_texts@.contains_key(names[i]));
        }
        assert forall|i: int| 0 <= i < names.len() implies (#[trigger] sig_of(lockfile, names[i], tv[i])).len() >= NHASH by {
            if lockfile.skills@.contains_key(names[i]) {
                assert(minhash_ok(lockfile));
            }
        }
    }
    let (mut dup, updated) = rules::duplication::check(lockfile, &ctx);
    let ghost c = diag_views(dup@);
    diags.append(&mut dup);
    proof {
        assert(diag_views(diags@) =~= a + b + c);
    }
    (diags, updated)
}

/// Every compiled text that the compiled skills hold is one whose front
/// matter can be cut.
proof fn lemma_text_map_ok(cs: Seq<CompiledSkill>)
    requires
        forall|i: int| 0 <= i < cs.len() ==> strip_ok(#[trigger] cs[i].output.text@),
    ensures
        forall|n: Seq<char>| #[trigger] text_map(cs).contains_key(n) ==> strip_ok(text_map(cs)[n]),
    decreases cs.len(),
{
    if cs.len() > 0 {
        let d = cs.drop_last();
        assert forall|i: int| 0 <= i < d.len() implies strip_ok(#[trigger] d[i].output.text@) by {
            assert(d[i] == cs[i]);
        }
        lemma_text_map_ok(d);
        let last = cs[cs.len() - 1];
        assert(strip_ok(last.output.text@));
        assert forall|n: Seq<char>| #[trigger] text_map(cs).contains_key(n) implies strip_ok(text_map(cs)[n]) by {
            if n != last.name@ {
                assert(text_map(d).contains_key(n));
            }
        }
    }
}

// ── Stale builds ──────────────────────────────────────────────────────────────

/// The `stale-build` findings for the skills `names` (in order): each reason
/// of each stale one, for every skill when the whole workspace is linted and
/// for the target skills otherwise.
pub open spec fn stale_diags(
    ws: &Workspace,
    lock: &Lockfile,
    disk: &DiskState,
    names: Seq<Seq<char>>,
    all: bool,
    targets: Set<Seq<char>>,
) -> Seq<DiagnosticView>
    decreases names.len(),
{
    if names.len() == 0 {
        Seq::empty()
    } else {
        let n = names.last();
        let v = expected_result(ws, lock, disk, n);
        stale_diags(ws, lock, disk, names.drop_last(), all, targets) + if !v.fresh && (all || targets.contains(n)) {
            v.reasons.map_values(|m: Seq<char>| plain(Severity::Error, n, "stale-build"@, m))
        } else {
            Seq::empty()
        }
    }
}

/// Produces `stale-build` diagnostics from the freshness report.
fn stale_build_diags(
    ws: &Workspace,
    lockfile: &Lockfile,
    disk: &DiskState,
    target_names: &StrSet,
    run_workspace_rules: bool,
) -> (r: Vec<Diagnostic>)
    requires
        ws.wf(),
        lockfile.wf(),
        disk.wf(),
        target_names.wf(),
    ensures
        diag_views(r@) == stale_diags(
            ws,
            lockfile,
            disk,
            sorted_members(ws.skills@.dom().union(lockfile.skills@.dom())),
            run_workspace_rules,
            target_names@,
        ),
{
    let report = verify(ws, lockfile, disk);
    let ghost names = result_names(report.skills@);
    proof {
        assert(exists|v: Seq<Seq<char>>| crate::collections::sorted_keys(v) && v.to_set() == ws.skills@.dom().union(lockfile.skills@.dom()));
        crate::collections::lemma_sorted_unique(sorted_members(ws.skills@.dom().union(lockfile.skills@.dom())), names);
    }
    let mut out: Vec<Diagnostic> = Vec::new();
    let mut i: usize = 0;
    while i < report.skills.len()
        invariant
            names == result_names(report.skills@),
            target_names.wf(),
            i <= report.skills@.len(),
            forall|k: int|
                0 <= k < report.skills@.len() ==> #[trigger] report.skills@[k]@ == expected_result(
                    ws,
                    lockfile,
                    disk,
                    report.skills@[k].name@,
                ),
            diag_views(out@) == stale_diags(
                ws,
                lockfile,
                disk,
                names.subrange(0, i as int),
                run_workspace_rules,
                target_names@,
            ),
        decreases report.skills@.len() - i,
    {
        let r = &report.skills[i];
        let ghost base = diag_views(out@);
        let ghost n = r.name@;
        let ghost reasons = crate::collections::string_views(r.reasons@);
        proof {
            assert(names.subrange(0, i + 1).drop_last() =~= names.subrange(0, i as int));
            assert(names.subrange(0, i + 1).last() == n);
            assert(r@ == expected_result(ws, lockfile, disk, n));
        }
        if !r.fresh && (run_workspace_rules || target_names.contains(r.name.as_str())) {
            let mut j: usize = 0;
            while j < r.reasons.len()
                invariant
                    reasons == crate::collections::string_views(r.reasons@),
                    n == r.name@,
                    j <= r.reasons@.len(),
                    diag_views(out@) == base + reasons.subrange(0, j as int).map_values(
                        |m: Seq<char>| plain(Severity::Error, n, "stale-build"@, m),
                    ),
                decreases r.reasons@.len() - j,
            {
                let ghost before = out@;
                let d = diag(Severity::Error, r.name.as_str(), "stale-build", r.reasons[j].clone());
                out.push(d);
                proof {
                    assert(reasons[j as int] == r.reasons@[j as int]@);
                    assert(d@ == plain(Severity::Error, n, "stale-build"@, reasons[j as int]));
                    assert(diag_views(out@) =~= diag_views(before).push(d@));
                    assert(reasons.subrange(0, j + 1) =~= reasons.subrange(0, j as int).push(reasons[j as int]));
                    assert(diag_views(out@) =~= base + reasons.subrange(0, j + 1).map_values(
                        |m: Seq<char>| plain(Severity::Error, n, "stale-build"@, m),
                    ));
                }
                j += 1;
            }
            proof {
                assert(reasons.subrange(0, r.reasons@.len() as int) =~= reasons);
            }
        } else {
            proof {
                assert(base + Seq::<DiagnosticView>::empty() =~= base);
            }
        }
        i += 1;
    }
    proof {
        assert(names.subrange(0, report.skills@.len() as int) =~= names);
    }
    out
}

// ── Entry point ───────────────────────────────────────────────────────────────

/// The names of the compiled skills.
pub open spec fn compiled_names(cs: Seq<CompiledSkill>) -> Set<Seq<char>> {
    cs.map_values(|c: CompiledSkill| c.name@).to_set()
}

/// What [`lint`] reports for the compiled target skills `cs`: the per-skill
/// findings, then the workspace findings when the whole workspace is
/// linted, then the `stale-build` findings.
pub open spec fn lint_diags(
    ws: &Workspace,
    lock: &Lockfile,
    config: &SkilletConfig,
    opts: &LintOptions,
    disk: &DiskState,
    cs: Seq<CompiledSkill>,
) -> Seq<DiagnosticView> {
    let all = whole_workspace(opts);
    all_skill_diags(cs, config, ws.skills.key_seq()) + (if all {
        workspace_rule_diags(cs, ws, config, lock)
    } else {
        Seq::empty()
    }) + stale_diags(
        ws,
        lock,
        disk,
        sorted_members(ws.skills@.dom().union(lock.skills@.dom())),
        all,
        compiled_names(cs),
    )
}

/// The signatures that [`lint`] reports for writing back: those that the
/// duplication rule computed, when the whole workspace is linted.
pub open spec fn lint_signatures(lock: &Lockfile, opts: &LintOptions, cs: Seq<CompiledSkill>) -> Seq<
    (Seq<char>, Seq<u64>),
> {
    if whole_workspace(opts) {
        duplication_result(lock, cs).1
    } else {
        Seq::empty()
    }
}

/// Every source fits the `u32` offsets of the parser, and every compiled
/// text has a front matter that the duplication rule can cut.
pub open spec fn sources_ok(ws: &Workspace, raws: Map<Seq<char>, String>) -> bool {
    &&& forall|k: Seq<char>| #[trigger] raws.contains_key(k) ==> encode_utf8(raws[k]@).len() < u32::MAX
    &&& forall|k: Seq<char>|
        #[trigger] ws.skills@.contains_key(k) ==> strip_ok(
            compiled_text(ws, encode_utf8(raw_text(raws, ws.skills@[k].name@))),
        )
}

/// The skill names of the workspace, in order.
fn skill_name_strs(ws: &Workspace) -> (r: Vec<&str>)
    requires
        ws.skills.wf(),
    ensures
        str_views(r@) == ws.skills.key_seq(),
{
    let n = ws.skills.len();
    let mut names: Vec<&str> = Vec::new();
    let mut i: usize = 0;
    while i < n
        invariant
            ws.skills.wf(),
            n == ws.skills.key_seq().len(),
            i <= n,
            str_views(names@) == ws.skills.key_seq().subrange(0, i as int),
        decreases n - i,
    {
        let ghost before = names@;
        let k = ws.skills.key_at(i).as_str();
        names.push(k);
        proof {
            assert(str_views(names@) =~= str_views(before).push(k@));
            assert(ws.skills.key_seq().subrange(0, i + 1) =~= ws.skills.key_seq().subrange(0, i as int).push(
                ws.skills.key_seq()[i as int],
            ));
        }
        i += 1;
    }
    proof {
        assert(ws.skills.key_seq().subrange(0, n as int) =~= ws.skills.key_seq());
    }
    names
}

/// Runs all lint rules over the workspace.
///
/// Selects the target skills from `opts` (single file, single skill, or the
/// whole workspace), carries each through the check and the compiler (its
/// source from `raws`, by skill name; token counts from `count_tokens`), then
/// runs the lint-specific rules, and the workspace rules when the whole
/// workspace is linted. `stale-build` findings come from the freshness check
/// against the files in `disk`. Severity promotion, filtering, rendering and
/// the lockfile writeback are the caller's part.
pub fn lint<F: Fn(&str, &str) -> u32>(
    ws: &Workspace,
    lockfile: &Lockfile,
    config: &SkilletConfig,
    opts: &LintOptions,
    raws: &StrMap<String>,
    disk: &DiskState,
    count_tokens: &F,
) -> (r: LintOutput)
    requires
        ws.wf(),
        lockfile.wf(),
        raws.wf(),
        disk.wf(),
        minhash_ok(lockfile),
        sources_ok(ws, raws@),
        forall|t: &str, m: &str| count_tokens.requires((t, m)),
        gives_one_count(*count_tokens),
    ensures
        exists|cs: Seq<CompiledSkill>|
            #[trigger] compiled_targets(ws, opts, raws@, *count_tokens, cs) && diag_views(r.diagnostics@)
                == lint_diags(ws, lockfile, config, opts, disk, cs) && rules::duplication::named_sig_views(
                r.updated_minhash@,
            ) == lint_signatures(lockfile, opts, cs),
{
    let abs = match &opts.file_path {
        Some(p) => Some(crate::freshness::join_path(ws.root.as_str(), p.as_str())),
        None => None,
    };
    let ghost vs = ws.skills.val_seq();
    let ghost ks = ws.skills.key_seq();
    proof {
        ws.skills.lemma_entries();
    }
    let n = ws.skills.len();
    let mut compiled: Vec<CompiledSkill> = Vec::new();
    let mut target_names = StrSet::new();
    let mut i: usize = 0;
    proof {
        assert(vs.subrange(0, 0).len() == 0);
        assert(compiled@.map_values(|c: CompiledSkill| c.name@).to_set() =~= Set::<Seq<char>>::empty());
    }
    while i < n
        invariant
            ws.wf(),
            raws.wf(),
            sources_ok(ws, raws@),
            forall|t: &str, m: &str| count_tokens.requires((t, m)),
            gives_one_count(*count_tokens),
            vs == ws.skills.val_seq(),
            ks == ws.skills.key_seq(),
            n == vs.len(),
            n == ks.len(),
            forall|k: int| 0 <= k < ks.len() ==> #[trigger] ws.skills@[ks[k]] == vs[k],
            forall|k: int| 0 <= k < ks.len() ==> ws.skills@.contains_key(#[trigger] ks[k]),
            abs matches Some(a) ==> opts.file_path matches Some(p) && a@ == joined(ws.root@, p@),
            abs is None ==> opts.file_path is None,
            i <= n,
            target_names.wf(),
            target_names@ == compiled_names(compiled@),
            compiled@.len() == lint_targets(ws, opts, vs.subrange(0, i as int)).len(),
            forall|k: int|
                0 <= k < compiled@.len() ==> compiled_with(
                    #[trigger] compiled@[k],
                    ws,
                    lint_targets(ws, opts, vs.subrange(0, i as int))[k],
                    raw_text(raws@, lint_targets(ws, opts, vs.subrange(0, i as int))[k].name@),
                    *count_tokens,
                ),
            forall|k: int| 0 <= k < compiled@.len() ==> strip_ok(#[trigger] compiled@[k].output.text@),
            forall|k: int| 0 <= k < compiled@.len() ==> encode_utf8((#[trigger] compiled@[k]).raw@).len() < u32::MAX,
        decreases n - i,
    {
        let skill = ws.skills.value_at(i);
        let ghost before = lint_targets(ws, opts, vs.subrange(0, i as int));
        proof {
            assert(vs.subrange(0, i + 1).drop_last() =~= vs.subrange(0, i as int));
            assert(vs.subrange(0, i + 1).last() == *skill);
        }
        let want = match &abs {
            Some(a) => crate::text::str_eq(skill.source_path.as_str(), a.as_str()),
            None => match &opts.skill {
                Some(name) => crate::text::str_eq(skill.name.as_str(), name.as_str()),
                None => true,
            },
        };
        if want {
            proof {
                assert(wanted(ws, opts, *skill));
            }
            let raw = match raws.get(skill.name.as_str()) {
                Some(t) => t.as_str(),
                None => "",
            };
            proof {
                reveal_strlit("");
                assert(raw@ == raw_text(raws@, skill.name@));
                assert(ws.skills@[ks[i as int]] == *skill);
                assert(ws.skills@.contains_key(ks[i as int]));
            }
            let cs = compile_skill(skill, ws, raw, count_tokens);
            let ghost old_compiled = compiled@;
            target_names.insert(skill.name.clone());
            compiled.push(cs);
            proof {
                let now = lint_targets(ws, opts, vs.subrange(0, i + 1));
                assert(now == before.push(*skill));
                assert(compiled@ == old_compiled.push(cs));
                assert(compiled@.map_values(|c: CompiledSkill| c.name@) =~= old_compiled.map_values(
                    |c: CompiledSkill| c.name@,
                ).push(cs.name@));
                crate::collections::lemma_push_contains(old_compiled.map_values(|c: CompiledSkill| c.name@), cs.name@);
                assert forall|k: int| 0 <= k < compiled@.len() implies compiled_with(
                    #[trigger] compiled@[k],
                    ws,
                    now[k],
                    raw_text(raws@, now[k].name@),
                    *count_tokens,
                ) by {
                    if k < old_compiled.len() {
                        assert(compiled@[k] == old_compiled[k]);
                        assert(now[k] == before[k]);
                    }
                }
            }
        } else {
            proof {
                assert(!wanted(ws, opts, *skill));
                assert(lint_targets(ws, opts, vs.subrange(0, i + 1)) =~= before);
            }
        }
        i += 1;
    }
    proof {
        assert(vs.subrange(0, n as int) =~= vs);
        assert(compiled_targets(ws, opts, raws@, *count_tokens, compiled@));
    }
    let all = opts.file_path.is_none() && opts.skill.is_none();
    let names = skill_name_strs(ws);
    let mut diagnostics: Vec<Diagnostic> = Vec::new();
    let mut c: usize = 0;
    proof {
        assert(compiled@.subrange(0, 0).len() == 0);
    }
    while c < compiled.len()
        invariant
            str_views(names@) == ws.skills.key_seq(),
            c <= compiled@.len(),
            forall|k: int| 0 <= k < compiled@.len() ==> encode_utf8((#[trigger] compiled@[k]).raw@).len() < u32::MAX,
            diag_views(diagnostics@) == all_skill_diags(compiled@.subrange(0, c as int), config, ws.skills.key_seq()),
        decreases compiled@.len() - c,
    {
        let ghost before = diag_views(diagnostics@);
        let mut found = lint_skill_rules(&compiled[c], config, &names);
        let ghost f = diag_views(found@);
        diagnostics.append(&mut found);
        proof {
            assert(compiled@.subrange(0, c + 1).drop_last() =~= compiled@.subrange(0, c as int));
            assert(compiled@.subrange(0, c + 1).last() == compiled@[c as int]);
            assert(diag_views(diagnostics@) =~= before + f);
        }
        c += 1;
    }
    proof {
        assert(compiled@.subrange(0, compiled@.len() as int) =~= compiled@);
    }
    let ghost skill_part = diag_views(diagnostics@);
    let mut updated: Vec<(String, Vec<u64>)> = Vec::new();
    if all {
        let (mut found, sigs) = lint_workspace_rules(&compiled, ws, config, lockfile);
        let ghost f = diag_views(found@);
        diagnostics.append(&mut found);
        updated = sigs;
        proof {
            assert(diag_views(diagnostics@) =~= skill_part + f);
        }
    } else {
        proof {
            assert(skill_part =~= skill_part + Seq::<DiagnosticView>::empty());
            assert(rules::duplication::named_sig_views(updated@) =~= Seq::<(Seq<char>, Seq<u64>)>::empty());
        }
    }
    let ghost middle = diag_views(diagnostics@);
    let mut stale = stale_build_diags(ws, lockfile, disk, &target_names, all);
    let ghost st = diag_views(stale@);
    diagnostics.append(&mut stale);
    proof {
        assert(diag_views(diagnostics@) =~= middle + st);
        assert(diag_views(diagnostics@) == lint_diags(ws, lockfile, config, opts, disk, compiled@));
    }
    LintOutput { diagnostics, updated_minhash: updated }
}

// ── Severity promotion and filtering ──────────────────────────────────────────

/// The finding `d` under `strict`: a warning becomes an error.
pub open spec fn promoted(d: DiagnosticView, strict: bool) -> DiagnosticView {
    if strict && d.severity == Severity::Warning {
        DiagnosticView {
            rule: d.rule,
            severity: Severity::Error,
            skill: d.skill,
            message: d.message,
            path: d.path,
            line: d.line,
            col: d.col,
            duplicated_text: d.duplicated_text,
            affected_skills: d.affected_skills,
        }
    } else {
        d
    }
}

/// The findings `ds` after the configuration and the flags: those of a
/// disabled rule are dropped, warnings become errors under `strict`, and
/// info findings are dropped unless `pedantic`.
pub open spec fn finalized(ds: Seq<DiagnosticView>, disabled: Seq<Seq<char>>, strict: bool, pedantic: bool) -> Seq<
    DiagnosticView,
>
    decreases ds.len(),
{
    if ds.len() == 0 {
        Seq::empty()
    } else {
        let d = promoted(ds.last(), strict);
        finalized(ds.drop_last(), disabled, strict, pedantic) + if disabled.contains(ds.last().rule) || (!pedantic
            && d.severity == Severity::Info) {
            Seq::empty()
        } else {
            seq![d]
        }
    }
}

/// Whether `v` holds `s`.
fn listed(v: &Vec<String>, s: &str) -> (r: bool)
    ensures
        r == string_views(v@).contains(s@),
{
    let mut i: usize = 0;
    while i < v.len()
        invariant
            i <= v@.len(),
            forall|k: int| 0 <= k < i ==> v@[k]@ != s@,
        decreases v@.len() - i,
    {
        if crate::text::str_eq(v[i].as_str(), s) {
            proof {
                assert(string_views(v@)[i as int] == s@);
            }
            return true;
        }
        i += 1;
    }
    proof {
        if string_views(v@).contains(s@) {
            let k = choose|k: int| 0 <= k < string_views(v@).len() && string_views(v@)[k] == s@;
            assert(v@[k]@ == s@);
        }
    }
    false
}

/// Runs [`lint`] when the sources allow it: each is shorter than `u32::MAX`
/// bytes and each skill's compiled text has front matter that can be cut;
/// `None` when they do not.
pub fn lint_if_cuttable<F: Fn(&str, &str) -> u32>(
    ws: &Workspace,
    lockfile: &Lockfile,
    config: &SkilletConfig,
    opts: &LintOptions,
    raws: &StrMap<String>,
    disk: &DiskState,
    count_tokens: &F,
) -> (r: Option<LintOutput>)
    requires
        ws.wf(),
        lockfile.wf(),
        raws.wf(),
        disk.wf(),
        minhash_ok(lockfile),
        forall|t: &str, m: &str| count_tokens.requires((t, m)),
        gives_one_count(*count_tokens),
    ensures
        r is Some <==> sources_ok(ws, raws@),
        r matches Some(out) ==> exists|cs: Seq<CompiledSkill>|
            #[trigger] compiled_targets(ws, opts, raws@, *count_tokens, cs) && diag_views(out.diagnostics@)
                == lint_diags(ws, lockfile, config, opts, disk, cs) && rules::duplication::named_sig_views(
                out.updated_minhash@,
            ) == lint_signatures(lockfile, opts, cs),
{
    proof {
        raws.lemma_entries();
        ws.skills.lemma_entries();
    }
    let rn = raws.len();
    let mut i: usize = 0;
    while i < rn
        invariant
            raws.wf(),
            rn == raws.key_seq().len(),
            raws.key_seq().len() == raws.val_seq().len(),
            forall|k: int| 0 <= k < raws.key_seq().len() ==> #[trigger] raws@[raws.key_seq()[k]] == raws.val_seq()[k],
            forall|k: Seq<char>| raws@.contains_key(k) <==> raws.key_seq().contains(k),
            i <= rn,
            forall|k: int| 0 <= k < i ==> encode_utf8((#[trigger] raws.val_seq()[k])@).len() < u32::MAX,
        decreases rn - i,
    {
        let raw = raws.value_at(i);
        let len = raw.as_str().as_bytes().len();
        if len >= 4294967295usize {
            proof {
                let key = raws.key_seq()[i as int];
                assert(raws@.contains_key(key) && raws@[key]@ == raw@);
            }
            return None;
        }
        i += 1;
    }
    proof {
        assert forall|k: Seq<char>| #[trigger] raws@.contains_key(k) implies encode_utf8(raws@[k]@).len() < u32::MAX by {
            let j = choose|j: int| 0 <= j < raws.key_seq().len() && raws.key_seq()[j] == k;
            assert(raws@[raws.key_seq()[j]] == raws.val_seq()[j]);
        }
    }
    let n = ws.skills.len();
    let mut j: usize = 0;
    while j < n
        invariant
            ws.wf(),
            raws.wf(),
            n == ws.skills.key_seq().len(),
            ws.skills.key_seq().len() == ws.skills.val_seq().len(),
            forall|k: int|
                0 <= k < ws.skills.key_seq().len() ==> #[trigger] ws.skills@[ws.skills.key_seq()[k]]
                    == ws.skills.val_seq()[k],
            forall|k: Seq<char>| ws.skills@.contains_key(k) <==> ws.skills.key_seq().contains(k),
            forall|k: Seq<char>| #[trigger] raws@.contains_key(k) ==> encode_utf8(raws@[k]@).len() < u32::MAX,
            forall|t: &str, m: &str| count_tokens.requires((t, m)),
            j <= n,
            forall|k: int|
                0 <= k < j ==> strip_ok(
                    compiled_text(ws, encode_utf8(raw_text(raws@, (#[trigger] ws.skills.val_seq()[k]).name@))),
                ),
        decreases n - j,
    {
        let skill = ws.skills.value_at(j);
        let text = match raws.get(skill.name.as_str()) {
            Some(t) => String::from_str(t.as_str()),
            None => String::new(),
        };
        proof {
            assert(text@ == raw_text(raws@, skill.name@));
            if !raws@.contains_key(skill.name@) {
                assert(encode_utf8(Seq::<char>::empty()).len() == 0);
            }
        }
        let src = PanSource::new(text);
        let out = compile(ws, &src, count_tokens);
        if !rules::duplication::frontmatter_cut_ok(out.text.as_str()) {
            proof {
                let key = ws.skills.key_seq()[j as int];
                assert(ws.skills@.contains_key(key));
                assert(ws.skills@[key] == *skill);
            }
            return None;
        }
        j += 1;
    }
    proof {
        assert forall|k: Seq<char>| #[trigger] ws.skills@.contains_key(k) implies strip_ok(
            compiled_text(ws, encode_utf8(raw_text(raws@, ws.skills@[k].name@))),
        ) by {
            let m = choose|m: int| 0 <= m < ws.skills.key_seq().len() && ws.skills.key_seq()[m] == k;
            assert(ws.skills@[ws.skills.key_seq()[m]] == ws.skills.val_seq()[m]);
        }
    }
    Some(lint(ws, lockfile, config, opts, raws, disk, count_tokens))
}

/// Applies the configuration and the flags to the findings of a run: drops
/// those of the rules in `disable`, promotes warnings to errors under
/// `strict`, drops info findings unless `pedantic`; and says whether an
/// error remains.
pub fn finalize(diags: &Vec<Diagnostic>, disable: &Vec<String>, strict: bool, pedantic: bool) -> (r: (
    Vec<Diagnostic>,
    bool,
))
    ensures
        diag_views(r.0@) == finalized(diag_views(diags@), string_views(disable@), strict, pedantic),
        r.1 == exists|i: int| 0 <= i < r.0@.len() && (#[trigger] r.0@[i]).severity == Severity::Error,
{
    let ghost ds = diag_views(diags@);
    let ghost dis = string_views(disable@);
    let mut out: Vec<Diagnostic> = Vec::new();
    let mut has_errors = false;
    let mut i: usize = 0;
    proof {
        assert(ds.subrange(0, 0).len() == 0);
    }
    while i < diags.len()
        invariant
            ds == diag_views(diags@),
            dis == string_views(disable@),
            i <= diags@.len(),
            diag_views(out@) == finalized(ds.subrange(0, i as int), dis, strict, pedantic),
            has_errors == exists|k: int| 0 <= k < out@.len() && (#[trigger] out@[k]).severity == Severity::Error,
        decreases diags@.len() - i,
    {
        let ghost before = out@;
        let mut d = copy_diagnostic(&diags[i]);
        proof {
            assert(ds.subrange(0, i + 1).drop_last() =~= ds.subrange(0, i as int));
            assert(ds.subrange(0, i + 1).last() == ds[i as int]);
            assert(ds[i as int] == d@);
        }
        if !listed(disable, d.rule.as_str()) {
            if strict && d.severity == Severity::Warning {
                d.severity = Severity::Error;
            }
            if pedantic || d.severity != Severity::Info {
                let is_error = d.severity == Severity::Error;
                let ghost dv = d@;
                out.push(d);
                proof {
                    assert(diag_views(out@) =~= diag_views(before).push(dv));
                    assert(out@[before.len() as int].severity == dv.severity);
                    if has_errors {
                        let k = choose|k: int| 0 <= k < before.len() && (#[trigger] before[k]).severity == Severity::Error;
                        assert(out@[k] == before[k]);
                    }
                    assert forall|k: int| 0 <= k < out@.len() && (#[trigger] out@[k]).severity == Severity::Error
                        implies has_errors || is_error by {
                        if k < before.len() {
                            assert(out@[k] == before[k]);
                        }
                    }
                }
                has_errors = has_errors || is_error;
            } else {
                proof {
                    assert(diag_views(out@) =~= diag_views(before) + Seq::<DiagnosticView>::empty());
                }
            }
        } else {
            proof {
                assert(diag_views(out@) =~= diag_views(before) + Seq::<DiagnosticView>::empty());
            }
        }
        i += 1;
    }
    proof {
        assert(ds.subrange(0, diags@.len() as int) =~= ds);
    }
    (out, has_errors)
}

/// Law: after the configuration and the flags are applied, no finding of a
/// disabled rule remains, no warning remains under `strict`, and no info
/// finding remains unless `pedantic`.
pub proof fn lemma_finalized_respects_flags(
    ds: Seq<DiagnosticView>,
    disabled: Seq<Seq<char>>,
    strict: bool,
    pedantic: bool,
)
    ensures
        forall|i: int|
            0 <= i < finalized(ds, disabled, strict, pedantic).len() ==> {
                let d = #[trigger] finalized(ds, disabled, strict, pedantic)[i];
                &&& !disabled.contains(d.rule)
                &&& strict ==> d.severity != Severity::Warning
                &&& !pedantic ==> d.severity != Severity::Info
            },
    decreases ds.len(),
{
    if ds.len() > 0 {
        lemma_finalized_respects_flags(ds.drop_last(), disabled, strict, pedantic);
        let prev = finalized(ds.drop_last(), disabled, strict, pedantic);
        let r = finalized(ds, disabled, strict, pedantic);
        assert forall|i: int| 0 <= i < r.len() implies {
            let d = #[trigger] r[i];
            &&& !disabled.contains(d.rule)
            &&& strict ==> d.severity != Severity::Warning
            &&& !pedantic ==> d.severity != Severity::Info
        } by {
            if i < prev.len() {
                assert(r[i] == prev[i]);
            }
        }
    }
}

// ── Rendering ─────────────────────────────────────────────────────────────────

/// Where a finding is, as the text report shows it after the message.
pub open spec fn location_text(d: DiagnosticView) -> Seq<char> {
    match d.path {
        Some(p) => match d.line {
            Some(l) => match d.col {
                Some(c) => " ("@ + p + ":"@ + decimal(l as nat) + ":"@ + decimal(c as nat) + ")"@,
                None => " ("@ + p + ":"@ + decimal(l as nat) + ")"@,
            },
            None => " ("@ + p + ")"@,
        },
        None => Seq::empty(),
    }
}

/// A finding as the text report shows it after its severity tag:
/// `skill (rule) message (path:line:col)`.
pub open spec fn finding_text(d: DiagnosticView) -> Seq<char> {
    d.skill + " ("@ + d.rule + ") "@ + d.message + location_text(d)
}

/// How many of `ds` have severity `s`.
pub open spec fn severity_count(ds: Seq<DiagnosticView>, s: Severity) -> nat
    decreases ds.len(),
{
    if ds.len() == 0 {
        0
    } else {
        severity_count(ds.drop_last(), s) + if ds.last().severity == s {
            1nat
        } else {
            0nat
        }
    }
}

/// The closing count of the text report: errors and warnings, and infos when
/// there are any.
pub open spec fn summary_text(ds: Seq<DiagnosticView>) -> Seq<char> {
    let head = decimal(severity_count(ds, Severity::Error)) + " error(s), "@ + decimal(
        severity_count(ds, Severity::Warning),
    ) + " warning(s)"@;
    if severity_count(ds, Severity::Info) > 0 {
        head + ", "@ + decimal(severity_count(ds, Severity::Info)) + " info(s)"@
    } else {
        head
    }
}

/// A finding as the text report shows it after its severity tag.
pub fn finding_line(d: &Diagnostic) -> (r: String)
    ensures
        r@ == finding_text(d@),
{
    let head = concat3(d.skill.as_str(), " (", d.rule.as_str());
    let mid = concat3(head.as_str(), ") ", d.message.as_str());
    let loc = match &d.path {
        Some(p) => match d.line {
            Some(l) => {
                let ls = to_decimal(l as u64);
                let a = concat3(" (", p.as_str(), ":");
                let b = concat(a.as_str(), ls.as_str());
                match d.col {
                    Some(c) => {
                        let cs = to_decimal(c as u64);
                        let x = concat3(b.as_str(), ":", cs.as_str());
                        concat(x.as_str(), ")")
                    },
                    None => concat(b.as_str(), ")"),
                }
            },
            None => concat3(" (", p.as_str(), ")"),
        },
        None => String::new(),
    };
    proof {
        reveal_strlit(" (");
        reveal_strlit(") ");
        reveal_strlit(":");
        reveal_strlit(")");
    }
    concat(mid.as_str(), loc.as_str())
}

/// The closing count of the text report.
pub fn summary_line(ds: &Vec<Diagnostic>) -> (r: String)
    ensures
        r@ == summary_text(diag_views(ds@)),
{
    let ghost vs = diag_views(ds@);
    let mut e: usize = 0;
    let mut w: usize = 0;
    let mut n: usize = 0;
    let mut i: usize = 0;
    while i < ds.len()
        invariant
            i <= ds@.len(),
            vs == diag_views(ds@),
            e <= i && w <= i && n <= i,
            e == severity_count(vs.subrange(0, i as int), Severity::Error),
            w == severity_count(vs.subrange(0, i as int), Severity::Warning),
            n == severity_count(vs.subrange(0, i as int), Severity::Info),
        decreases ds@.len() - i,
    {
        proof {
            assert(vs.subrange(0, i + 1).drop_last() =~= vs.subrange(0, i as int));
            assert(vs.subrange(0, i + 1).last() == ds@[i as int]@);
        }
        match ds[i].severity {
            Severity::Error => {
                e = e + 1;
            },
            Severity::Warning => {
                w = w + 1;
            },
            Severity::Info => {
                n = n + 1;
            },
        }
        i = i + 1;
    }
    proof {
        assert(vs.subrange(0, ds@.len() as int) =~= vs);
    }
    let es = to_decimal(e as u64);
    let ws = to_decimal(w as u64);
    let a = concat(es.as_str(), " error(s), ");
    let b = concat3(a.as_str(), ws.as_str(), " warning(s)");
    proof {
        reveal_strlit(" error(s), ");
        reveal_strlit(" warning(s)");
        reveal_strlit(", ");
        reveal_strlit(" info(s)");
    }
    if n > 0 {
        let ns = to_decimal(n as u64);
        let c = concat3(b.as_str(), ", ", ns.as_str());
        concat(c.as_str(), " info(s)")
    } else {
        b
    }
}

} // verus!
