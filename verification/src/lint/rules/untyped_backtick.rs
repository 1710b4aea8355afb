//! Rule: `untyped-backtick` — hints at backtick spans that look like a path,
//! a URL, a skill or a command but carry no `kind::` prefix.
use vstd::prelude::*;
use vstd::string::StringSliceAdditionalSpecFns;

use crate::compiler::parse::spec_parse;
use crate::lint::{diag_located, diag_views, located, Diagnostic, DiagnosticView, Severity};
use crate::refs::{parsed_untyped, untyped_views, ParsedRefs, UntypedRefView};
use crate::text::str_views;

verus! {

/// The hint for an untyped backtick `u` of skill `name` in the file `path`.
pub open spec fn untyped_diag(name: Seq<char>, path: Seq<char>, u: UntypedRefView) -> DiagnosticView {
    located(
        Severity::Info,
        name,
        "untyped-backtick"@,
        "`"@ + u.content + "` looks like a "@ + u.inferred_kind + " — consider `"@ + u.inferred_kind + "::"@
            + u.content + "`"@,
        Some(path),
        Some(u.line),
        Some(u.col),
    )
}

/// The hints for the source `raw`, whose bytes are `b`.
pub open spec fn untyped_diags(
    name: Seq<char>,
    path: Seq<char>,
    b: Seq<u8>,
    skill_names: Seq<Seq<char>>,
) -> Seq<DiagnosticView> {
    parsed_untyped(b, spec_parse(b).0, skill_names).map_values(|u: UntypedRefView| untyped_diag(name, path, u))
}

/// Emits an info hint for each backtick span of `raw` that the ref
/// classifier recognises but that has no `kind::` prefix.
pub fn check(name: &str, file_path: &str, raw: &str, skill_names: &[&str]) -> (r: Vec<Diagnostic>)
    requires
        raw.spec_bytes().len() < u32::MAX,
    ensures
        diag_views(r@) == untyped_diags(name@, file_path@, raw.spec_bytes(), str_views(skill_names@)),
{
    let parsed = ParsedRefs::extract(raw, skill_names);
    let ghost us = untyped_views(parsed.untyped@);
    let mut out: Vec<Diagnostic> = Vec::new();
    let mut i: usize = 0;
    while i < parsed.untyped.len()
        invariant
            us == untyped_views(parsed.untyped@),
            i <= parsed.untyped@.len(),
            diag_views(out@) == us.subrange(0, i as int).map_values(
                |u: UntypedRefView| untyped_diag(name@, file_path@, u),
            ),
        decreases parsed.untyped@.len() - i,
    {
        let u = &parsed.untyped[i];
        let mut msg = String::from_str("`");
        msg.append(u.content.as_str());
        msg.append("` looks like a ");
        msg.append(u.inferred_kind);
        msg.append(" — consider `");
        msg.append(u.inferred_kind);
        msg.append("::");
        msg.append(u.content.as_str());
        msg.append("`");
        let d = diag_located(
            Severity::Info,
            name,
            "untyped-backtick",
            msg,
            Some(String::from_str(file_path)),
            Some(u.line),
            Some(u.col),
        );
        let ghost before = out@;
        out.push(d);
        proof {
            assert(us[i as int] == u@);
            assert(diag_views(out@) =~= diag_views(before).push(d@));
            assert(us.subrange(0, i + 1) =~= us.subrange(0, i as int).push(us[i as int]));
            assert(diag_views(out@) =~= us.subrange(0, i + 1).map_values(
                |u: UntypedRefView| untyped_diag(name@, file_path@, u),
            ));
        }
        i += 1;
    }
    proof {
        assert(us.subrange(0, us.len() as int) =~= us);
    }
    out
}

} // verus!
