//! Rule: `invalid-frontmatter` — a skill source must open with YAML front
//! matter that names the skill (matching its directory) and describes it.
use vstd::prelude::*;

use crate::lint::{diag, diag_views, plain, Diagnostic, DiagnosticView, Severity};
use crate::parse::{parse_frontmatter, spec_parse_frontmatter};
use crate::text::{concat, trim, trim_chars};

verus! {

/// A finding of this rule with message `m` for skill `name`.
pub open spec fn invalid(name: Seq<char>, m: Seq<char>) -> DiagnosticView {
    plain(Severity::Error, name, "invalid-frontmatter"@, m)
}

/// What the `name` field gives for skill `name`.
pub open spec fn name_diags(name: Seq<char>, field: Option<Seq<char>>) -> Seq<DiagnosticView> {
    match field {
        None => seq![invalid(name, "missing 'name' field"@)],
        Some(n) => if n != name {
            seq![invalid(name, "name '"@ + n + "' does not match directory '"@ + name + "'"@)]
        } else {
            Seq::empty()
        },
    }
}

/// What the `description` field gives for skill `name`.
pub open spec fn description_diags(name: Seq<char>, field: Option<Seq<char>>) -> Seq<DiagnosticView> {
    let blank = match field {
        None => true,
        Some(d) => trim_chars(d).len() == 0,
    };
    if blank {
        seq![invalid(name, "missing or empty 'description' field"@)]
    } else {
        Seq::empty()
    }
}

/// The findings for the source `raw` of skill `name`.
pub open spec fn frontmatter_diags(name: Seq<char>, raw: Seq<char>) -> Seq<DiagnosticView> {
    match spec_parse_frontmatter(raw) {
        Err(e) => seq![invalid(name, "failed to parse frontmatter: "@ + e)],
        Ok(None) => seq![invalid(name, "missing frontmatter"@)],
        Ok(Some((n, d))) => name_diags(name, n) + description_diags(name, d),
    }
}

/// Checks that the front matter of the source `raw` of skill `name` parses
/// and has a matching `name` and a non-empty `description`.
pub fn check(name: &str, raw: &str) -> (r: Vec<Diagnostic>)
    ensures
        diag_views(r@) == frontmatter_diags(name@, raw@),
{
    let mut diags: Vec<Diagnostic> = Vec::new();
    match parse_frontmatter(raw) {
        Err(e) => {
            diags.push(
                diag(Severity::Error, name, "invalid-frontmatter", concat("failed to parse frontmatter: ", e.as_str())),
            );
        },
        Ok(None) => {
            diags.push(diag(Severity::Error, name, "invalid-frontmatter", String::from_str("missing frontmatter")));
        },
        Ok(Some(fm)) => {
            match &fm.name {
                None => {
                    diags.push(
                        diag(Severity::Error, name, "invalid-frontmatter", String::from_str("missing 'name' field")),
                    );
                },
                Some(n) => {
                    if !crate::text::str_eq(n.as_str(), name) {
                        let mut msg = String::from_str("name '");
                        msg.append(n.as_str());
                        msg.append("' does not match directory '");
                        msg.append(name);
                        msg.append("'");
                        diags.push(diag(Severity::Error, name, "invalid-frontmatter", msg));
                    }
                },
            }
            let blank = match &fm.description {
                None => true,
                Some(d) => trim(d.as_str()).is_empty(),
            };
            if blank {
                diags.push(
                    diag(
                        Severity::Error,
                        name,
                        "invalid-frontmatter",
                        String::from_str("missing or empty 'description' field"),
                    ),
                );
            }
        },
    }
    proof {
        assert(diag_views(diags@) =~= frontmatter_diags(name@, raw@));
    }
    diags
}

} // verus!
