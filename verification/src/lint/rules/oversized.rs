//! Rules: `oversized-skill`, `oversized-description`, `oversized-fragment` —
//! token counts beyond the configured budgets.
use vstd::prelude::*;

use crate::config::SkilletConfig;
use crate::lint::{diag, diag_views, plain, CompiledSkill, Diagnostic, DiagnosticView, Severity};
use crate::text::{decimal, to_decimal};
use crate::workspace::Workspace;

verus! {

/// The activation finding for skill `name` with `tokens` over `limit`.
pub open spec fn skill_diags(name: Seq<char>, tokens: u32, limit: u32) -> Seq<DiagnosticView> {
    if tokens > limit {
        seq![
            plain(
                Severity::Warning,
                name,
                "oversized-skill"@,
                "activation ~"@ + decimal(tokens as nat) + " tokens exceeds limit of "@ + decimal(limit as nat),
            )
        ]
    } else {
        Seq::empty()
    }
}

/// The discovery finding for skill `name` with `tokens` over `limit`.
pub open spec fn description_diags(name: Seq<char>, tokens: u32, limit: u32) -> Seq<DiagnosticView> {
    if tokens > limit {
        seq![
            plain(
                Severity::Warning,
                name,
                "oversized-description"@,
                "discovery ~"@ + decimal(tokens as nat) + " tokens exceeds limit of "@ + decimal(limit as nat),
            )
        ]
    } else {
        Seq::empty()
    }
}

/// Warns when the activation tokens of a compiled skill exceed the limit.
pub fn check_skill(cs: &CompiledSkill, config: &SkilletConfig) -> (r: Vec<Diagnostic>)
    ensures
        diag_views(r@) == skill_diags(cs.name@, cs.output.activation_tokens, config.lint.max_activation_tokens),
{
    let tokens = cs.output.activation_tokens;
    let limit = config.lint.max_activation_tokens;
    let mut out: Vec<Diagnostic> = Vec::new();
    if tokens > limit {
        let mut msg = String::from_str("activation ~");
        msg.append(to_decimal(tokens as u64).as_str());
        msg.append(" tokens exceeds limit of ");
        msg.append(to_decimal(limit as u64).as_str());
        out.push(diag(Severity::Warning, cs.name.as_str(), "oversized-skill", msg));
    }
    proof {
        assert(diag_views(out@) =~= skill_diags(cs.name@, tokens, limit));
    }
    out
}

/// Warns when the discovery tokens of a compiled skill exceed the limit.
pub fn check_description(cs: &CompiledSkill, config: &SkilletConfig) -> (r: Vec<Diagnostic>)
    ensures
        diag_views(r@) == description_diags(cs.name@, cs.output.discovery_tokens, config.lint.max_discovery_tokens),
{
    let tokens = cs.output.discovery_tokens;
    let limit = config.lint.max_discovery_tokens;
    let mut out: Vec<Diagnostic> = Vec::new();
    if tokens > limit {
        let mut msg = String::from_str("discovery ~");
        msg.append(to_decimal(tokens as u64).as_str());
        msg.append(" tokens exceeds limit of ");
        msg.append(to_decimal(limit as u64).as_str());
        out.push(diag(Severity::Warning, cs.name.as_str(), "oversized-description", msg));
    }
    proof {
        assert(diag_views(out@) =~= description_diags(cs.name@, tokens, limit));
    }
    out
}

/// The finding for fragment `f` with `tokens` over `limit`, if any.
pub open spec fn fragment_diag(f: Seq<char>, tokens: u32, limit: u32) -> Seq<DiagnosticView> {
    if tokens > limit {
        seq![
            plain(
                Severity::Warning,
                "<workspace>"@,
                "oversized-fragment"@,
                "fragment '"@ + f + "' is ~"@ + decimal(tokens as nat) + " tokens (limit: "@ + decimal(limit as nat)
                    + ")"@,
            )
        ]
    } else {
        Seq::empty()
    }
}

/// The findings for the fragments `ks` with the counts `vs`, in order.
pub open spec fn fragment_diags(ks: Seq<Seq<char>>, vs: Seq<u32>, limit: u32) -> Seq<DiagnosticView>
    decreases ks.len(),
{
    if ks.len() == 0 || vs.len() < ks.len() {
        Seq::empty()
    } else {
        let j = ks.len() - 1;
        fragment_diags(ks.drop_last(), vs, limit) + fragment_diag(ks[j], vs[j], limit)
    }
}

/// Warns for each fragment whose token count exceeds the limit, in the
/// order of the fragment names.
pub fn check_fragments(ws: &Workspace, config: &SkilletConfig) -> (r: Vec<Diagnostic>)
    requires
        ws.fragment_tokens.wf(),
    ensures
        diag_views(r@) == fragment_diags(
            ws.fragment_tokens.key_seq(),
            ws.fragment_tokens.val_seq(),
            config.lint.max_fragment_tokens,
        ),
{
    let m = &ws.fragment_tokens;
    let ghost ks = m.key_seq();
    let ghost vs = m.val_seq();
    proof {
        m.lemma_entries();
    }
    let limit = config.lint.max_fragment_tokens;
    let n = m.len();
    let mut out: Vec<Diagnostic> = Vec::new();
    let mut i: usize = 0;
    while i < n
        invariant
            m.wf(),
            ks == m.key_seq(),
            vs == m.val_seq(),
            vs.len() == ks.len(),
            n == ks.len(),
            i <= n,
            diag_views(out@) == fragment_diags(ks.subrange(0, i as int), vs, limit),
        decreases n - i,
    {
        let ghost before = out@;
        let f = m.key_at(i);
        let tokens = *m.value_at(i);
        proof {
            assert(ks.subrange(0, i + 1).drop_last() =~= ks.subrange(0, i as int));
            assert(ks.subrange(0, i + 1)[i as int] == ks[i as int]);
        }
        if tokens > limit {
            let mut msg = String::from_str("fragment '");
            msg.append(f.as_str());
            msg.append("' is ~");
            msg.append(to_decimal(tokens as u64).as_str());
            msg.append(" tokens (limit: ");
            msg.append(to_decimal(limit as u64).as_str());
            msg.append(")");
            out.push(diag(Severity::Warning, "<workspace>", "oversized-fragment", msg));
        }
        proof {
            assert(diag_views(out@) =~= fragment_diags(ks.subrange(0, i + 1), vs, limit));
        }
        i += 1;
    }
    proof {
        assert(ks.subrange(0, n as int) =~= ks);
    }
    out
}

} // verus!
