use skillet::collections::StrMap;
use skillet::lint::rules::duplication::{
    check, check_if_cuttable, compute_minhash, frontmatter_cut_ok, hash_with_seed, normalise, overlap_exceeds, sentences, strip_frontmatter,
};
use skillet::lint::{LintContext, Severity};
use skillet::lockfile::{Lockfile, SkillEntry, SkillRefs};

fn make_ctx(skills: &[(&str, &str)]) -> LintContext {
    let mut compiled_texts = StrMap::new();
    for (name, text) in skills {
        compiled_texts.insert(name.to_string(), text.to_string());
    }
    LintContext { compiled_texts }
}

const SHARED: &str = "First sentence here. Second sentence here. Third sentence here.";

#[test]
fn detects_cross_skill_duplication() {
    let ctx = make_ctx(&[("alpha", &format!("# Alpha\n\n{SHARED}\n")), ("beta", &format!("# Beta\n\n{SHARED}\n"))]);
    let (diags, _sigs) = check(&Lockfile::default(), &ctx);
    assert!(
        diags.iter().any(|d| d.rule == "duplication"
            && d.severity == Severity::Warning
            && d.affected_skills
                .as_ref()
                .map(|v| v.contains(&"alpha".to_string()) && v.contains(&"beta".to_string()))
                .unwrap_or(false)),
        "expected duplication warning, got: {diags:?}"
    );
}

#[test]
fn no_warning_for_single_skill_repetition() {
    let ctx = make_ctx(&[("solo", &format!("# Solo\n\n{SHARED}\n\n{SHARED}\n"))]);
    let (diags, _) = check(&Lockfile::default(), &ctx);
    assert!(diags.is_empty());
}

#[test]
fn no_warning_when_passage_unique_per_skill() {
    let ctx = make_ctx(&[
        ("alpha", "# Alpha\n\nOnly in alpha. Unique text here. Nothing shared with beta."),
        ("beta", "# Beta\n\nOnly in beta. Different content. Completely separate."),
    ]);
    let (diags, _) = check(&Lockfile::default(), &ctx);
    assert!(diags.is_empty());
}

#[test]
fn overlapping_windows_collapsed_to_single_diagnostic() {
    let content = "Sentence one here. Sentence two here. Sentence three here. \
                   Sentence four here. Sentence five here.";
    let ctx = make_ctx(&[("alpha", content), ("beta", content)]);
    let (diags, _) = check(&Lockfile::default(), &ctx);
    assert_eq!(diags.len(), 1, "overlapping windows should collapse to one diagnostic, got: {diags:?}");
}

#[test]
fn three_skills_sharing_same_passage_emit_one_diagnostic() {
    let ctx = make_ctx(&[
        ("alpha", &format!("# A\n\n{SHARED}\n")),
        ("beta", &format!("# B\n\n{SHARED}\n")),
        ("gamma", &format!("# C\n\n{SHARED}\n")),
    ]);
    let (diags, _) = check(&Lockfile::default(), &ctx);
    assert_eq!(diags.len(), 1, "three skills sharing same passage should produce one diagnostic, got: {diags:?}");
    let d = &diags[0];
    let skills = d.affected_skills.as_ref().unwrap();
    assert!(skills.contains(&"alpha".to_string()));
    assert!(skills.contains(&"beta".to_string()));
    assert!(skills.contains(&"gamma".to_string()));
}

#[test]
fn returns_updated_signatures_for_uncached_skills() {
    let ctx = make_ctx(&[("alpha", &format!("# Alpha\n\n{SHARED}\n")), ("beta", &format!("# Beta\n\n{SHARED}\n"))]);
    let (_diags, sigs) = check(&Lockfile::default(), &ctx);
    assert_eq!(sigs.len(), 2);
    assert!(sigs.iter().any(|(name, _)| name == "alpha"));
    assert!(sigs.iter().any(|(name, _)| name == "beta"));
}

#[test]
fn reuses_cached_signatures_from_lockfile() {
    let ctx = make_ctx(&[("alpha", &format!("# Alpha\n\n{SHARED}\n")), ("beta", &format!("# Beta\n\n{SHARED}\n"))]);
    let (_diags, sigs) = check(&Lockfile::default(), &ctx);
    let mut lf = Lockfile::default();
    for (name, sig) in sigs {
        lf.skills.insert(
            name.clone(),
            SkillEntry {
                source_hash: String::new(),
                compiled_hash: String::new(),
                discovery_tokens: 0,
                activation_tokens: 0,
                transitive_tokens: 0,
                fragments_used: vec![],
                refs: SkillRefs::default(),
                minhash: sig,
            },
        );
    }
    let (_diags2, new_sigs) = check(&lf, &ctx);
    assert!(new_sigs.is_empty(), "no new signatures should be computed when cache is warm");
}

#[test]
fn duplication_message_lists_sorted_skills_and_excerpt() {
    let ctx = make_ctx(&[("beta", SHARED), ("alpha", SHARED)]);
    let (diags, _) = check(&Lockfile::default(), &ctx);
    assert_eq!(diags.len(), 1);
    let d = &diags[0];
    assert_eq!(d.skill, "<workspace>");
    assert_eq!(d.affected_skills.as_ref().unwrap(), &vec!["alpha".to_string(), "beta".to_string()]);
    let passage = "first sentence here. second sentence here. third sentence here.";
    assert_eq!(d.duplicated_text.as_deref(), Some(passage));
    assert_eq!(
        d.message,
        format!("passage shared across skills [alpha, beta]: \"{passage}…\" — consider extracting to a fragment")
    );
}

#[test]
fn strip_frontmatter_drops_the_yaml_block() {
    assert_eq!(strip_frontmatter("---\nname: x\n---\nbody"), "body");
    assert_eq!(strip_frontmatter("  ---\nname: x\n  ---  \nrest\n"), "rest\n");
    assert_eq!(strip_frontmatter("no front matter"), "no front matter");
    assert_eq!(strip_frontmatter("---\nunterminated"), "---\nunterminated");
}

#[test]
fn sentences_skip_headings_and_fences() {
    let text = "---\nname: x\n---\n# Title\n```\nOne.  Two\n words! Three?\ntail";
    assert_eq!(sentences(text), vec!["one.", "two words!", "three?", "tail"]);
}

#[test]
fn normalise_collapses_whitespace_and_lowercases() {
    assert_eq!(normalise("  Hello\t\nWORLD  "), "hello world");
    assert_eq!(normalise("   "), "");
}

#[test]
fn minhash_is_all_max_for_short_texts() {
    let sig = compute_minhash("Only one sentence.");
    assert_eq!(sig.len(), 128);
    assert!(sig.iter().all(|&h| h == u64::MAX));
    let full = compute_minhash(SHARED);
    assert!(full.iter().all(|&h| h != u64::MAX));
}

#[test]
fn seeded_hash_matches_fnv_with_seed() {
    // FNV-1a of the empty string with seed 0, then mixed.
    let expected = 14695981039346656037u64.wrapping_mul(6364136223846793005);
    assert_eq!(hash_with_seed("", 0), expected);
    assert_ne!(hash_with_seed("a", 0), hash_with_seed("a", 1));
}

#[test]
fn overlap_thresholds_are_strict() {
    assert!(overlap_exceeds("a b c d e", "a b c d e", 4, 5));
    // 4 shared of 5 words: exactly four fifths, not more.
    assert!(!overlap_exceeds("a b c d", "a b c d e", 4, 5));
    assert!(overlap_exceeds("a b c d e", "a b c d e f", 4, 5));
    assert!(!overlap_exceeds("a b", "c d", 1, 2));
    assert!(overlap_exceeds("a b c", "a b d", 1, 2) == false);
    assert!(overlap_exceeds("a b c", "a b c d", 1, 2));
}

/// Seven CRLF lines of two-byte characters put the cut, counted without the
/// `\r`s, inside a character.
fn uncuttable() -> String {
    format!("---\n{}---\r\nbody", "éé\r\n".repeat(7))
}

#[test]
fn front_matter_cut_can_fall_inside_a_character() {
    assert!(!frontmatter_cut_ok(&uncuttable()));
    assert!(frontmatter_cut_ok("---\nname: a\n---\nbody"));
    assert!(frontmatter_cut_ok("---\r\nname: é\r\n---\r\nbody"));
    assert!(frontmatter_cut_ok("no front matter"));
    assert_eq!(strip_frontmatter("---\nname: a\n---\nbody"), "body");
}

#[test]
fn check_if_cuttable_refuses_uncuttable_texts() {
    let ctx = make_ctx(&[("alpha", &uncuttable()), ("beta", "# Beta\n")]);
    assert!(check_if_cuttable(&Lockfile::default(), &ctx).is_none());

    let ctx = make_ctx(&[("alpha", &format!("# Alpha\n\n{SHARED}\n")), ("beta", &format!("# Beta\n\n{SHARED}\n"))]);
    let (diags, sigs) = check_if_cuttable(&Lockfile::default(), &ctx).unwrap();
    let (expected, expected_sigs) = check(&Lockfile::default(), &ctx);
    assert_eq!(diags.len(), expected.len());
    assert_eq!(diags.len(), 1);
    assert_eq!(sigs, expected_sigs);
}
