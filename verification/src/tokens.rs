//! Token counts.
//!
//! The library does not count tokens itself: the functions that report token
//! counts take the counter as an argument, called with the text and the name
//! of the tokenizer model.
use vstd::prelude::*;

verus! {

/// `n` is a count that `count_tokens` gives for a text equal to `text` with
/// the tokenizer model `model`.
pub open spec fn counted<F: Fn(&str, &str) -> u32>(
    count_tokens: F,
    text: Seq<char>,
    model: Seq<char>,
    n: u32,
) -> bool {
    exists|t: &str, m: &str| t@ == text && m@ == model && #[trigger] count_tokens.ensures((t, m), n)
}

/// Counts the tokens of `text` with `count_tokens`.
pub fn count_tokens<F: Fn(&str, &str) -> u32>(counter: &F, text: &str, model: &str) -> (r: u32)
    requires
        forall|t: &str, m: &str| counter.requires((t, m)),
    ensures
        counted(*counter, text@, model@, r),
{
    counter(text, model)
}

/// `count_tokens` gives one count for each text and model: two calls on
/// equal texts and equal models agree.
pub open spec fn gives_one_count<F: Fn(&str, &str) -> u32>(count_tokens: F) -> bool {
    forall|t1: &str, m1: &str, t2: &str, m2: &str, a: u32, b: u32|
        #![trigger count_tokens.ensures((t1, m1), a), count_tokens.ensures((t2, m2), b)]
        t1@ == t2@ && m1@ == m2@ && count_tokens.ensures((t1, m1), a) && count_tokens.ensures((t2, m2), b) ==> a
            == b
}

/// The count that `count_tokens` gives for `text` with the model `model`.
pub open spec fn token_count<F: Fn(&str, &str) -> u32>(count_tokens: F, text: Seq<char>, model: Seq<char>) -> u32 {
    choose|n: u32| counted(count_tokens, text, model, n)
}

/// Where `count_tokens` gives one count per text and model, a count it gave
/// is the count.
pub proof fn lemma_counted_is_count<F: Fn(&str, &str) -> u32>(
    count_tokens: F,
    text: Seq<char>,
    model: Seq<char>,
    n: u32,
)
    requires
        gives_one_count(count_tokens),
        counted(count_tokens, text, model, n),
    ensures
        token_count(count_tokens, text, model) == n,
{
    let c = token_count(count_tokens, text, model);
    assert(counted(count_tokens, text, model, c));
    let (t1, m1) = choose|t: &str, m: &str| t@ == text && m@ == model && #[trigger] count_tokens.ensures((t, m), n);
    let (t2, m2) = choose|t: &str, m: &str| t@ == text && m@ == model && #[trigger] count_tokens.ensures((t, m), c);
    assert(count_tokens.ensures((t1, m1), n));
    assert(count_tokens.ensures((t2, m2), c));
}

/// Counts the tokens of `text` with `counter`, which gives one count per
/// text and model.
pub fn count_of<F: Fn(&str, &str) -> u32>(counter: &F, text: &str, model: &str) -> (r: u32)
    requires
        forall|t: &str, m: &str| counter.requires((t, m)),
        gives_one_count(*counter),
    ensures
        r == token_count(*counter, text@, model@),
{
    let r = counter(text, model);
    proof {
        assert(counted(*counter, text@, model@, r));
        lemma_counted_is_count(*counter, text@, model@, r);
    }
    r
}

} // verus!
