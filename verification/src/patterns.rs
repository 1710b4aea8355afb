//! Regular-expression search, done by the `regex` crate.
//!
//! The library hands a pattern and a text to `regex` and reads back the
//! capture groups of every match as plain values.
use regex::Regex;
use vstd::prelude::*;
use vstd::string::StringSliceAdditionalSpecFns;
use vstd::utf8::decode_utf8;

use crate::text::at_boundary;

verus! {

/// One capture group of a match: its byte range in the text and its text.
#[derive(Debug)]
pub struct Group {
    /// Byte offset of the group's start.
    pub start: usize,
    /// Byte offset just past the group's end.
    pub end: usize,
    /// The text the group matched.
    pub text: String,
}

/// The value of a [`Group`].
pub struct GroupView {
    /// Byte offset of the group's start.
    pub start: int,
    /// Byte offset just past the group's end.
    pub end: int,
    /// The text the group matched.
    pub text: Seq<char>,
}

impl View for Group {
    type V = GroupView;

    open spec fn view(&self) -> GroupView {
        GroupView { start: self.start as int, end: self.end as int, text: self.text@ }
    }
}

/// The groups of one match; group 0 is the whole match, a group that took no
/// part in the match is `None`.
#[derive(Debug)]
pub struct Captures {
    /// The groups, by index.
    pub groups: Vec<Option<Group>>,
}

/// The value of a [`Captures`]: its groups.
pub type CapturesView = Seq<Option<GroupView>>;

impl View for Captures {
    type V = Seq<Option<GroupView>>;

    open spec fn view(&self) -> Seq<Option<GroupView>> {
        self.groups@.map_values(
            |g: Option<Group>|
                match g {
                    Some(x) => Some(x@),
                    None => None,
                },
        )
    }
}

/// The views of a sequence of matches.
pub open spec fn captures_view(cs: Seq<Captures>) -> Seq<CapturesView> {
    cs.map_values(|c: Captures| c@)
}

/// The matches that `regex` finds for `pattern` in `text`, one after the
/// other, or `None` when `pattern` is not a valid expression.
pub uninterp spec fn regex_captures(pattern: Seq<char>, text: Seq<char>) -> Option<Seq<CapturesView>>;

/// A group of a match in the text whose bytes are `b`: it lies between two
/// characters of the text, and its text is what lies between its offsets.
pub open spec fn group_in(b: Seq<u8>, g: GroupView) -> bool {
    &&& 0 <= g.start <= g.end <= b.len()
    &&& at_boundary(b, g.start)
    &&& at_boundary(b, g.end)
    &&& g.text == decode_utf8(b.subrange(g.start, g.end))
}

/// The matches of a search in the text whose bytes are `b`: every group lies
/// in the text, and each match starts no earlier than the previous one ends.
pub open spec fn matches_in(b: Seq<u8>, ms: Seq<CapturesView>) -> bool {
    &&& forall|k: int, j: int|
        0 <= k < ms.len() && 0 <= j < ms[k].len() && #[trigger] ms[k][j] is Some ==> group_in(
            b,
            ms[k][j]->0,
        )
    &&& forall|k: int| 0 <= k < ms.len() ==> #[trigger] ms[k].len() >= 1 && ms[k][0] is Some
    &&& forall|k: int|
        0 <= k < ms.len() - 1 ==> (#[trigger] ms[k][0])->0.end <= ms[k + 1][0]->0.start
}

/// Compiles `pattern` with `regex::Regex::new` and collects the capture
/// groups of every match that `Regex::captures_iter` finds in `text`. The
/// result is the one [`regex_captures`] names. As the `regex` documentation
/// states, the offsets of a match in a `&str` are byte offsets on character
/// boundaries with the matched text between them, and the matches come in
/// order without overlapping.
#[verifier::external_body]
pub(crate) fn find_captures(pattern: &str, text: &str) -> (r: Option<Vec<Captures>>)
    ensures
        r matches Some(v) ==> regex_captures(pattern@, text@) == Some(captures_view(v@)),
        r matches Some(v) ==> matches_in(text.spec_bytes(), captures_view(v@)),
        r is None ==> regex_captures(pattern@, text@) is None,
{
    let re = Regex::new(pattern).ok()?;
    Some(re.captures_iter(text).map(|c| Captures {
        groups: c.iter().map(|g| g.map(|m| Group { start: m.start(), end: m.end(), text: m.as_str().to_string() })).collect(),
    }).collect())
}

} // verus!
