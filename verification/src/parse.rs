//! Front matter of `.pan` source files.
//!
//! The YAML front matter is read by `gray_matter`; the library sees what it
//! found as plain values: the raw front matter text, the content after it,
//! and the `name` and `description` fields.
use gray_matter::engine::YAML;
use gray_matter::{Matter, Pod};
use std::collections::HashMap;
use vstd::prelude::*;

verus! {

/// A front matter field read as an optional string: `Ok(None)` when it is
/// absent or null, `Ok(Some(text))` when it is a string, and otherwise the
/// message of the error with which it is refused.
pub type FrontField = Result<Option<String>, String>;

/// The value of a [`FrontField`].
pub type FrontFieldView = Result<Option<Seq<char>>, Seq<char>>;

/// The value of a front matter field.
pub open spec fn field_view(f: FrontField) -> FrontFieldView {
    match f {
        Ok(o) => Ok(opt_view(o)),
        Err(e) => Err(e@),
    }
}

/// The front matter data: a mapping with its two fields, or another value.
#[derive(Debug)]
pub enum FrontData {
    /// The front matter is a YAML mapping.
    Mapping {
        /// The `name` field.
        name: FrontField,
        /// The `description` field.
        description: FrontField,
    },
    /// The front matter is not a mapping: the message of the error with which
    /// it is refused as one.
    NotMapping(String),
}

/// The value of a [`FrontData`].
pub enum FrontDataView {
    /// The front matter is a YAML mapping.
    Mapping { name: FrontFieldView, description: FrontFieldView },
    /// The front matter is not a mapping, refused with this message.
    NotMapping(Seq<char>),
}

impl View for FrontData {
    type V = FrontDataView;

    open spec fn view(&self) -> FrontDataView {
        match self {
            FrontData::Mapping { name, description } => FrontDataView::Mapping {
                name: field_view(*name),
                description: field_view(*description),
            },
            FrontData::NotMapping(e) => FrontDataView::NotMapping(e@),
        }
    }
}

/// What `gray_matter` found in a source text.
#[derive(Debug)]
pub struct MatterParts {
    /// The raw front matter (empty when there is none).
    pub matter: String,
    /// The text after the front matter.
    pub content: String,
    /// The parsed front matter, when there is any.
    pub data: Option<FrontData>,
}

/// The value of a [`MatterParts`].
pub struct MatterPartsView {
    /// The raw front matter.
    pub matter: Seq<char>,
    /// The text after the front matter.
    pub content: Seq<char>,
    /// The parsed front matter, when there is any.
    pub data: Option<FrontDataView>,
}

impl View for MatterParts {
    type V = MatterPartsView;

    open spec fn view(&self) -> MatterPartsView {
        MatterPartsView {
            matter: self.matter@,
            content: self.content@,
            data: match self.data {
                Some(d) => Some(d@),
                None => None,
            },
        }
    }
}

/// What `gray_matter`'s YAML `Matter::parse` makes of a text, its front
/// matter deserialized as a map and the `name` and `description` fields of
/// that map as optional strings: its parts, or the message of the error it
/// reported.
pub uninterp spec fn gray_matter_parse(input: Seq<char>) -> Result<MatterPartsView, Seq<char>>;

/// Calls `gray_matter::Matter::<YAML>::parse` into a `Pod`, then
/// `Pod::deserialize` on the front matter as a map of strings to values, and
/// on its `name` and `description` fields as optional strings: the steps,
/// and the error messages, of `Matter::parse` into a struct of those two
/// optional fields. Its contract says only that the result is the one
/// [`gray_matter_parse`] names for the input.
#[verifier::external_body]
pub(crate) fn read_matter(input: &str) -> (r: Result<MatterParts, String>)
    ensures
        r matches Ok(p) ==> gray_matter_parse(input@) matches Ok(q) && q == p@,
        r matches Err(e) ==> gray_matter_parse(input@) matches Err(m) && m == e@,
{
    let field = |v: Option<&Pod>| match v {
        Some(p) => p.deserialize().map_err(|e| e.to_string()),
        None => Ok(None),
    };
    match Matter::<YAML>::new().parse::<Pod>(input) {
        Ok(p) => Ok(MatterParts { matter: p.matter, content: p.content, data: p.data.map(|d| match d.deserialize::<HashMap<String, Pod>>() {
            Ok(m) => FrontData::Mapping { name: field(m.get("name")), description: field(m.get("description")) },
            Err(e) => FrontData::NotMapping(e.to_string()),
        }) }),
        Err(e) => Err(e.to_string()),
    }
}

/// `s` without its leading byte-order mark `U+FEFF`, when it has one, as
/// `str::strip_prefix` gives it.
fn strip_bom_prefix(s: &str) -> (r: Option<&str>)
    ensures
        r matches Some(t) ==> s@.len() > 0 && s@[0] == '\u{feff}' && t@ == s@.drop_first(),
        r is None ==> !(s@.len() > 0 && s@[0] == '\u{feff}'),
{
    let n = s.unicode_len();
    if n > 0 && s.get_char(0) == '\u{feff}' {
        let t = s.substring_char(1, n);
        proof {
            assert(t@ =~= s@.drop_first());
        }
        Some(t)
    } else {
        None
    }
}

/// `s` without a leading byte-order mark.
pub open spec fn without_bom(s: Seq<char>) -> Seq<char> {
    if s.len() > 0 && s[0] == '\u{feff}' {
        s.drop_first()
    } else {
        s
    }
}

/// `s` without a leading byte-order mark.
pub fn strip_bom(s: &str) -> (r: &str)
    ensures
        r@ == without_bom(s@),
{
    match strip_bom_prefix(s) {
        Some(t) => t,
        None => s,
    }
}

/// The YAML frontmatter of a `.pan` skill source file.
///
/// All fields are `Option` so callers can report missing-field errors rather
/// than receiving a parse failure.
#[derive(Debug)]
pub struct SkillFrontmatter {
    /// Skill identifier — must match the containing directory name.
    pub name: Option<String>,
    /// Short description shown in discovery-token reporting.
    pub description: Option<String>,
}

impl View for SkillFrontmatter {
    type V = (Option<Seq<char>>, Option<Seq<char>>);

    open spec fn view(&self) -> (Option<Seq<char>>, Option<Seq<char>>) {
        (opt_view(self.name), opt_view(self.description))
    }
}

/// The message with which [`parse_frontmatter`] reports an error `e` of the
/// front matter parser.
pub open spec fn frontmatter_error(e: Seq<char>) -> Seq<char> {
    "failed to parse frontmatter: "@ + e
}

/// What [`parse_frontmatter`] gives for `source`: `Ok(None)` without front
/// matter, the two fields when the front matter is a mapping whose `name` and
/// `description` are absent, null or strings, and otherwise an error that
/// carries the parser's message: the one for the whole front matter when it
/// is not a mapping, else the one for `name`, else the one for `description`.
pub open spec fn spec_parse_frontmatter(source: Seq<char>) -> Result<
    Option<(Option<Seq<char>>, Option<Seq<char>>)>,
    Seq<char>,
> {
    match gray_matter_parse(without_bom(source)) {
        Err(e) => Err(frontmatter_error(e)),
        Ok(p) => match p.data {
            None => Ok(None),
            Some(FrontDataView::NotMapping(e)) => Err(frontmatter_error(e)),
            Some(FrontDataView::Mapping { name, description }) => match (name, description) {
                (Ok(n), Ok(d)) => Ok(Some((n, d))),
                (Err(e), _) => Err(frontmatter_error(e)),
                (Ok(_), Err(e)) => Err(frontmatter_error(e)),
            },
        },
    }
}

/// The view of an optional string.
pub open spec fn opt_view(o: Option<String>) -> Option<Seq<char>> {
    match o {
        Some(s) => Some(s@),
        None => None,
    }
}

/// The view of an optional string slice.
pub open spec fn opt_str_view(o: Option<&str>) -> Option<Seq<char>> {
    match o {
        Some(s) => Some(s@),
        None => None,
    }
}

fn frontmatter_error_of(e: &str) -> (r: String)
    ensures
        r@ == frontmatter_error(e@),
{
    let mut msg = String::from_str("failed to parse frontmatter: ");
    msg.append(e);
    msg
}

/// Parses the YAML frontmatter of a `.pan` source string.
///
/// Returns `None` when no frontmatter delimiters (`---`) are present, and an
/// error, with the parser's message, when the frontmatter cannot be read as
/// optional `name` and `description` strings.
pub fn parse_frontmatter(source: &str) -> (r: Result<Option<SkillFrontmatter>, String>)
    ensures
        r matches Ok(Some(fm)) ==> spec_parse_frontmatter(source@) matches Ok(Some(v)) && v == fm@,
        r matches Ok(None) ==> spec_parse_frontmatter(source@) matches Ok(None),
        r matches Err(e) ==> spec_parse_frontmatter(source@) matches Err(m) && m == e@,
{
    let input = strip_bom(source);
    match read_matter(input) {
        Err(e) => Err(frontmatter_error_of(e.as_str())),
        Ok(parts) => match parts.data {
            None => Ok(None),
            Some(FrontData::NotMapping(e)) => Err(frontmatter_error_of(e.as_str())),
            Some(FrontData::Mapping { name, description }) => match (name, description) {
                (Ok(n), Ok(d)) => Ok(Some(SkillFrontmatter { name: n, description: d })),
                (Err(e), _) => Err(frontmatter_error_of(e.as_str())),
                (Ok(_), Err(e)) => Err(frontmatter_error_of(e.as_str())),
            },
        },
    }
}

} // verus!
