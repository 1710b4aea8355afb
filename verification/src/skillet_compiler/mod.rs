//! The first `.pan` compiler front end: its source handling and lexer.
pub mod lex;

use std::path::PathBuf;
use vstd::prelude::*;
use vstd::utf8::encode_utf8;

use crate::compiler::{line_and_column, line_start_before, line_starts, min_int, newline_starts};

verus! {

/// Makes `std::path::PathBuf` usable in the library's types.
#[verifier::external_type_specification]
#[verifier::external_body]
pub struct ExPathBuf(PathBuf);

/// A 1-based line/column location.
pub struct SourceLocation {
    /// Line number (1 based)
    pub line: u32,
    /// Column number (1 based)
    pub column: u32,
}

/// Represents the source content of a `.pan` file, along with its file path for error reporting.
#[non_exhaustive]
pub struct PanSource {
    /// Absolute path to the source `.pan` file (for error reporting).
    pub path: Option<PathBuf>,
    /// Original source content of the `.pan` file.
    pub src: String,
    /// Line offset table.
    /// Offsets are **byte** offsets into the source, not character indexes.
    pub offsets: Vec<u32>,
}

/// Every line start of `b` fits in a `u32`.
pub open spec fn line_starts_fit(b: Seq<u8>) -> bool {
    forall|i: int| 0 <= i < b.len() && b[i] == 10u8 ==> i < u32::MAX
}

impl PanSource {
    /// The source's bytes.
    pub open spec fn bytes(&self) -> Seq<u8> {
        encode_utf8(self.src@)
    }

    /// Creates a new [`PanSource`] from the given source string and optional path.
    pub fn new(src: String, path: Option<PathBuf>) -> (r: Self)
        requires
            line_starts_fit(encode_utf8(src@)),
        ensures
            r.src@ == src@,
            r.path == path,
            r.offsets@ == line_starts(r.bytes()),
    {
        let mut offsets: Vec<u32> = Vec::new();
        offsets.push(0);
        let b = src.as_str().as_bytes();
        let mut i: usize = 0;
        while i < b.len()
            invariant
                b@ == encode_utf8(src@),
                line_starts_fit(b@),
                0 <= i <= b@.len(),
                offsets@ == seq![0u32] + newline_starts(b@, i as int),
            decreases b@.len() - i,
        {
            if b[i] == 10u8 {
                offsets.push((i + 1) as u32);
            }
            i += 1;
        }
        PanSource { path, src, offsets }
    }

    /// Returns the original source text.
    pub fn as_str(&self) -> (r: &str)
        ensures
            r@ == self.src@,
    {
        self.src.as_str()
    }

    /// Converts a byte offset into a 1-based line/column location.
    pub fn location_at(&self, offset: u32) -> (r: SourceLocation)
        requires
            self.bytes().len() < u32::MAX,
            self.offsets@ == line_starts(self.bytes()),
            offset - line_start_before(self.bytes(), min_int(offset as int, self.bytes().len() as int))
                < u32::MAX,
        ensures
            r.line == 1 + newline_starts(self.bytes(), min_int(offset as int, self.bytes().len() as int)).len(),
            r.column == offset - line_start_before(self.bytes(), min_int(offset as int, self.bytes().len() as int)) + 1,
    {
        let (line, column) = line_and_column(&self.offsets, Ghost(self.bytes()), offset);
        SourceLocation { line, column }
    }
}

} // verus!
