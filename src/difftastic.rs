//! The records that difftastic reports for each file of a diff.
//!
//! A file carries its status, the pairing of old and new line numbers that
//! difftastic computed (`aligned_lines`) and groups of per-line changes
//! (`chunks`). The library reads them; decoding them from JSON happens at the
//! edge of the program.
use std::path::PathBuf;
use vstd::prelude::*;

verus! {

/// Paths are carried through unchanged; nothing here looks inside one.
#[verifier::external_type_specification]
#[verifier::external_body]
pub struct ExPathBuf(PathBuf);

/// Relies on `PathBuf::clone`, used by the derived `Clone` of the records
/// that hold a path; nothing is claimed of the copy.
pub assume_specification[ <PathBuf as Clone>::clone ](p: &PathBuf) -> PathBuf;

/// How a file changed between the two revisions.
#[derive(Debug, Clone, Copy, PartialEq, Eq, Structural)]
pub enum Status {
    Created,
    Deleted,
    Changed,
}

/// A file entry of difftastic's output.
#[derive(Debug, Clone, PartialEq, Eq)]
pub struct DifftFile {
    pub path: PathBuf,
    pub language: String,
    pub status: Status,
    /// Pre-computed line alignment: `(lhs_line, rhs_line)` pairs, `None` = filler.
    pub aligned_lines: Vec<(Option<u32>, Option<u32>)>,
    /// Groups of related changes (hunks).
    pub chunks: Vec<Chunk>,
}

/// A contiguous group of related changed lines.
pub type Chunk = Vec<DiffLine>;

/// One diff line entry: content on the left side, the right side, or both.
#[derive(Debug, Clone, PartialEq, Eq)]
pub struct DiffLine {
    /// The left-hand side (old/before) content, if any.
    pub lhs: Option<Side>,
    /// The right-hand side (new/after) content, if any.
    pub rhs: Option<Side>,
}

/// One side (left or right) of a diff line.
#[derive(Debug, Clone, PartialEq, Eq)]
pub struct Side {
    /// The 0-indexed line number in the file of that side.
    pub line_number: u32,
    /// The changed regions within this line.
    pub changes: Vec<Change>,
}

/// A changed span within a line, in byte offsets.
#[derive(Debug, Clone, PartialEq, Eq)]
pub struct Change {
    /// Start byte offset within the line (inclusive).
    pub start: u32,
    /// End byte offset within the line (exclusive).
    pub end: u32,
    /// The text of this change region.
    pub content: String,
    /// Syntax class reported by difftastic (`"keyword"`, `"string"`, ...);
    /// may be empty. Carried, never interpreted.
    pub highlight: String,
}

} // verus!
