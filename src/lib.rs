//! Side-by-side display of difftastic diffs.
//!
//! [`difftastic`] holds the records that difftastic reports per file,
//! [`highlight`] decides which spans of a line read as changed, and
//! [`processor`] aligns the lines of both revisions into display rows with
//! hunk starts for navigation. [`range`] splits a revision range into its
//! two ends, and [`text`] and [`vcs`] read what jj and git print.
pub mod difftastic;
pub mod highlight;
pub mod processor;
pub mod range;
pub mod text;
pub mod vcs;

pub use difftastic::{Change, Chunk, DiffLine, DifftFile, Status};
pub use highlight::{compute_highlights, HighlightRegion, Highlights};
pub use processor::{process_file, DisplayFile, Row};
pub use range::parse_range;
pub use text::into_lines;
