//! Scanning engine for code-status annotation markers.
//!
//! The library filters a caller-supplied list of directory entries down to
//! the source files to scan, matches each line of each file against a vocabulary
//! of marker names (such as `#[untested]` or `#[needs("refactor")]`), and
//! aggregates the matches into reports.

pub mod matcher;
pub mod patterns;
pub mod report;
pub mod selector;
pub mod text;
pub mod vocab;
