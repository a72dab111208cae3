//! The data model of the difftastic-style JSON collected for each changed file.

use vstd::prelude::*;

verus! {

/// A single syntax-highlighted span within a line.
#[derive(Debug, Clone)]
pub struct ChangeSpan {
    pub content: String,
    pub highlight: String,
    pub start: usize,
    pub end: usize,
}

/// One side (lhs or rhs) of a line entry. `line_number` is 0-based.
#[derive(Debug, Clone)]
pub struct LineSide {
    pub line_number: u64,
    pub changes: Vec<ChangeSpan>,
}

/// A single line entry in a chunk. Both sides are optional:
/// - Only lhs: line was removed
/// - Only rhs: line was added
/// - Both: line was modified (spans show only the changed tokens)
#[derive(Debug, Clone)]
pub struct LineEntry {
    pub lhs: Option<LineSide>,
    pub rhs: Option<LineSide>,
}

/// A unified diff hunk header, giving exact old/new line ranges (1-based starts).
#[derive(Debug, Clone, Copy)]
pub struct DiffHunk {
    pub old_start: u64,
    pub old_count: u64,
    pub new_start: u64,
    pub new_count: u64,
}

/// The full difft data for a single file.
#[derive(Debug, Clone)]
pub struct DifftOutput {
    pub chunks: Vec<Vec<LineEntry>>,
    pub language: Option<String>,
    pub path: Option<String>,
    pub status: Option<String>,
    /// Full lines of the old file version (for rendering full-line context).
    pub old_lines: Vec<String>,
    /// Full lines of the new file version (for rendering full-line context).
    pub new_lines: Vec<String>,
    /// Unified diff hunks for accurate old<->new line mapping.
    pub hunks: Vec<DiffHunk>,
}

} // verus!
