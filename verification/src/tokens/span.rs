//! Source position tracking for AST nodes.
//!
//! Positions are 0-based: `line` is the line index, `column` the character
//! column within that line, `offset` the byte offset from the start of the
//! input.

use vstd::prelude::*;

verus! {

/// A zero-based point in the source text.
#[derive(Debug, Clone, Copy, PartialEq, Eq)]
pub struct Position {
    /// Line number, 0-based.
    pub line: usize,
    /// Column number, 0-based (in characters).
    pub column: usize,
    /// Byte offset from the start of the input.
    pub offset: usize,
}

/// A span `[start, end)` covering a node's source text.
#[derive(Debug, Clone, Copy, PartialEq, Eq)]
pub struct Span {
    /// The start position (inclusive).
    pub start: Position,
    /// The end position (exclusive).
    pub end: Position,
}

impl Span {
    /// Create a new span from `start` to `end`.
    pub fn new(start: Position, end: Position) -> (r: Self)
        ensures
            r.start == start,
            r.end == end,
    {
        Self { start, end }
    }

    /// The span that starts and ends at the origin.
    pub open spec fn zero() -> Span {
        Span { start: Position::origin(), end: Position::origin() }
    }
}

impl Position {
    /// Create a new position at the given `line`, `column`, and byte `offset`.
    pub fn new(line: usize, column: usize, offset: usize) -> (r: Self)
        ensures
            r.line == line,
            r.column == column,
            r.offset == offset,
    {
        Self { line, column, offset }
    }

    /// Line 0, column 0, offset 0.
    pub open spec fn origin() -> Position {
        Position { line: 0, column: 0, offset: 0 }
    }
}

impl Default for Position {
    fn default() -> (r: Self)
        ensures
            r == Position::origin(),
    {
        Position { line: 0, column: 0, offset: 0 }
    }
}

impl Default for Span {
    fn default() -> (r: Self)
        ensures
            r == Span::zero(),
    {
        Span { start: Position::default(), end: Position::default() }
    }
}

} // verus!
