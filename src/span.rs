//! Positions in a source file.

use vstd::prelude::*;

verus! {

/// A position in a source file: a one-based line and a zero-based column.
#[derive(Debug, Clone, Copy, PartialEq, Eq, Structural)]
pub struct LineColumn {
    pub line: usize,
    pub column: usize,
}

/// The region of a source file that a token covers.
#[derive(Debug, Clone, Copy, PartialEq, Eq, Structural)]
pub struct Span {
    pub start: LineColumn,
    pub end: LineColumn,
}

/// `next` starts on the line right after the one on which `prev` ends.
pub open spec fn spans_adjacent(prev: Span, next: Span) -> bool {
    next.start.line == prev.end.line + 1
}

/// `a` starts before `b` does.
pub open spec fn starts_before(a: Span, b: Span) -> bool {
    a.start.line < b.start.line || (a.start.line == b.start.line && a.start.column
        < b.start.column)
}

/// Tells whether `next` starts on the line right after the one on which
/// `prev` ends.
pub fn is_next_line(prev: &Span, next: &Span) -> (r: bool)
    ensures
        r == spans_adjacent(*prev, *next),
{
    next.start.line > 0 && next.start.line - 1 == prev.end.line
}

} // verus!
