//! Source locations.

use vstd::prelude::*;

verus! {

/// A half-open interval `[start, end)` of byte offsets into the source text.
#[derive(Clone, Copy, Debug, PartialEq, Eq, Structural, Hash)]
pub struct Span {
    pub start: usize,
    pub end: usize,
}

impl Span {
    /// The span from `start` up to, but not including, `end`.
    pub fn new(start: usize, end: usize) -> (span: Span)
        ensures
            span.start == start,
            span.end == end,
    {
        Span { start, end }
    }

    /// The span that begins where `self` begins and ends where `last` ends.
    pub open spec fn through(self, last: Span) -> Span {
        Span { start: self.start, end: last.end }
    }

    /// The span that begins where `self` begins and ends where `last` ends.
    pub fn join(self, last: Span) -> (span: Span)
        ensures
            span == self.through(last),
    {
        Span { start: self.start, end: last.end }
    }

    /// The empty span at byte offset `at`.
    pub open spec fn empty_at(at: usize) -> Span {
        Span { start: at, end: at }
    }
}

} // verus!
