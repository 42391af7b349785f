//! Half-open `[start, end)` offset ranges into a source line, and values
//! paired with the range they were read from.

use vstd::prelude::*;

verus! {

/// A half-open range `[start, end)` of character offsets into a source line.
#[derive(Clone, Copy, PartialEq, Eq, Structural, Debug)]
pub struct Span {
    pub start: usize,
    pub end: usize,
}

impl Span {
    /// The merge of two spans: smallest start to largest end.
    pub open spec fn spec_merge(self, other: Span) -> Span {
        Span {
            start: if self.start <= other.start { self.start } else { other.start },
            end: if self.end >= other.end { self.end } else { other.end },
        }
    }

    /// Merges this span with another, covering both.
    pub fn merge(self, other: Span) -> (r: Span)
        ensures
            r == self.spec_merge(other),
    {
        Span {
            start: if self.start <= other.start { self.start } else { other.start },
            end: if self.end >= other.end { self.end } else { other.end },
        }
    }
}

/// A payload together with the span of source text it came from.
#[derive(Clone, Copy, PartialEq, Eq, Structural, Debug)]
pub struct Spanned<T> {
    pub inner: T,
    pub span: Span,
}

impl<T> Spanned<T> {
    /// Pairs a payload with a span.
    pub fn new(inner: T, span: Span) -> (r: Spanned<T>)
        ensures
            r == (Spanned { inner, span }),
    {
        Spanned { inner, span }
    }
}

} // verus!
