//! Spans of a source text in bytes: an offset and a length, as a pair.

use vstd::prelude::*;

verus! {

/// Of two spans the one that starts later; the second if both start at the
/// same offset.
pub open spec fn later(a: (usize, usize), b: (usize, usize)) -> (usize, usize) {
    if a.0 > b.0 {
        a
    } else {
        b
    }
}

/// Of two spans the one that starts earlier; the first if both start at
/// the same offset.
pub open spec fn earlier(a: (usize, usize), b: (usize, usize)) -> (usize, usize) {
    if a.0 > b.0 {
        b
    } else {
        a
    }
}

/// Builds spans from spans.
pub struct SpanBuilder;

impl SpanBuilder {
    /// The span from the start of the earlier of two spans to the end of
    /// the later one.
    pub fn merge(a: (usize, usize), b: (usize, usize)) -> (r: (usize, usize))
        requires
            later(a, b).0 + later(a, b).1 <= usize::MAX,
        ensures
            r.0 == earlier(a, b).0,
            r.0 + r.1 == later(a, b).0 + later(a, b).1,
    {
        let (first, second) = if a.0 > b.0 {
            (b, a)
        } else {
            (a, b)
        };
        (first.0, second.0 + second.1 - first.0)
    }

    /// The empty span at the start of `span`.
    pub fn start(span: (usize, usize)) -> (r: (usize, usize))
        ensures
            r.0 == span.0,
            r.1 == 0,
    {
        (span.0, 0)
    }

    /// The empty span at the end of `span`.
    pub fn end(span: (usize, usize)) -> (r: (usize, usize))
        requires
            span.0 + span.1 <= usize::MAX,
        ensures
            r.0 == span.0 + span.1,
            r.1 == 0,
    {
        (span.0 + span.1, 0)
    }
}

} // verus!
