//! Source positions and half-open ranges of positions.

use vstd::prelude::*;

verus! {

/// A range `[lo, hi)` of byte offsets into the source text.
#[derive(Clone, Copy, Debug, PartialEq, Eq, Structural)]
pub struct Span {
    pub lo: u32,
    pub hi: u32,
}

impl Span {
    /// The position given to every generated node. It maps to no place in
    /// the source text.
    pub open spec fn synthetic() -> Span {
        Span { lo: 0, hi: 0 }
    }

    /// Whether `other` lies wholly within this range.
    pub open spec fn covers(self, other: Span) -> bool {
        self.lo <= other.lo && other.hi <= self.hi
    }

/// The range from `lo` to `hi`.
    pub fn new(lo: u32, hi: u32) -> (s: Span)
        ensures
            s == (Span { lo, hi }),
    {
        Span { lo, hi }
    }

/// The position of generated nodes.
    pub fn dummy() -> (s: Span)
        ensures
            s == Span::synthetic(),
    {
        Span { lo: 0, hi: 0 }
    }

/// Whether `other` lies wholly within this range.
    #[verifier::when_used_as_spec(covers)]
    pub fn contains(self, other: Span) -> (b: bool)
        ensures
            b == self.covers(other),
    {
        self.lo <= other.lo && other.hi <= self.hi
    }
}

/// Containment of ranges is transitive: what lies within an inner range lies
/// within every range that holds the inner one.
pub proof fn lemma_covers_transitive(outer: Span, inner: Span, node: Span)
    requires
        outer.covers(inner),
        inner.covers(node),
    ensures
        outer.covers(node),
{
}

} // verus!
