//! Spans of fully indexed blocks.

use vstd::prelude::*;

verus! {

/// Start and end block number for a span of blocks.  A span is a
/// closed, inclusive interval of block numbers confirmed fully indexed.
#[derive(Clone, Copy, Debug, PartialEq, Eq, Structural)]
pub struct Span {
    pub start: u32,
    pub end: u32,
}

impl Span {
    /// A span is an interval: its start does not exceed its end.
    pub open spec fn wf(self) -> bool {
        self.start <= self.end
    }

    /// Whether a block number lies inside the span.
    pub open spec fn spec_contains(self, b: u32) -> bool {
        self.start <= b <= self.end
    }
}

/// A well-formed ordered span collection: each span is an interval, and
/// the spans are in ascending order, pairwise non-overlapping and
/// non-touching.
pub open spec fn spans_wf(s: Seq<Span>) -> bool {
    &&& forall|i: int| 0 <= i < s.len() ==> (#[trigger] s[i]).wf()
    &&& forall|i: int, j: int|
        0 <= i < j < s.len() ==> #[trigger] s[i].end + 1 < #[trigger] s[j].start
}

/// No block number lies in two spans of a well-formed collection, and
/// no two spans touch.
pub proof fn lemma_spans_wf_disjoint(s: Seq<Span>, i: int, j: int)
    requires
        spans_wf(s),
        0 <= i < s.len(),
        0 <= j < s.len(),
        i != j,
    ensures
        forall|b: u32| !(s[i].spec_contains(b) && s[j].spec_contains(b)),
        s[i].end + 1 != s[j].start,
{
    if i < j {
        assert(s[i].end + 1 < s[j].start);
    } else {
        assert(s[j].end + 1 < s[i].start);
    }
}

} // verus!
