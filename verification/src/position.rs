//! Half-open, 0-based index ranges and ordered lists of them.
//!
//! A `PosRange` selects the indices `start <= i < end` of a line's bytes,
//! characters, or fields. A position list is an ordered `Vec<PosRange>`;
//! the order is the one the user wrote, and duplicates and overlaps are
//! kept as given.

use vstd::prelude::*;

verus! {

/// One half-open, 0-based index range `[start, end)`.
#[derive(Clone, Copy, Debug, PartialEq, Eq, Structural)]
pub struct PosRange {
    pub start: usize,
    pub end: usize,
}

impl PosRange {
    /// A range is well formed when it selects at least one index.
    pub open spec fn wf(self) -> bool {
        self.start < self.end
    }

    pub fn new(start: usize, end: usize) -> (r: PosRange)
        requires
            start < end,
        ensures
            r == (PosRange { start, end }),
            r.wf(),
    {
        PosRange { start, end }
    }
}

/// Every range of the list selects at least one index.
pub open spec fn pos_list_wf(pos: Seq<PosRange>) -> bool {
    forall|i: int| 0 <= i < pos.len() ==> (#[trigger] pos[i]).wf()
}

} // verus!
