use vstd::prelude::*;

verus! {

/// A half-open span `start..end` of byte offsets into the source text.
#[derive(Debug, Clone, Copy, PartialEq, Eq, Structural)]
pub struct Range {
    pub start: usize,
    pub end: usize,
}

impl Range {
    /// The span `start..end`.
    pub fn new(start: usize, end: usize) -> (range: Self)
        ensures
            range.start == start,
            range.end == end,
    {
        Range { start, end }
    }
}

} // verus!
