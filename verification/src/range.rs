use vstd::prelude::*;

verus! {

/// A half-open range `[begin, end)` of byte positions.
#[derive(Clone, Copy, Debug, PartialEq, Eq, Structural)]
pub struct Range {
    pub begin: usize,
    pub end: usize,
}

impl Range {
    /// The range `[begin, end)`.
    pub fn new(begin: usize, end: usize) -> (r: Range)
        ensures
            r.begin == begin,
            r.end == end,
    {
        Range { begin, end }
    }

    /// Moves both ends of the range forward by `offset`.
    pub fn offset(&mut self, offset: usize)
        requires
            old(self).end + offset <= usize::MAX,
            old(self).begin + offset <= usize::MAX,
        ensures
            final(self).begin == old(self).begin + offset,
            final(self).end == old(self).end + offset,
    {
        self.begin = self.begin + offset;
        self.end = self.end + offset;
    }
}

} // verus!
