//! Half-open byte intervals into the content of a buffer.

use std::ops::Range;
use vstd::prelude::*;

verus! {

/// A half-open interval `[start, end)` of byte offsets, as a mathematical
/// value.
pub struct Region {
    pub start: int,
    pub end: int,
}

impl Region {
    /// The offsets run forward from an offset that is not negative.
    pub open spec fn valid(self) -> bool {
        0 <= self.start <= self.end
    }

    /// The region is valid and ends within a content of `len` bytes.
    pub open spec fn within(self, len: int) -> bool {
        0 <= self.start <= self.end <= len
    }

    /// The region holds no byte.
    pub open spec fn is_empty(self) -> bool {
        self.start == self.end
    }
}

/// A half-open interval `[start, end)` of byte offsets with `start <= end`.
///
/// A range owns no content: it is read against the buffer that is handed to
/// the call that uses it.
#[derive(Clone, Copy, Debug, PartialEq, Eq, Structural)]
pub struct ByteRange {
    start: usize,
    end: usize,
}

impl View for ByteRange {
    type V = Region;

    closed spec fn view(&self) -> Region {
        Region { start: self.start as int, end: self.end as int }
    }
}

impl ByteRange {
    #[verifier::type_invariant]
    spec fn runs_forward(self) -> bool {
        self.start <= self.end
    }

    /// Makes the interval `[range.start, range.end)`. An interval that would
    /// end before it starts is rejected.
    pub fn new(range: Range<usize>) -> (out: Option<ByteRange>)
        ensures
            range.start <= range.end ==> (out matches Some(made) && made@ == (Region {
                start: range.start as int,
                end: range.end as int,
            })),
            range.start > range.end ==> out is None,
    {
        if range.start <= range.end {
            Some(ByteRange { start: range.start, end: range.end })
        } else {
            None
        }
    }

    /// The offset of the first byte.
    pub fn start(&self) -> (out: usize)
        ensures
            out == self@.start,
            self@.valid(),
    {
        proof {
            use_type_invariant(self);
        }
        self.start
    }

    /// The offset one past the last byte.
    pub fn end(&self) -> (out: usize)
        ensures
            out == self@.end,
            self@.valid(),
    {
        proof {
            use_type_invariant(self);
        }
        self.end
    }

    /// The number of bytes in the interval.
    pub fn len(&self) -> (out: usize)
        ensures
            out == self@.end - self@.start,
    {
        proof {
            use_type_invariant(self);
        }
        self.end - self.start
    }
}

/// The regions for which the ranges of `ranges` stand, in the same order.
pub open spec fn regions_of(ranges: Seq<ByteRange>) -> Seq<Region> {
    ranges.map_values(|range: ByteRange| range@)
}

} // verus!
