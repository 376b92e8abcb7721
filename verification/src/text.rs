//! Offsets and ranges into the source data, measured in bytes.

use vstd::prelude::*;

verus! {

/// A byte offset into the source data.
pub type TextSize = u32;

/// A half-open range `start..end` of byte offsets, with `start <= end`.
#[derive(Clone, Copy, Debug, PartialEq, Eq, Hash)]
pub struct TextRange {
    start: TextSize,
    end: TextSize,
}

impl TextRange {
    /// Well-formedness: the range never runs backwards.
    pub open spec fn wf(self) -> bool {
        self.spec_start() <= self.spec_end()
    }

    pub closed spec fn spec_start(self) -> TextSize {
        self.start
    }

    pub closed spec fn spec_end(self) -> TextSize {
        self.end
    }

    pub open spec fn spec_len(self) -> nat {
        (self.spec_end() - self.spec_start()) as nat
    }

    /// Creates a range from `start` to `end`.
    pub fn new(start: TextSize, end: TextSize) -> (r: TextRange)
        requires
            start <= end,
        ensures
            r.spec_start() == start,
            r.spec_end() == end,
            r.wf(),
    {
        TextRange { start, end }
    }

    /// Creates a range that starts at `offset` and has length `len`.
    pub fn at(offset: TextSize, len: TextSize) -> (r: TextRange)
        requires
            offset + len <= u32::MAX,
        ensures
            r.spec_start() == offset,
            r.spec_end() == offset + len,
            r.wf(),
    {
        TextRange { start: offset, end: offset + len }
    }

    /// The empty range at `offset`.
    pub fn empty(offset: TextSize) -> (r: TextRange)
        ensures
            r.spec_start() == offset,
            r.spec_end() == offset,
    {
        TextRange { start: offset, end: offset }
    }

    pub fn start(&self) -> (r: TextSize)
        ensures
            r == self.spec_start(),
    {
        self.start
    }

    pub fn end(&self) -> (r: TextSize)
        ensures
            r == self.spec_end(),
    {
        self.end
    }

    /// The length of the range.
    pub fn len(&self) -> (r: TextSize)
        requires
            self.wf(),
        ensures
            r == self.spec_len(),
    {
        self.end - self.start
    }

    /// Whether the range covers no offsets.
    pub fn is_empty(&self) -> (r: bool)
        ensures
            r == (self.spec_start() == self.spec_end()),
    {
        self.start == self.end
    }

    /// Whether `other` lies completely inside `self`.
    pub fn contains_range(&self, other: TextRange) -> (r: bool)
        ensures
            r == (self.spec_start() <= other.spec_start() && other.spec_end() <= self.spec_end()),
    {
        self.start <= other.start && other.end <= self.end
    }

    /// The intersection of two ranges, or `None` where they are disjoint.
    /// Ranges that merely touch intersect in an empty range.
    pub fn intersect(&self, other: TextRange) -> (r: Option<TextRange>)
        ensures
            r is Some <==> intersects(*self, other),
            r matches Some(x) ==> x.spec_start() == max_nat(self.spec_start() as int, other.spec_start() as int)
                && x.spec_end() == min_nat(self.spec_end() as int, other.spec_end() as int) && x.wf(),
    {
        let start = if self.start >= other.start { self.start } else { other.start };
        let end = if self.end <= other.end { self.end } else { other.end };
        if end < start {
            None
        } else {
            Some(TextRange { start, end })
        }
    }

    /// Shifts the range down by `offset`.
    pub fn checked_sub(&self, offset: TextSize) -> (r: Option<TextRange>)
        requires
            self.wf(),
        ensures
            r matches Some(x) ==> x.spec_start() == self.spec_start() - offset
                && x.spec_end() == self.spec_end() - offset && x.wf(),
            r is Some <==> offset <= self.spec_start(),
    {
        if offset <= self.start {
            Some(TextRange { start: self.start - offset, end: self.end - offset })
        } else {
            None
        }
    }
}

/// Whether two ranges overlap or touch: the larger start is not past the smaller end.
pub open spec fn intersects(a: TextRange, b: TextRange) -> bool {
    max_nat(a.spec_start() as int, b.spec_start() as int) <= min_nat(a.spec_end() as int, b.spec_end() as int)
}

pub open spec fn max_nat(a: int, b: int) -> int {
    if a >= b { a } else { b }
}

pub open spec fn min_nat(a: int, b: int) -> int {
    if a <= b { a } else { b }
}

} // verus!
