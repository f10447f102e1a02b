//! Half-open key ranges with wrap-around semantics.

use vstd::prelude::*;

pub mod merge;

pub use merge::{merge_ranges, merge_ranges_sorted, MergedRanges};

verus! {

/// A (half-open) range bounded inclusively below and exclusively above
/// (`start..end`).
///
/// If `start >= end`, the range is considered wrapping and is equivalent to
/// covering two ranges: `(..end)` and `(start..)`. The degenerate case
/// `start == end` covers the whole key space.
#[derive(Debug, Clone, Copy, PartialEq, Eq, Hash, Structural)]
pub struct KeyRange {
    pub start: u64,
    pub end: u64,
}

impl KeyRange {
    /// True in exactly the states where this range wraps past the maximum key.
    pub open spec fn spec_is_wrapping(self) -> bool {
        self.start >= self.end
    }

    /// What membership in this range means.
    pub open spec fn spec_contains(self, item: u64) -> bool {
        if self.spec_is_wrapping() {
            item >= self.start || item < self.end
        } else {
            self.start <= item && item < self.end
        }
    }

    /// Creates a `KeyRange`.
    pub fn new(start: u64, end: u64) -> (r: Self)
        ensures
            r == (KeyRange { start, end }),
    {
        Self { start, end }
    }

    /// Returns `true` if the range is wrapping, which is equivalent to covering
    /// the following two ranges: `(..end)` and `(start..)`.
    pub fn is_wrapping(&self) -> (r: bool)
        ensures
            r == self.spec_is_wrapping(),
    {
        !(self.start < self.end)
    }

    /// Returns `true` if `item` is contained in the range.
    pub fn contains(&self, item: &u64) -> (r: bool)
        ensures
            r == self.spec_contains(*item),
    {
        if self.is_wrapping() {
            *item >= self.start || *item < self.end
        } else {
            *item >= self.start && *item < self.end
        }
    }

    /// Whether this range and `other` overlap: one of them contains the
    /// other's start point.
    pub open spec fn spec_is_overlapping(self, other: Self) -> bool {
        self.spec_contains(other.start) || other.spec_contains(self.start)
    }

    /// Returns `true` if the range overlaps with `other`.
    pub fn is_overlapping(&self, other: &Self) -> (r: bool)
        ensures
            r == self.spec_is_overlapping(*other),
    {
        self.contains(&other.start) || other.contains(&self.start)
    }

    /// The range after its `start` has been pulled back toward `other.start`.
    /// Pulling a wrapping range's start past its own end collapses it to the
    /// full key space `[end, end)`.
    pub open spec fn spec_extend_start(self, other: Self) -> Self {
        if other.start < self.start {
            if self.spec_is_wrapping() && other.start < self.end {
                KeyRange { start: self.end, end: self.end }
            } else {
                KeyRange { start: other.start, end: self.end }
            }
        } else {
            self
        }
    }

    /// The range after its `end` has been pushed forward toward `other.end`.
    /// Pushing a wrapping range's end past its own start collapses it to the
    /// full key space `[start, start)`.
    pub open spec fn spec_extend_end(self, other: Self) -> Self {
        if other.end > self.end {
            if self.spec_is_wrapping() && other.end > self.start {
                KeyRange { start: self.start, end: self.start }
            } else {
                KeyRange { start: self.start, end: other.end }
            }
        } else {
            self
        }
    }

    /// Extends the range's `start` to match `other.start` if `other.start <
    /// self.start`.
    pub fn extend_start(&mut self, other: &Self)
        ensures
            *final(self) == old(self).spec_extend_start(*other),
    {
        if other.start < self.start {
            if self.is_wrapping() && other.start < self.end {
                self.start = self.end;
            } else {
                self.start = other.start;
            }
        }
    }

    /// Extends the range's `end` to match `other.end` if `other.end >
    /// self.end`.
    pub fn extend_end(&mut self, other: &Self)
        ensures
            *final(self) == old(self).spec_extend_end(*other),
    {
        if other.end > self.end {
            if self.is_wrapping() && other.end > self.start {
                self.end = self.start;
            } else {
                self.end = other.end;
            }
        }
    }

    /// Extends both `start` and `end` of the range to match `other`.
    pub fn extend(&mut self, other: &Self)
        ensures
            *final(self) == old(self).spec_extend_start(*other).spec_extend_end(*other),
    {
        self.extend_start(other);
        self.extend_end(other);
    }

    /// The number of keys the range covers. A range with `start == end`
    /// covers the whole key space and reports `u64::MAX`.
    pub open spec fn spec_size(self) -> int {
        if self.spec_is_wrapping() {
            u64::MAX - (self.start - self.end)
        } else {
            self.end - self.start
        }
    }

    /// Returns the number of keys covered by the range, with wrap-around
    /// taken into account.
    pub fn size(&self) -> (r: u64)
        ensures
            r == self.spec_size(),
    {
        if self.is_wrapping() {
            u64::MAX - (self.start - self.end)
        } else {
            self.end - self.start
        }
    }
}

impl From<core::ops::Range<u64>> for KeyRange {
    /// The `KeyRange` with the same bounds as a standard half-open range.
    fn from(value: core::ops::Range<u64>) -> (r: Self) {
        Self { start: value.start, end: value.end }
    }
}

impl vstd::std_specs::convert::FromSpecImpl<core::ops::Range<u64>> for KeyRange {
    open spec fn obeys_from_spec() -> bool {
        true
    }

    open spec fn from_spec(t: core::ops::Range<u64>) -> Self {
        KeyRange { start: t.start, end: t.end }
    }
}

/// A range whose bounds are equal covers every key.
pub proof fn lemma_degenerate_range_covers_all(r: KeyRange, item: u64)
    requires
        r.start == r.end,
    ensures
        r.spec_contains(item),
{
}

} // verus!
