//! Timestamps and time spans.
//!
//! Timestamps are nanosecond-resolution points on a signed 64-bit axis.

use vstd::prelude::*;

verus! {

/// A point in time, in nanoseconds.
pub type TimeStamp = i64;

/// A span of time.  When used as a query interval it is half-open:
/// `[start, end)`.  When describing the extent of stored data it runs from
/// the first to the last covered timestamp.
#[derive(Clone, Copy, PartialEq, Eq, Structural, Debug)]
pub struct TimeSpan {
    pub start: TimeStamp,
    pub end: TimeStamp,
}

impl TimeSpan {
    /// Construct a span from its two boundaries.
    pub fn new(start: TimeStamp, end: TimeStamp) -> (r: TimeSpan)
        ensures
            r.start == start,
            r.end == end,
    {
        TimeSpan { start, end }
    }

    /// A query interval is well-formed exactly when it is non-empty.
    pub open spec fn spec_valid(self) -> bool {
        self.start < self.end
    }

    /// Whether a timestamp falls inside the half-open interval `[start, end)`.
    pub open spec fn spec_contains(self, t: TimeStamp) -> bool {
        self.start <= t < self.end
    }

    /// Executable mirror of [`TimeSpan::spec_contains`].
    pub fn contains(&self, t: TimeStamp) -> (r: bool)
        ensures
            r == self.spec_contains(t),
    {
        self.start <= t && t < self.end
    }
}

} // verus!
