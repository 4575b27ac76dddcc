//! Trace metrics over the wire.
//!
//! A [`TcpTracer`] mediates between the engine's absolute nanosecond
//! timestamps and the wire contract, which carries times elapsed since a
//! fixed reference instant.  The conversions are verified here; opening the
//! connection and moving bytes belong to the surrounding program.

use vstd::prelude::*;

verus! {

/// Converts between absolute timestamps and the elapsed times carried on
/// the wire, both in nanoseconds, relative to a fixed reference instant
/// (typically the moment the process started).
#[derive(Clone, Copy, Debug)]
pub struct TcpTracer {
    reference_ns: i64,
}

impl TcpTracer {
    /// The reference instant, as an absolute nanosecond timestamp.
    pub closed spec fn spec_reference(&self) -> i64 {
        self.reference_ns
    }

    pub fn new(reference_ns: i64) -> (r: TcpTracer)
        ensures
            r.spec_reference() == reference_ns,
    {
        TcpTracer { reference_ns }
    }

    /// The elapsed time to put on the wire for a measurement taken at the
    /// absolute timestamp `timestamp`: the distance to the reference
    /// instant.  `None` when the timestamp predates the reference instant
    /// or the distance does not fit -- such a measurement cannot be sent.
    pub fn elapsed_ns(&self, timestamp: i64) -> (r: Option<i64>)
        ensures
            (r is Some) <==> 0 <= timestamp - self.spec_reference() <= i64::MAX,
            r matches Some(d) ==> d == timestamp - self.spec_reference(),
    {
        let d: i128 = (timestamp as i128) - (self.reference_ns as i128);
        if 0 <= d && d <= i64::MAX as i128 {
            Some(d as i64)
        } else {
            None
        }
    }

    /// The absolute timestamp of an ingested observation that arrived with
    /// the given elapsed time on the wire.  `None` when the sum leaves the
    /// timestamp axis.
    pub fn absolute_ns(&self, elapsed_ns: i64) -> (r: Option<i64>)
        ensures
            (r is Some) <==> i64::MIN <= self.spec_reference() + elapsed_ns <= i64::MAX,
            r matches Some(t) ==> t == self.spec_reference() + elapsed_ns,
    {
        let t: i128 = (self.reference_ns as i128) + (elapsed_ns as i128);
        if i64::MIN as i128 <= t && t <= i64::MAX as i128 {
            Some(t as i64)
        } else {
            None
        }
    }
}

} // verus!
