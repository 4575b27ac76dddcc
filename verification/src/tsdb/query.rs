//! Query datatypes.
//!
//! The database is asked for a time interval at a requested resolution and
//! answers with a [`QueryResult`]: either raw observations, when the caller
//! effectively asks for raw density, or pre-aggregated buckets.

use crate::time::{TimeSpan, TimeStamp};
use crate::tsdb::sample::{Aggregation, Observation};
use vstd::prelude::*;

verus! {

/// The resolution a timestamp axis is expressed in.
#[derive(Clone, Copy, PartialEq, Eq, Structural, Debug)]
pub enum Resolution {
    NanoSeconds,
}

/// A malformed query (empty interval or zero bucket budget) is a caller
/// bug; it is signalled rather than silently answered with an empty result.
#[derive(Clone, Copy, PartialEq, Eq, Structural, Debug)]
pub enum QueryError {
    InvalidRange,
}

/// A range query: a half-open time interval, the resolution its boundaries
/// are expressed in, and the target number of result buckets.
#[derive(Clone, Copy, PartialEq, Eq, Structural, Debug)]
pub struct Query {
    pub interval: TimeSpan,
    pub resolution: Resolution,
    pub amount: usize,
}

impl Query {
    /// Start building a query.
    pub fn create() -> (r: QueryBuilder)
        ensures
            r.spec_start() is None,
            r.spec_end() is None,
            r.spec_amount() == 10,
    {
        QueryBuilder::new()
    }

    pub fn new(interval: TimeSpan, resolution: Resolution, amount: usize) -> (r: Query)
        ensures
            r.interval == interval,
            r.resolution == resolution,
            r.amount == amount,
    {
        Query { interval, resolution, amount }
    }

    /// A query is answerable when its interval is non-empty and it asks for
    /// at least one bucket.
    pub open spec fn spec_valid(self) -> bool {
        self.interval.spec_valid() && self.amount >= 1
    }
}

/// Builder for [`Query`].  The `start` and `end` boundaries are mandatory;
/// `amount` defaults to 10.
pub struct QueryBuilder {
    start: Option<TimeStamp>,
    end: Option<TimeStamp>,
    amount: usize,
}

impl QueryBuilder {
    pub closed spec fn spec_start(self) -> Option<TimeStamp> {
        self.start
    }

    pub closed spec fn spec_end(self) -> Option<TimeStamp> {
        self.end
    }

    pub closed spec fn spec_amount(self) -> usize {
        self.amount
    }

    fn new() -> (r: QueryBuilder)
        ensures
            r.spec_start() is None,
            r.spec_end() is None,
            r.spec_amount() == 10,
    {
        QueryBuilder { start: None, end: None, amount: 10 }
    }

    /// Select the start point for this query.
    pub fn start(self, start: TimeStamp) -> (r: QueryBuilder)
        ensures
            r.spec_start() == Some(start),
            r.spec_end() == self.spec_end(),
            r.spec_amount() == self.spec_amount(),
    {
        QueryBuilder { start: Some(start), ..self }
    }

    /// Select the end timestamp for this query.
    pub fn end(self, end: TimeStamp) -> (r: QueryBuilder)
        ensures
            r.spec_start() == self.spec_start(),
            r.spec_end() == Some(end),
            r.spec_amount() == self.spec_amount(),
    {
        QueryBuilder { end: Some(end), ..self }
    }

    /// Select the target number of result buckets.
    pub fn amount(self, amount: usize) -> (r: QueryBuilder)
        ensures
            r.spec_start() == self.spec_start(),
            r.spec_end() == self.spec_end(),
            r.spec_amount() == amount,
    {
        QueryBuilder { amount, ..self }
    }

    /// Finish building the query.  Building without both boundaries is a
    /// caller programming error, so both must have been given.
    pub fn build(self) -> (r: Query)
        requires
            self.spec_start() is Some,
            self.spec_end() is Some,
        ensures
            r.interval.start == self.spec_start().unwrap(),
            r.interval.end == self.spec_end().unwrap(),
            r.resolution == Resolution::NanoSeconds,
            r.amount == self.spec_amount(),
    {
        let start = self.start.unwrap();
        let end = self.end.unwrap();
        Query::new(TimeSpan::new(start, end), Resolution::NanoSeconds, self.amount)
    }
}

/// The payload of a successful query: raw observations when the requested
/// density reaches the raw data, otherwise aggregated buckets.
#[derive(Debug)]
pub enum RangeQueryResult {
    Raw(Vec<Observation>),
    Aggregations(Vec<Aggregation>),
}

impl RangeQueryResult {
    /// Number of samples or buckets held.
    pub open spec fn spec_len(&self) -> int {
        match self {
            RangeQueryResult::Raw(v) => v@.len() as int,
            RangeQueryResult::Aggregations(v) => v@.len() as int,
        }
    }

    pub fn len(&self) -> (r: usize)
        ensures
            r == self.spec_len(),
    {
        match self {
            RangeQueryResult::Raw(v) => v.len(),
            RangeQueryResult::Aggregations(v) => v.len(),
        }
    }
}

/// The result of a query: the query it answers (so the caller can still
/// inspect what was asked, also for a signal that does not exist) and the
/// payload, which is absent exactly for unknown signal names.
#[derive(Debug)]
pub struct QueryResult {
    pub query: Query,
    pub inner: Option<RangeQueryResult>,
}

impl QueryResult {
    /// Number of result buckets or samples.
    pub open spec fn spec_len(&self) -> int {
        match &self.inner {
            None => 0,
            Some(r) => r.spec_len(),
        }
    }

    pub fn len(&self) -> (r: usize)
        ensures
            r == self.spec_len(),
    {
        match &self.inner {
            None => 0,
            Some(inner) => inner.len(),
        }
    }
}

} // verus!
