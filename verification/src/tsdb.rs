//! The time-series database: samples, per-signal traces, the registry and
//! its concurrency-facing handle.

pub mod db;
pub mod handle;
pub mod query;
pub mod sample;
pub mod trace;

pub use db::TsDb;
pub use handle::{make_handle, DataChangeEvent, TsDbHandle};
pub use query::{Query, QueryBuilder, QueryError, QueryResult, RangeQueryResult, Resolution};
pub use sample::{Aggregation, Observation, Sample, SampleMetrics};
pub use trace::Trace;
