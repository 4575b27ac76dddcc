//! A time-series storage and query engine.
//!
//! Scalar samples tagged with a signal name and a nanosecond timestamp are
//! appended to per-signal traces.  Each trace keeps a hierarchical
//! aggregation index (min/max/sum/count summaries over chunks of samples,
//! grouped again level by level), so that range queries can be answered at an
//! arbitrary requested resolution without touching every raw sample.
//!
//! The registry ([`tsdb::TsDb`]) maps signal names to traces, and the handle
//! ([`tsdb::TsDbHandle`]) adds a change-notification fan-out for reactive
//! consumers.

pub mod canvas;
pub mod coresight;
pub mod gui;
pub mod time;
pub mod tracer;
pub mod tsdb;
