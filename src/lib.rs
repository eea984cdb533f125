//! Monthly and per-product sales aggregation: header validation, record
//! parsing, partitioned aggregation with a deterministic merge, and the
//! ordering of the aggregates into chart-ready series.
pub mod aggregate;
pub mod error;
pub mod input;
pub mod pipeline;
pub mod plot;
pub mod record;
pub mod schema;
pub mod tally;
