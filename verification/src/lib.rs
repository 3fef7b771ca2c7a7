//! Per-key aggregation of `key;value` records read from large line-oriented
//! files.
//!
//! The crate holds the pure pieces of a chunked, parallel aggregation
//! pipeline: the aggregate monoid, the record grammar, the fold of a chunk
//! of records into a map of aggregates, the splitting of a byte stream into
//! record-aligned chunks, the merge of partial maps and the rendering of the
//! final report. Reading files and running threads is left to the caller.

pub mod agg_map;
pub mod aggregate;
pub mod chunk;
pub mod fold;
pub mod laws;
pub mod order;
pub mod pool;
pub mod record;
pub mod report;
pub mod table;
pub mod worker;
