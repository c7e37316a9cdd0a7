//! A log-structured merge-tree storage engine for time series.
//!
//! The crate holds the rules of the engine: how rows are ordered and
//! superseded, how they are encoded in the write-ahead log and in column
//! batches, how layers are merged, and when tables are flushed and compacted.
//! Files, threads and locks belong to the program around it.

pub mod batch;
pub mod cells;
pub mod counters;
pub mod entries;
pub mod fnv;
pub mod little_endian;
pub mod memtable;
pub mod names;
pub mod order;
pub mod query;
pub mod run;
pub mod schema;
pub mod sstable;
pub mod types;
