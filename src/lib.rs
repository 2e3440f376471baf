//! A single-node time-series storage engine: points, a write-ahead log
//! framing, an in-memory table, block-structured segment files, a segment
//! catalog and the merging read path.
pub mod data;
pub mod text;
pub mod tags_json;
pub mod block;
pub mod sstable;
pub mod memtable;
pub mod router;
pub mod catalog;
pub mod ast;
pub mod index;
pub mod validator;
pub mod planner;
pub mod flush;
pub mod wal;
pub mod executor;
pub mod laws;
