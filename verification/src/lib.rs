//! An embedded, ordered key/value store built on the log-structured
//! merge-tree design: a checksummed, block-aligned write-ahead log, an
//! ordered in-memory table with tombstones, immutable sorted tables with
//! Bloom filters, and an engine that resolves reads newest-first.
pub mod bloom_filter;
pub mod common;
pub mod comparator;
pub mod crc32c;
pub mod memtable;
pub mod saturndb;
pub mod sstable;
pub mod wal;
pub mod wal_format;
pub mod wal_laws;
pub mod wal_reader;
pub mod wal_writer;

pub use common::{Entry, Key, Value};
pub use saturndb::SaturnDB;
