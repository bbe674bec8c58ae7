//! A log-structured merge tree storage engine: write-ahead log records,
//! memory tables, bloom filters and sorted string table blocks, with their
//! binary encodings.

pub mod encoding;
pub mod keys;
pub mod entries;
pub mod text;
pub mod mem_table;
pub mod bytes_reader;
pub mod types;
pub mod wal;
pub mod sst;
pub mod storage;
pub mod file_names;
