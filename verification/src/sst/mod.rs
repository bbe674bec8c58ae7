//! Sorted string tables: blocks of records, the bloom filter of their keys,
//! and the layout of a table file.
pub mod block_builder;
pub mod bloom_filter;
pub mod sst_builder;
