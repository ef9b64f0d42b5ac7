//! An embedded, single-file key-value storage engine: an ordered map from
//! byte keys to byte values, stored as a B+tree of 4096-byte pages over a
//! memory-mapped file, with durable commits and snapshot reads.

pub mod codec;
pub mod order;
pub mod page;
pub mod search;
pub mod mmapio;
pub mod db;
pub mod btree;
pub mod tree;
pub mod laws;
