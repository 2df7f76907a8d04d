//! A small log-structured key-value store in the Bitcask family: an append-only
//! log of checksummed records and an in-memory index from each key to the
//! location of its latest record.
pub mod bytes;
pub mod checksum;
pub mod engine;
pub mod entry;
pub mod error;
pub mod index;
pub mod util;
