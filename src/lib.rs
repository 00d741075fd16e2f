//! The storage core of an append-only key-value log: the durable record
//! format with its checksum, the storage media a data file sits on, data
//! files themselves, and the in-memory index from key to record location.
pub mod data;
pub mod data_file;
pub mod errors;
pub mod indexer;
pub mod io;
pub mod varint;
