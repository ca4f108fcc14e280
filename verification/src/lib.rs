//! Storage core of a log-structured key-value store.
//!
//! Writes go to an in-memory buffer ([`memtable`]) that keeps its entries in
//! key order and remembers a deleted key by a tombstone. A full buffer is
//! frozen and flushed: its entries become the data file and the index file
//! of the next generation ([`disktable`]). A key is looked up in the
//! generations from the newest down, so that the newest value wins and a
//! tombstone hides every older value.
//!
//! The library reads and writes no file itself. It says which file is to be
//! read, written or removed, and is told the outcome.

pub mod disktable;
pub mod key_order;
pub mod memtable;
