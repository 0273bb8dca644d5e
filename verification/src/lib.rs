//! A verified write-ahead log (WAL) for an embedded ordered key-value
//! store: a binary record codec, a log envelope carrying a monotonic
//! sequence number, and a stateful manager whose replay procedure
//! rebuilds the in-memory index after a restart or crash.
//!
//! The library works on in-memory byte buffers; the surrounding
//! application owns the log file itself and hands its bytes in and the
//! bytes to append out.

pub mod bytes;
pub mod error;
pub mod kvrecord;
pub mod laws;
pub mod memtable;
pub mod wal;
