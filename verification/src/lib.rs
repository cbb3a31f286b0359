//! A persistent key-value store built on a log-structured engine.
//!
//! Keys and values are opaque strings.  Writes append `Set` and `Rm`
//! records to numbered log segments; an in-memory index maps each live key
//! to the log pointer of its most recent `Set`.  Opening a directory
//! replays every segment to rebuild the index; rotation caps the active
//! segment's size, and compaction migrates sparse segments' live records
//! and deletes the leftovers.  A length-prefixed binary codec frames the
//! same records for the wire, and a small state machine drives the server's
//! dispatch loop.  The engine works on plain values — segment bytes in, a
//! directory image out — so every rule here is verified; the surrounding
//! process does the file and socket work.

pub mod codec;
pub mod engines;
pub mod errors;
pub mod kvs;
pub mod server;
pub mod shared;
pub mod sled;

pub use engines::KvsEngine;
pub use errors::KvsError;
pub use kvs::KvStore;
pub use sled::SledKvsEngine;
