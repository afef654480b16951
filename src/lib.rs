//! Storage layer of a blockchain client: a content-addressed, reference-counted
//! overlay over a write-cached, batch-written persistent key/value store.
//!
//! The durable engine itself is driven from outside the library: every module
//! here computes what has to be read or written, and the caller performs it.
pub mod assoc;
pub mod bytes;
pub mod error;
pub mod keccak;
pub mod transaction;
pub mod write_cache;
pub mod memory_overlay;
pub mod database;
pub mod overlaydb;

pub use crate::database::{Database, DatabaseConfig, StoreRead};
pub use crate::error::Error;
pub use crate::overlaydb::{DeletionMode, Lookup, OverlayDB};
pub use crate::transaction::{BatchOp, DBTransaction};
pub use crate::write_cache::WriteQue;
