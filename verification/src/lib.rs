//! A key-value store kept as a log of length-prefixed records, with an
//! index from keys to the record that holds their latest value; the line
//! protocol of its client and server; and an engine over an embedded `sled`
//! database.
use vstd::prelude::*;

pub mod codec;
pub mod command;
pub mod decimal;
pub mod engine;
pub mod error;
pub mod index;
pub mod lines;
pub mod protocol;
pub mod server;
pub mod sled_engine;
pub mod store;
pub mod thread_pool;
pub mod wal;

pub use engine::KvsEngine;
pub use error::{KvStoreError, Result};
pub use protocol::gen_cmd;
pub use sled_engine::SledStore;
pub use store::KvStoreInner;
pub use wal::{get_wal_file_name, WAL};

verus! {
} // verus!
