//! A log-structured key-value store: the record codec, the wire messages,
//! the segment index with compaction and recovery, the sled-backed engine,
//! and the decisions of the server, the client and the worker pool.
use vstd::prelude::*;

pub mod codec;
pub mod protocol;
pub mod error;
pub mod index;
pub mod store;
pub mod history;
pub mod engine;
pub mod service;
pub mod segment_name;
pub mod pool;

pub use engine::{KvsEngine, SledKvsEngine};
pub use error::KvsError;
pub use protocol::{Request, Response};
pub use store::{LogStore, Position};

verus! {

} // verus!
