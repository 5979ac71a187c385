//! A log-structured key-value store: the byte formats of its log and of its
//! wire protocol, the index and garbage accounting of its engine, compaction
//! planning, and the supervision rule of its worker pool.

pub mod codec;
pub mod error;
pub mod record;
pub mod replay;
pub mod store;
pub mod files;
pub mod protocol;
pub mod engine;
pub mod sled_engine;
pub mod pool;
