//! A durable, append-only stream-log storage core.
//!
//! The crate models the storage substrate of a replicated stream store: a
//! little-endian buffer codec, CRC-guarded record frames, a per-stream
//! in-memory index with epoch-guarded writes, a group-commit write pipeline,
//! a manifest-driven version set, and the per-stream observer state machine
//! that drives replication, sealing and catch-up.

use vstd::prelude::*;

pub mod catalog;
pub mod channel;
pub mod codec;
pub mod crc;
pub mod expression;
pub mod function;
pub mod log;
pub mod manifest;
pub mod observer;
pub mod pipeline;
pub mod plan;
pub mod reader;
pub mod record;
pub mod streamdb;
pub mod tributary;
pub mod types;

verus! {

} // verus!
