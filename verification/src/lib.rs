//! Verified core of a swarm-protocol file-download client.
//!
//! The crate covers the length-prefixed wire-frame codec, the rarest-first
//! piece-selection strategy, the piece-to-file write layout, the persistent
//! piece bitfield, the per-peer protocol engine, and the binary tracker and
//! node-lookup messages.  Network and disk I/O live outside the library;
//! callers hand it plain values and apply the actions it returns.

pub mod bitfield;
pub mod engine;
pub mod magnet;
pub mod messages;
pub mod metadata;
pub mod ring_buffer;
pub mod storage;
pub mod strategy;
pub mod tracker;
pub mod utils;

use vstd::prelude::*;

verus! {

/// Length in bytes of a block, the unit of piece transfer.
pub const BLOCK_LEN: u32 = 16384;

} // verus!
