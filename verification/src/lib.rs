//! Sharded storage of per-address block-number histories.
//!
//! Each address owns a history: a strictly increasing list of block numbers,
//! kept as a compressed `RoaringTreemap`. The history is stored either as a
//! single key-value pair ("no shard") or split into shards of a fixed size,
//! where each frozen shard is keyed by its highest block number and the last
//! (sentinel) shard is keyed by `u64::MAX`.
//!
//! The modules hold the verified logic: key encoding, the bitmap boundary,
//! the layout model with its laws, and the planning functions whose results
//! a storage engine applies.
use vstd::prelude::*;

pub mod bitmap;
pub mod blocks;
pub mod entry;
pub mod keys;
pub mod layout;
pub mod noshard;
pub mod sharded;

verus! {

/// MDBX page size on Apple Silicon (16 KiB).
pub const PAGE_SIZE: usize = 16_384;

/// Size of one block number before compression (a `u64`).
pub const BLOCK_NUM_SIZE: usize = 8;

} // verus!
