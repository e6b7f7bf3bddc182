//! Key-value entries as a storage engine writes them, and the errors the
//! planning functions report.
use vstd::prelude::*;
use crate::bitmap::deserialized_contents;
use crate::keys::shard_key_bytes;
use crate::layout::ShardView;

verus! {

/// One key-value pair to store: a shard key and a serialized treemap.
pub struct ShardEntry {
    pub key: Vec<u8>,
    pub value: Vec<u8>,
}

/// Why a stored history could not be read.
#[derive(Debug, Clone, Copy, PartialEq, Eq, Structural)]
pub enum ShardError {
    /// A stored value is not a serialized treemap.
    CorruptValue,
}

/// `e` is the entry of the shard of `address` keyed by `highest` that holds
/// exactly `contents`.
pub open spec fn entry_is(e: ShardEntry, address: Seq<u8>, highest: u64, contents: Set<u64>) -> bool {
    &&& e.key@ == shard_key_bytes(address, highest)
    &&& deserialized_contents(e.value@) == Some(contents)
}

/// `es` are, in order, the entries of the shards `shards` of `address`.
pub open spec fn entries_hold(es: Seq<ShardEntry>, address: Seq<u8>, shards: Seq<ShardView>) -> bool {
    &&& es.len() == shards.len()
    &&& forall|i: int|
        0 <= i < es.len() ==> #[trigger] entry_is(es[i], address, shards[i].0, shards[i].1.to_set())
}

} // verus!
