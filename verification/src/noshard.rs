//! The no-shard approach: the whole history of an address in one entry, keyed
//! by the address's sentinel key.
use vstd::prelude::*;
use roaring::RoaringTreemap;
use crate::bitmap::{
    append_accepts, bitmap_append, bitmap_from_sorted, bitmap_to_bytes, bitmap_values,
    deserialized_contents, empty_bitmap, option_contents, sorted_elements, treemap_bytes,
    treemap_contents, treemap_last_partition_filled,
};
use crate::entry::{entry_is, ShardEntry};
use crate::keys::sentinel_key;
use crate::layout::{keep_below, lemma_keep_below_contains, lemma_keep_below_prefix};

verus! {

/// What unwinding the single entry asks for.
pub enum NoshardUnwind {
    /// Nothing is stored: nothing to do.
    Untouched,
    /// No block number stays: delete the entry.
    Delete,
    /// Put this value back under the same key.
    Put(Vec<u8>),
}

/// Store all block numbers as a single compressed value: the entry to put, whose
/// value is the serialized treemap.
pub fn noshard_store(address: &[u8; 20], blocks: &RoaringTreemap) -> (entry: ShardEntry)
    ensures
        entry_is(entry, address@, u64::MAX, treemap_contents(*blocks)),
        entry.value@ == treemap_bytes(*blocks),
{
    let key = sentinel_key(address);
    let value = bitmap_to_bytes(blocks);
    ShardEntry { key, value }
}

/// Append new block numbers to the single value (read-modify-write of the whole
/// bitmap): the entry to put, from the stored treemap (`None` where nothing is
/// stored). The new block numbers must increase strictly and exceed every
/// stored one.
pub fn noshard_append(
    address: &[u8; 20],
    existing: Option<RoaringTreemap>,
    new_blocks: &[u64],
) -> (entry: ShardEntry)
    requires
        existing matches Some(t) ==> treemap_last_partition_filled(t),
        append_accepts(option_contents(existing), new_blocks@),
    ensures
        entry_is(entry, address@, u64::MAX, option_contents(existing).union(new_blocks@.to_set())),
{
    let mut bm = match existing {
        Some(data) => data,
        None => empty_bitmap(),
    };
    bitmap_append(&mut bm, new_blocks);
    let key = sentinel_key(address);
    let value = bitmap_to_bytes(&bm);
    ShardEntry { key, value }
}

/// Unwind for the no-shard approach: read the whole bitmap, keep the block
/// numbers below `unwind_to`, and rewrite it, or delete it where none stays.
pub fn noshard_unwind(existing: Option<RoaringTreemap>, unwind_to: u64) -> (r: NoshardUnwind)
    ensures
        existing is None ==> r is Untouched,
        existing matches Some(bm) ==> {
            let kept = keep_below(sorted_elements(treemap_contents(bm)), unwind_to);
            &&& kept.to_set() == treemap_contents(bm).filter(|b: u64| b < unwind_to)
            &&& kept.len() == 0 ==> r is Delete
            &&& kept.len() > 0 ==> (r matches NoshardUnwind::Put(value) && deserialized_contents(
                value@,
            ) == Some(kept.to_set()))
        },
{
    match existing {
        None => NoshardUnwind::Untouched,
        Some(bm) => {
            let values = bitmap_values(&bm);
            let mut kept: Vec<u64> = Vec::new();
            let mut i: usize = 0;
            while i < values.len() && values[i] < unwind_to
                invariant
                    i <= values@.len(),
                    kept@ == values@.take(i as int),
                    forall|j: int| 0 <= j < i ==> values@[j] < unwind_to,
                decreases values@.len() - i,
            {
                kept.push(values[i]);
                i = i + 1;
                assert(kept@ =~= values@.take(i as int));
            }
            proof {
                lemma_keep_below_prefix(values@, unwind_to);
                let k = keep_below(values@, unwind_to).len() as int;
                if k < i {
                    assert(values@[k] >= unwind_to);
                }
                if k > i {
                    assert(keep_below(values@, unwind_to)[i as int] == values@[i as int]);
                }
                assert(kept@ == keep_below(values@, unwind_to));
                assert forall|x: u64|
                    kept@.to_set().contains(x) == treemap_contents(bm).filter(
                        |b: u64| b < unwind_to,
                    ).contains(x) by {
                    lemma_keep_below_contains(values@, unwind_to, x);
                }
                assert(kept@.to_set() =~= treemap_contents(bm).filter(|b: u64| b < unwind_to));
            }
            if kept.len() == 0 {
                NoshardUnwind::Delete
            } else {
                let new_bm = bitmap_from_sorted(&kept);
                NoshardUnwind::Put(bitmap_to_bytes(&new_bm))
            }
        },
    }
}

} // verus!
