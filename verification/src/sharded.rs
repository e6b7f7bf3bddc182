//! The sharded approach: the history of an address split into shards of a
//! fixed size. Each function here decides what to read and write; the storage
//! engine that performs the reads and writes calls them.
use vstd::prelude::*;
use roaring::RoaringTreemap;
use crate::bitmap::{
    append_accepts, bitmap_append, bitmap_contains, bitmap_first, bitmap_from_sorted, bitmap_len,
    bitmap_to_bytes, bitmap_union_with, bitmap_values, decode_bitmap, deserialized_contents,
    empty_bitmap, option_contents, sorted_elements, strictly_increasing, treemap_contents,
    treemap_last_partition_filled,
};
use crate::entry::{entries_hold, entry_is, ShardEntry, ShardError};
use crate::keys::{
    key_belongs_to, key_highest, key_highest_block, key_of_address, lemma_shard_key_order,
    lemma_shard_key_parts, lex_lt, sentinel_key, shard_key, shard_key_bytes, ADDRESS_LEN,
};
use crate::layout::{
    first_shard_at_or_above, history, keep_below, lemma_keep_below_prefix, lemma_point_query_law,
    lemma_shard_chunks_valid, shard_chunks, unwind_decision, valid_layout, ShardView,
};

verus! {

/// The writes that appending to the sentinel shard asks for: delete the old
/// sentinel first if `delete_sentinel`, then put every entry of `puts`.
pub struct ShardWrites {
    pub delete_sentinel: bool,
    pub puts: Vec<ShardEntry>,
}

/// What to do with the shard under the cursor while unwinding.
pub enum UnwindStep {
    /// The entry belongs to another address: stop without touching it.
    Stop,
    /// Delete the shard and move on to the one before it.
    Delete,
    /// Delete the shard, stop, and put this entry as the new sentinel.
    DeleteAndRestore(ShardEntry),
}

/// The entries of the shards `shard_chunks(all, shard_size)` for `address`.
fn shard_entries(address: &[u8; 20], all: &[u64], shard_size: usize) -> (entries: Vec<ShardEntry>)
    requires
        strictly_increasing(all@),
        shard_size > 0,
    ensures
        entries_hold(entries@, address@, shard_chunks(all@, shard_size as nat)),
{
    let len = all.len();
    let mut entries: Vec<ShardEntry> = Vec::new();
    let mut start: usize = 0;
    let ghost done: Seq<ShardView> = Seq::empty();
    assert(all@.skip(0) =~= all@);
    while start < len
        invariant
            start <= len,
            len == all@.len(),
            shard_size > 0,
            strictly_increasing(all@),
            shard_chunks(all@, shard_size as nat) == done + shard_chunks(
                all@.skip(start as int),
                shard_size as nat,
            ),
            entries_hold(entries@, address@, done),
        decreases len - start,
    {
        let end: usize = if len - start > shard_size {
            start + shard_size
        } else {
            len
        };
        let chunk = &all[start..end];
        assert(strictly_increasing(chunk@)) by {
            assert forall|i: int, j: int| 0 <= i < j < chunk@.len() implies chunk@[i]
                < chunk@[j] by {
                assert(chunk@[i] == all@[start + i]);
                assert(chunk@[j] == all@[start + j]);
            }
        }
        let bm = bitmap_from_sorted(chunk);
        let value = bitmap_to_bytes(&bm);
        let highest: u64 = if end == len {
            u64::MAX
        } else {
            chunk[chunk.len() - 1]
        };
        let key = shard_key(address, highest);
        let ghost rest = all@.skip(start as int);
        proof {
            let s = shard_size as nat;
            if end == len {
                assert(chunk@ =~= rest);
                assert(all@.skip(end as int) =~= Seq::<u64>::empty());
                assert(shard_chunks(rest, s) == seq![(u64::MAX, rest)]);
                assert(shard_chunks(all@.skip(end as int), s) =~= Seq::<ShardView>::empty());
            } else {
                assert(chunk@ =~= rest.take(s as int));
                assert(rest.skip(s as int) =~= all@.skip(end as int));
                assert(rest[s - 1] == chunk@[chunk@.len() - 1]);
            }
            let piece: ShardView = (highest, chunk@);
            assert(shard_chunks(rest, s) =~= seq![piece] + shard_chunks(
                all@.skip(end as int),
                s,
            ));
            assert(done + (seq![piece] + shard_chunks(all@.skip(end as int), s)) =~= done.push(
                piece,
            ) + shard_chunks(all@.skip(end as int), s));
        }
        let ghost prev_entries = entries@;
        let ghost prev_done = done;
        entries.push(ShardEntry { key, value });
        proof {
            done = done.push((highest, chunk@));
            assert forall|i: int| 0 <= i < entries@.len() implies #[trigger] entry_is(
                entries@[i],
                address@,
                done[i].0,
                done[i].1.to_set(),
            ) by {
                if i < entries@.len() - 1 {
                    assert(entries@[i] == prev_entries[i]);
                    assert(done[i] == prev_done[i]);
                    assert(entry_is(
                        prev_entries[i],
                        address@,
                        prev_done[i].0,
                        prev_done[i].1.to_set(),
                    ));
                }
            }
        }
        start = end;
    }
    assert(all@.skip(len as int) =~= Seq::<u64>::empty());
    assert(done + Seq::<ShardView>::empty() =~= done);
    entries
}

/// Bulk-load the history `all_blocks` of `address` as shards of `shard_size`,
/// as during an initial sync: the entries to put. Frozen shards are keyed by
/// their highest block number, the last shard by `u64::MAX`.
pub fn sharded_bulk_load(address: &[u8; 20], all_blocks: &RoaringTreemap, shard_size: usize) -> (entries:
    Vec<ShardEntry>)
    requires
        shard_size > 0,
        treemap_contents(*all_blocks).len() + shard_size - 1 <= usize::MAX,
    ensures
        entries_hold(
            entries@,
            address@,
            shard_chunks(sorted_elements(treemap_contents(*all_blocks)), shard_size as nat),
        ),
        valid_layout(
            shard_chunks(sorted_elements(treemap_contents(*all_blocks)), shard_size as nat),
            shard_size as nat,
        ),
        history(shard_chunks(sorted_elements(treemap_contents(*all_blocks)), shard_size as nat))
            == sorted_elements(treemap_contents(*all_blocks)),
{
    let all = bitmap_values(all_blocks);
    proof {
        lemma_shard_chunks_valid(all@, shard_size as nat);
    }
    shard_entries(address, &all, shard_size)
}

/// Append new block numbers to the sentinel shard, as reth's
/// `append_history_index` does: the sentinel (or an empty one where none is
/// stored) takes the new block numbers; if it then holds at most `shard_size`
/// it is written back, else it is deleted and split into full frozen chunks
/// and a remainder that becomes the new sentinel. The new block numbers must
/// increase strictly and exceed every block number of the sentinel.
pub fn sharded_append(
    address: &[u8; 20],
    sentinel: Option<RoaringTreemap>,
    new_blocks: &[u64],
    shard_size: usize,
) -> (w: ShardWrites)
    requires
        sentinel matches Some(t) ==> treemap_last_partition_filled(t),
        append_accepts(option_contents(sentinel), new_blocks@),
        shard_size > 0 || (option_contents(sentinel) == Set::<u64>::empty() && new_blocks@.len()
            == 0),
    ensures
        ({
            let merged = option_contents(sentinel).union(new_blocks@.to_set());
            if merged.len() <= shard_size {
                &&& !w.delete_sentinel
                &&& w.puts@.len() == 1
                &&& entry_is(w.puts@[0], address@, u64::MAX, merged)
            } else {
                &&& w.delete_sentinel
                &&& entries_hold(
                    w.puts@,
                    address@,
                    shard_chunks(sorted_elements(merged), shard_size as nat),
                )
            }
        }),
{
    let mut last_shard = match sentinel {
        Some(bm) => bm,
        None => empty_bitmap(),
    };
    bitmap_append(&mut last_shard, new_blocks);
    let len = bitmap_len(&last_shard);
    if len <= shard_size as u64 {
        let value = bitmap_to_bytes(&last_shard);
        let key = sentinel_key(address);
        let mut puts: Vec<ShardEntry> = Vec::new();
        puts.push(ShardEntry { key, value });
        return ShardWrites { delete_sentinel: false, puts };
    }
    proof {
        if shard_size == 0 {
            assert(new_blocks@.to_set() =~= Set::<u64>::empty());
            assert(treemap_contents(last_shard) =~= Set::<u64>::empty());
        }
    }
    let all = bitmap_values(&last_shard);
    let puts = shard_entries(address, &all, shard_size);
    ShardWrites { delete_sentinel: true, puts }
}

/// Point query: given the first entry at or after `shard_key(address,
/// target_block)` (`None` where there is none), whether `target_block` is in the
/// history of `address`. The entry answers only where it belongs to `address`.
pub fn sharded_point_query(
    address: &[u8; 20],
    target_block: u64,
    found: Option<(&[u8], &[u8])>,
) -> (r: Result<bool, ShardError>)
    ensures
        match found {
            None => r == Ok::<bool, ShardError>(false),
            Some((key, value)) => if !key_of_address(key@, address@) {
                r == Ok::<bool, ShardError>(false)
            } else {
                match deserialized_contents(value@) {
                    None => r == Err::<bool, ShardError>(ShardError::CorruptValue),
                    Some(contents) => r == Ok::<bool, ShardError>(contents.contains(target_block)),
                }
            },
        },
        r == Ok::<bool, ShardError>(true) ==> (found matches Some((key, value)) && key@.len()
            >= ADDRESS_LEN && key@.subrange(0, ADDRESS_LEN as int) == address@),
        (found matches Some((key, value)) && (key@.len() < ADDRESS_LEN || exists|i: int|
            0 <= i < ADDRESS_LEN && key@[i] != address@[i])) ==> r == Ok::<bool, ShardError>(false),
{
    match found {
        None => Ok(false),
        Some((key, value)) => {
            if !key_belongs_to(key, address) {
                return Ok(false);
            }
            match decode_bitmap(value) {
                None => Err(ShardError::CorruptValue),
                Some(bm) => Ok(bitmap_contains(&bm, target_block)),
            }
        },
    }
}

/// One step of a full scan: the cursor stands on `key`/`value`. Where the entry
/// belongs to `address`, its block numbers join `result` and the scan goes on
/// (`Ok(true)`); otherwise the scan is over (`Ok(false)`, `result` untouched).
pub fn sharded_full_scan_step(
    address: &[u8; 20],
    result: &mut RoaringTreemap,
    key: &[u8],
    value: &[u8],
) -> (r: Result<bool, ShardError>)
    ensures
        !key_of_address(key@, address@) ==> r == Ok::<bool, ShardError>(false)
            && treemap_contents(*final(result)) == treemap_contents(*old(result)),
        key_of_address(key@, address@) ==> match deserialized_contents(value@) {
            None => r == Err::<bool, ShardError>(ShardError::CorruptValue)
                && treemap_contents(*final(result)) == treemap_contents(*old(result)),
            Some(contents) => r == Ok::<bool, ShardError>(true) && treemap_contents(*final(result))
                == treemap_contents(*old(result)).union(contents),
        },
        key@.len() < ADDRESS_LEN || (exists|i: int| 0 <= i < ADDRESS_LEN && key@[i] != address@[i])
            ==> r == Ok::<bool, ShardError>(false) && treemap_contents(*final(result))
            == treemap_contents(*old(result)),
        treemap_contents(*final(result)) != treemap_contents(*old(result)) || r == Ok::<
            bool,
            ShardError,
        >(true) ==> key@.len() >= ADDRESS_LEN && key@.subrange(0, ADDRESS_LEN as int) == address@,
{
    if !key_belongs_to(key, address) {
        return Ok(false);
    }
    match decode_bitmap(value) {
        None => Err(ShardError::CorruptValue),
        Some(bm) => {
            bitmap_union_with(result, bm);
            Ok(true)
        },
    }
}

/// The leading block numbers of `values` below `bound`.
fn take_below(values: &Vec<u64>, bound: u64) -> (kept: Vec<u64>)
    requires
        strictly_increasing(values@),
    ensures
        kept@ == keep_below(values@, bound),
{
    let mut kept: Vec<u64> = Vec::new();
    let mut i: usize = 0;
    while i < values.len() && values[i] < bound
        invariant
            i <= values@.len(),
            kept@ == values@.take(i as int),
            forall|j: int| 0 <= j < i ==> values@[j] < bound,
        decreases values@.len() - i,
    {
        kept.push(values[i]);
        i = i + 1;
        assert(kept@ =~= values@.take(i as int));
    }
    proof {
        lemma_keep_below_prefix(values@, bound);
        let k = keep_below(values@, bound).len() as int;
        if k < i {
            assert(values@[k] >= bound);
        }
        if k > i {
            assert(keep_below(values@, bound)[i as int] == values@[i as int]);
        }
    }
    kept
}

/// One step of unwinding `address` to `unwind_to`, walking back from the
/// sentinel (reth's `unwind_history_shards`): the cursor stands on
/// `key`/`value`. An entry of another address stops the walk. A shard whose
/// first block number is at or above `unwind_to` is deleted and the walk goes
/// on. Otherwise the shard is deleted and the walk stops; the block numbers
/// kept (those below `unwind_to` where `unwind_to` is at most the key's highest
/// block number, else all of them) become the new sentinel.
pub fn sharded_unwind_step(
    address: &[u8; 20],
    unwind_to: u64,
    key: &[u8],
    value: &[u8],
) -> (r: Result<UnwindStep, ShardError>)
    ensures
        !key_of_address(key@, address@) ==> r matches Ok(UnwindStep::Stop),
        key_of_address(key@, address@) ==> match deserialized_contents(value@) {
            None => r == Err::<UnwindStep, ShardError>(ShardError::CorruptValue),
            Some(contents) => match unwind_decision(contents, key_highest(key@), unwind_to) {
                None => r matches Ok(UnwindStep::Delete),
                Some(kept) => r matches Ok(UnwindStep::DeleteAndRestore(e)) && entry_is(
                    e,
                    address@,
                    u64::MAX,
                    kept.to_set(),
                ),
            },
        },
        key@.len() < ADDRESS_LEN || (exists|i: int| 0 <= i < ADDRESS_LEN && key@[i] != address@[i])
            ==> r matches Ok(UnwindStep::Stop),
        !(r matches Ok(UnwindStep::Stop)) ==> key@.len() >= ADDRESS_LEN && key@.subrange(
            0,
            ADDRESS_LEN as int,
        ) == address@,
{
    if !key_belongs_to(key, address) {
        return Ok(UnwindStep::Stop);
    }
    let bm = match decode_bitmap(value) {
        None => {
            return Err(ShardError::CorruptValue);
        },
        Some(bm) => bm,
    };
    let values = bitmap_values(&bm);
    let first_in_shard = match bitmap_first(&bm) {
        Some(first) => first,
        None => u64::MAX,
    };
    proof {
        if values@.len() > 0 {
            assert(values@.to_set().contains(values@[0]));
            let x = first_in_shard;
            assert(values@.to_set().contains(x));
            let j = choose|j: int| 0 <= j < values@.len() && values@[j] == x;
            assert(values@[0] <= values@[j]);
        } else {
            assert(values@.to_set() =~= Set::<u64>::empty());
        }
    }
    if first_in_shard >= unwind_to {
        return Ok(UnwindStep::Delete);
    }
    let highest_block = key_highest_block(key);
    let partial = if unwind_to <= highest_block {
        take_below(&values, unwind_to)
    } else {
        values
    };
    proof {
        lemma_keep_below_prefix(values@, unwind_to);
    }
    let restored = bitmap_from_sorted(&partial);
    let value = bitmap_to_bytes(&restored);
    let key = sentinel_key(address);
    Ok(UnwindStep::DeleteAndRestore(ShardEntry { key, value }))
}

/// Seeking `shard_key(address, target)` in a store that holds the shards of a
/// well-formed layout of `address` lands on the first shard keyed at or above
/// `target`: every earlier shard's key sorts before the seek key, and that
/// shard's key does not. By the point-query law it holds `target` exactly when
/// the history does.
pub proof fn lemma_seek_finds_shard(address: Seq<u8>, l: Seq<ShardView>, shard_size: nat, target: u64)
    requires
        valid_layout(l, shard_size),
        address.len() == ADDRESS_LEN,
    ensures
        ({
            let i = first_shard_at_or_above(l, target);
            let seek = shard_key_bytes(address, target);
            &&& forall|j: int| 0 <= j < i ==> lex_lt(#[trigger] shard_key_bytes(address, l[j].0), seek)
            &&& i < l.len() ==> !lex_lt(shard_key_bytes(address, l[i].0), seek)
            &&& i < l.len() ==> key_of_address(shard_key_bytes(address, l[i].0), address)
            &&& (history(l).contains(target) <==> i < l.len() && l[i].1.contains(target))
        }),
{
    lemma_point_query_law(l, shard_size, target);
    let i = first_shard_at_or_above(l, target);
    assert forall|j: int| 0 <= j < i implies lex_lt(
        #[trigger] shard_key_bytes(address, l[j].0),
        shard_key_bytes(address, target),
    ) by {
        lemma_shard_key_order(address, l[j].0, target);
    }
    if i < l.len() {
        lemma_shard_key_order(address, l[i].0, target);
        lemma_shard_key_parts(address, l[i].0);
    }
}

/// A full scan that starts at `shard_key(address, 0)` misses no shard of
/// `address`: every shard key of `address` sorts at or after the start key.
pub proof fn lemma_full_scan_start(address: Seq<u8>, highest: u64)
    requires
        address.len() == ADDRESS_LEN,
    ensures
        !lex_lt(shard_key_bytes(address, highest), shard_key_bytes(address, 0)),
        key_of_address(shard_key_bytes(address, highest), address),
{
    lemma_shard_key_order(address, highest, 0);
    lemma_shard_key_parts(address, highest);
}

} // verus!
