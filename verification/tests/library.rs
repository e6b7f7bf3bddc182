//! Behaviour of the key encoding, the bitmap boundary and the planning
//! functions, checked on concrete values. A `BTreeMap` stands in for the
//! ordered key-value store (byte-wise key order, like MDBX's default).

use std::collections::BTreeMap;
use std::ops::Bound;

use bench_mdbx_shard::bitmap::{
    bitmap_append, bitmap_from_bytes, bitmap_from_sorted, bitmap_to_bytes, bitmap_values,
    can_append, generate_blocks, try_bitmap_from_bytes,
};
use bench_mdbx_shard::blocks::{generate_sparse_blocks, random_address, sparse_blocks};
use bench_mdbx_shard::entry::{ShardEntry, ShardError};
use bench_mdbx_shard::keys::{key_belongs_to, key_highest_block, sentinel_key, shard_key};
use bench_mdbx_shard::noshard::{noshard_append, noshard_store, noshard_unwind, NoshardUnwind};
use bench_mdbx_shard::sharded::{
    sharded_append, sharded_bulk_load, sharded_full_scan_step, sharded_point_query,
    sharded_unwind_step, UnwindStep,
};
use bench_mdbx_shard::{BLOCK_NUM_SIZE, PAGE_SIZE};
use roaring::RoaringTreemap;

type Store = BTreeMap<Vec<u8>, Vec<u8>>;

fn addr(b: u8) -> [u8; 20] {
    [b; 20]
}

fn put_all(store: &mut Store, entries: Vec<ShardEntry>) {
    for e in entries {
        store.insert(e.key, e.value);
    }
}

fn decode(bytes: &[u8]) -> Vec<u64> {
    bitmap_values(&bitmap_from_bytes(bytes))
}

fn shards_of(store: &Store, address: &[u8; 20]) -> Vec<(u64, Vec<u64>)> {
    store
        .iter()
        .filter(|(k, _)| key_belongs_to(k, address))
        .map(|(k, v)| (key_highest_block(k), decode(v)))
        .collect()
}

fn store_bulk_load(store: &mut Store, address: &[u8; 20], blocks: &[u64], shard_size: usize) {
    let bm = bitmap_from_sorted(blocks);
    put_all(store, sharded_bulk_load(address, &bm, shard_size));
}

fn store_append(store: &mut Store, address: &[u8; 20], new_blocks: &[u64], shard_size: usize) {
    let sent = sentinel_key(address);
    let existing = store.get(&sent).map(|d| try_bitmap_from_bytes(d).expect("deserialize failed"));
    let writes = sharded_append(address, existing, new_blocks, shard_size);
    if writes.delete_sentinel {
        store.remove(&sent);
    }
    put_all(store, writes.puts);
}

fn store_point_query(store: &Store, address: &[u8; 20], target: u64) -> bool {
    let seek = shard_key(address, target);
    let found = store.range::<Vec<u8>, _>((Bound::Included(seek), Bound::Unbounded)).next();
    let found = found.map(|(k, v)| (k.as_slice(), v.as_slice()));
    sharded_point_query(address, target, found).expect("deserialize failed")
}

fn store_full_scan(store: &Store, address: &[u8; 20]) -> Vec<u64> {
    let start = shard_key(address, 0);
    let mut result = RoaringTreemap::new();
    for (k, v) in store.range::<Vec<u8>, _>((Bound::Included(start), Bound::Unbounded)) {
        if !sharded_full_scan_step(address, &mut result, k, v).expect("deserialize failed") {
            break;
        }
    }
    bitmap_values(&result)
}

fn store_unwind(store: &mut Store, address: &[u8; 20], unwind_to: u64) {
    let mut cursor = sentinel_key(address);
    let mut restore: Option<ShardEntry> = None;
    if !store.contains_key(&cursor) {
        return;
    }
    loop {
        let value = store[&cursor].clone();
        match sharded_unwind_step(address, unwind_to, &cursor, &value).expect("deserialize failed") {
            UnwindStep::Stop => break,
            UnwindStep::Delete => {
                store.remove(&cursor);
                let prev = store
                    .range::<Vec<u8>, _>((Bound::Unbounded, Bound::Excluded(cursor.clone())))
                    .next_back()
                    .map(|(k, _)| k.clone());
                match prev {
                    Some(k) => cursor = k,
                    None => break,
                }
            }
            UnwindStep::DeleteAndRestore(entry) => {
                store.remove(&cursor);
                restore = Some(entry);
                break;
            }
        }
    }
    if let Some(e) = restore {
        store.insert(e.key, e.value);
    }
}

// ---------------------------------------------------------------------------
// Keys
// ---------------------------------------------------------------------------

#[test]
fn shard_key_is_address_then_big_endian_block() {
    let key = shard_key(&addr(0xAA), 0x0102_0304_0506_0708);
    let mut expected = vec![0xAAu8; 20];
    expected.extend_from_slice(&[1, 2, 3, 4, 5, 6, 7, 8]);
    assert_eq!(key, expected);
}

#[test]
fn sentinel_key_ends_with_max_block() {
    let key = sentinel_key(&addr(3));
    assert_eq!(key.len(), 28);
    assert_eq!(&key[..20], &[3u8; 20]);
    assert_eq!(&key[20..], &[0xFFu8; 8]);
}

#[test]
fn shard_keys_sort_as_block_numbers() {
    let a = addr(7);
    let numbers = [0u64, 1, 255, 256, 65_535, 1 << 40, u64::MAX - 1, u64::MAX];
    for &x in &numbers {
        for &y in &numbers {
            assert_eq!(shard_key(&a, x) < shard_key(&a, y), x < y);
        }
    }
}

#[test]
fn key_parts_read_back() {
    let a = addr(9);
    let key = shard_key(&a, 123_456_789);
    assert!(key_belongs_to(&key, &a));
    assert!(!key_belongs_to(&key, &addr(8)));
    assert!(!key_belongs_to(&key[..19], &a));
    assert_eq!(key_highest_block(&key), 123_456_789);
    assert_eq!(key_highest_block(&key[..27]), u64::MAX);
}

#[test]
fn page_and_block_sizes() {
    assert_eq!(PAGE_SIZE, 16_384);
    assert_eq!(BLOCK_NUM_SIZE, 8);
}

// ---------------------------------------------------------------------------
// Bitmaps
// ---------------------------------------------------------------------------

#[test]
fn bitmap_bytes_roundtrip() {
    let bm = bitmap_from_sorted(&[1, 5, 1 << 33, u64::MAX]);
    let bytes = bitmap_to_bytes(&bm);
    assert!(!bytes.is_empty());
    let back = bitmap_from_bytes(&bytes);
    assert_eq!(back, bm);
    assert_eq!(bitmap_values(&back), vec![1, 5, 1 << 33, u64::MAX]);
}

#[test]
fn garbage_bytes_do_not_decode() {
    assert!(try_bitmap_from_bytes(&[1, 2, 3]).is_none());
    assert!(try_bitmap_from_bytes(&[]).is_none());
}

#[test]
fn generated_consecutive_blocks() {
    let bm = generate_blocks(5);
    assert_eq!(bitmap_values(&bm), vec![0, 1, 2, 3, 4]);
    assert_eq!(bitmap_values(&generate_blocks(0)), Vec::<u64>::new());
}

#[test]
fn sparse_blocks_follow_gaps() {
    assert_eq!(sparse_blocks(4, &[3, 1, 10]), vec![4, 7, 8]);
    assert_eq!(sparse_blocks(0, &[]), Vec::<u64>::new());
}

#[test]
fn generated_sparse_blocks_are_spread() {
    let bm = generate_sparse_blocks(1000, 10);
    let values = bitmap_values(&bm);
    assert_eq!(values.len(), 1000);
    assert!(values[0] < 10);
    for w in values.windows(2) {
        assert!(w[1] > w[0] && w[1] - w[0] <= 20);
    }
}

#[test]
fn random_addresses_have_twenty_bytes() {
    let a = random_address();
    let b = random_address();
    assert_eq!(a.len(), 20);
    assert_ne!(a, b);
}

// ---------------------------------------------------------------------------
// Sharded: bulk load
// ---------------------------------------------------------------------------

#[test]
fn bulk_load_splits_into_frozen_shards_and_sentinel() {
    let a = addr(1);
    let blocks: Vec<u64> = (10..20).collect();
    let bm = bitmap_from_sorted(&blocks);
    let entries = sharded_bulk_load(&a, &bm, 4);
    assert_eq!(entries.len(), 3);
    assert_eq!(entries[0].key, shard_key(&a, 13));
    assert_eq!(entries[1].key, shard_key(&a, 17));
    assert_eq!(entries[2].key, sentinel_key(&a));
    assert_eq!(decode(&entries[0].value), vec![10, 11, 12, 13]);
    assert_eq!(decode(&entries[1].value), vec![14, 15, 16, 17]);
    assert_eq!(decode(&entries[2].value), vec![18, 19]);
}

#[test]
fn bulk_load_exact_multiple_keeps_full_sentinel() {
    let a = addr(1);
    let bm = bitmap_from_sorted(&[1, 2, 3, 4]);
    let entries = sharded_bulk_load(&a, &bm, 2);
    assert_eq!(entries.len(), 2);
    assert_eq!(entries[0].key, shard_key(&a, 2));
    assert_eq!(entries[1].key, sentinel_key(&a));
    assert_eq!(decode(&entries[1].value), vec![3, 4]);
}

#[test]
fn bulk_load_of_empty_history_writes_nothing() {
    let entries = sharded_bulk_load(&addr(1), &RoaringTreemap::new(), 100);
    assert!(entries.is_empty());
}

// ---------------------------------------------------------------------------
// Sharded: append
// ---------------------------------------------------------------------------

#[test]
fn append_that_fits_rewrites_the_sentinel() {
    let a = addr(2);
    let existing = bitmap_from_sorted(&[1, 2]);
    let writes = sharded_append(&a, Some(existing), &[5], 4);
    assert!(!writes.delete_sentinel);
    assert_eq!(writes.puts.len(), 1);
    assert_eq!(writes.puts[0].key, sentinel_key(&a));
    assert_eq!(decode(&writes.puts[0].value), vec![1, 2, 5]);
}

#[test]
fn append_without_sentinel_starts_one() {
    let a = addr(2);
    let writes = sharded_append(&a, None, &[7, 8], 4);
    assert!(!writes.delete_sentinel);
    assert_eq!(decode(&writes.puts[0].value), vec![7, 8]);
    let empty = sharded_append(&a, None, &[], 4);
    assert_eq!(decode(&empty.puts[0].value), Vec::<u64>::new());
}

#[test]
fn append_that_overflows_freezes_chunks() {
    let a = addr(2);
    let existing = bitmap_from_sorted(&[1, 2, 3]);
    let writes = sharded_append(&a, Some(existing), &[4, 5, 6], 2);
    assert!(writes.delete_sentinel);
    let keys: Vec<Vec<u8>> = writes.puts.iter().map(|e| e.key.clone()).collect();
    assert_eq!(keys, vec![shard_key(&a, 2), shard_key(&a, 4), sentinel_key(&a)]);
    assert_eq!(decode(&writes.puts[2].value), vec![5, 6]);
}

// ---------------------------------------------------------------------------
// Sharded: point query, full scan, unwind steps
// ---------------------------------------------------------------------------

#[test]
fn point_query_answers_from_the_found_shard() {
    let a = addr(4);
    let key = shard_key(&a, 30);
    let value = bitmap_to_bytes(&bitmap_from_sorted(&[21, 25, 30]));
    assert_eq!(sharded_point_query(&a, 25, Some((&key, &value))), Ok(true));
    assert_eq!(sharded_point_query(&a, 24, Some((&key, &value))), Ok(false));
    assert_eq!(sharded_point_query(&a, 25, None), Ok(false));
    let other = shard_key(&addr(5), 30);
    assert_eq!(sharded_point_query(&a, 25, Some((&other, &value))), Ok(false));
    assert_eq!(sharded_point_query(&a, 25, Some((&key, &[9, 9][..]))), Err(ShardError::CorruptValue));
}

#[test]
fn full_scan_step_merges_own_shards_only() {
    let a = addr(6);
    let mut acc = bitmap_from_sorted(&[1, 2]);
    let value = bitmap_to_bytes(&bitmap_from_sorted(&[3, 4]));
    assert_eq!(sharded_full_scan_step(&a, &mut acc, &shard_key(&a, 4), &value), Ok(true));
    assert_eq!(bitmap_values(&acc), vec![1, 2, 3, 4]);
    assert_eq!(sharded_full_scan_step(&a, &mut acc, &shard_key(&addr(7), 9), &value), Ok(false));
    assert_eq!(bitmap_values(&acc), vec![1, 2, 3, 4]);
    assert_eq!(
        sharded_full_scan_step(&a, &mut acc, &shard_key(&a, 9), &[0]),
        Err(ShardError::CorruptValue)
    );
}

#[test]
fn unwind_step_decisions() {
    let a = addr(8);
    let value = bitmap_to_bytes(&bitmap_from_sorted(&[10, 20, 30]));
    // another address: stop
    assert!(matches!(
        sharded_unwind_step(&a, 15, &shard_key(&addr(9), 30), &value),
        Ok(UnwindStep::Stop)
    ));
    // whole shard at or above the unwind point: delete and continue
    assert!(matches!(
        sharded_unwind_step(&a, 10, &sentinel_key(&a), &value),
        Ok(UnwindStep::Delete)
    ));
    // boundary shard: keep what lies below the unwind point
    match sharded_unwind_step(&a, 25, &sentinel_key(&a), &value) {
        Ok(UnwindStep::DeleteAndRestore(e)) => {
            assert_eq!(e.key, sentinel_key(&a));
            assert_eq!(decode(&e.value), vec![10, 20]);
        }
        _ => panic!("expected a restore"),
    }
    // shard entirely below the unwind point: restored whole as sentinel
    match sharded_unwind_step(&a, 40, &shard_key(&a, 30), &value) {
        Ok(UnwindStep::DeleteAndRestore(e)) => {
            assert_eq!(e.key, sentinel_key(&a));
            assert_eq!(decode(&e.value), vec![10, 20, 30]);
        }
        _ => panic!("expected a restore"),
    }
    // an empty shard is deleted
    let empty = bitmap_to_bytes(&RoaringTreemap::new());
    assert!(matches!(
        sharded_unwind_step(&a, 5, &sentinel_key(&a), &empty),
        Ok(UnwindStep::Delete)
    ));
    assert!(matches!(
        sharded_unwind_step(&a, 5, &sentinel_key(&a), &[1]),
        Err(ShardError::CorruptValue)
    ));
}

// ---------------------------------------------------------------------------
// Sharded: laws on a store
// ---------------------------------------------------------------------------

#[test]
fn bulk_load_then_full_scan_gives_the_history() {
    let a = addr(10);
    let b = addr(11);
    let mut store = Store::new();
    let history: Vec<u64> = (0..50).map(|i| i * 3 + 1).collect();
    store_bulk_load(&mut store, &a, &history, 7);
    store_bulk_load(&mut store, &b, &[2, 4, 6], 7);
    assert_eq!(store_full_scan(&store, &a), history);
    assert_eq!(store_full_scan(&store, &b), vec![2, 4, 6]);
    let shards = shards_of(&store, &a);
    for (i, (key, blocks)) in shards.iter().enumerate() {
        if i + 1 < shards.len() {
            assert_eq!(blocks.len(), 7);
            assert_eq!(*key, *blocks.last().unwrap());
        } else {
            assert_eq!(*key, u64::MAX);
            assert!(blocks.len() <= 7);
        }
    }
}

#[test]
fn appends_keep_history_and_layout() {
    let a = addr(12);
    let mut store = Store::new();
    let mut expected: Vec<u64> = Vec::new();
    for i in 0..40u64 {
        let next = [i * 2, i * 2 + 1];
        store_append(&mut store, &a, &next, 5);
        expected.extend_from_slice(&next);
    }
    assert_eq!(store_full_scan(&store, &a), expected);
    let shards = shards_of(&store, &a);
    for (i, (key, blocks)) in shards.iter().enumerate() {
        if i + 1 < shards.len() {
            assert_eq!(blocks.len(), 5);
            assert_eq!(*key, *blocks.last().unwrap());
        } else {
            assert_eq!(*key, u64::MAX);
            assert!(blocks.len() <= 5);
        }
    }
}

#[test]
fn point_query_agrees_with_the_history() {
    let a = addr(13);
    let mut store = Store::new();
    let history: Vec<u64> = (0..30).map(|i| i * 5).collect();
    store_bulk_load(&mut store, &a, &history, 4);
    store_bulk_load(&mut store, &addr(14), &[1, 2, 3], 4);
    for t in 0..160u64 {
        assert_eq!(store_point_query(&store, &a, t), history.contains(&t), "target {}", t);
    }
    assert!(!store_point_query(&store, &addr(15), 5));
}

#[test]
fn unwind_keeps_only_blocks_below() {
    for unwind_to in [0u64, 1, 14, 15, 16, 40, 42, 100, 1000] {
        let a = addr(16);
        let mut store = Store::new();
        let history: Vec<u64> = (0..30).map(|i| i * 3).collect();
        store_bulk_load(&mut store, &a, &history, 4);
        store_bulk_load(&mut store, &addr(15), &[1, 2, 3], 4);
        store_unwind(&mut store, &a, unwind_to);
        let kept: Vec<u64> = history.iter().copied().filter(|&b| b < unwind_to).collect();
        assert_eq!(store_full_scan(&store, &a), kept, "unwind to {}", unwind_to);
        assert_eq!(store_full_scan(&store, &addr(15)), vec![1, 2, 3]);
        let shards = shards_of(&store, &a);
        if let Some((key, blocks)) = shards.last() {
            assert_eq!(*key, u64::MAX);
            assert!(!blocks.is_empty() && blocks.len() <= 4);
        }
        // appending after an unwind continues the history
        store_append(&mut store, &a, &[5000, 5001], 4);
        let mut extended = kept.clone();
        extended.extend_from_slice(&[5000, 5001]);
        assert_eq!(store_full_scan(&store, &a), extended);
    }
}

// ---------------------------------------------------------------------------
// No-shard
// ---------------------------------------------------------------------------

#[test]
fn noshard_store_and_append() {
    let a = addr(20);
    let entry = noshard_store(&a, &bitmap_from_sorted(&[1, 2, 3]));
    assert_eq!(entry.key, sentinel_key(&a));
    assert_eq!(decode(&entry.value), vec![1, 2, 3]);
    let existing = bitmap_from_bytes(&entry.value);
    let appended = noshard_append(&a, Some(existing), &[9, 10]);
    assert_eq!(appended.key, sentinel_key(&a));
    assert_eq!(decode(&appended.value), vec![1, 2, 3, 9, 10]);
    let fresh = noshard_append(&a, None, &[4]);
    assert_eq!(decode(&fresh.value), vec![4]);
}

#[test]
fn noshard_unwind_outcomes() {
    assert!(matches!(noshard_unwind(None, 5), NoshardUnwind::Untouched));
    let bm = bitmap_from_sorted(&[3, 6, 9]);
    assert!(matches!(noshard_unwind(Some(bm.clone()), 3), NoshardUnwind::Delete));
    match noshard_unwind(Some(bm), 7) {
        NoshardUnwind::Put(v) => assert_eq!(decode(&v), vec![3, 6]),
        _ => panic!("expected a put"),
    }
}

// ---------------------------------------------------------------------------
// More laws on a store
// ---------------------------------------------------------------------------

fn snapshot(store: &Store) -> Vec<(Vec<u8>, Vec<u64>)> {
    store.iter().map(|(k, v)| (k.clone(), decode(v))).collect()
}

#[test]
fn unwinding_twice_is_unwinding_once() {
    for unwind_to in [0u64, 7, 20, 33, 90] {
        let a = addr(30);
        let mut store = Store::new();
        let history: Vec<u64> = (0..25).map(|i| i * 4).collect();
        store_bulk_load(&mut store, &a, &history, 3);
        store_unwind(&mut store, &a, unwind_to);
        let once = snapshot(&store);
        store_unwind(&mut store, &a, unwind_to);
        assert_eq!(snapshot(&store), once, "unwind to {}", unwind_to);
    }
}

#[test]
fn unwinding_above_every_block_changes_nothing() {
    let a = addr(31);
    let mut store = Store::new();
    store_bulk_load(&mut store, &a, &[1, 2, 3, 4, 5, 6, 7], 3);
    let before = snapshot(&store);
    store_unwind(&mut store, &a, 8);
    assert_eq!(snapshot(&store), before);
    // the sentinel remains exactly when some block below the point remains
    store_unwind(&mut store, &a, 1);
    assert!(!store.contains_key(&sentinel_key(&a)));
}

#[test]
fn unwinding_to_the_first_appended_block_undoes_the_append() {
    for size in [1usize, 2, 3, 5, 8] {
        let a = addr(32);
        let mut store = Store::new();
        store_bulk_load(&mut store, &a, &[2, 4, 6, 8, 10, 12, 14], size);
        let before = snapshot(&store);
        store_append(&mut store, &a, &[20, 21, 22, 23, 24, 25], size);
        store_unwind(&mut store, &a, 20);
        assert_eq!(snapshot(&store), before, "shard size {}", size);
    }
}

#[test]
fn appending_to_a_bulk_load_equals_bulk_loading_the_union() {
    for size in [1usize, 2, 3, 4, 7] {
        let a = addr(33);
        let mut appended = Store::new();
        store_bulk_load(&mut appended, &a, &[1, 3, 5, 7, 9], size);
        store_append(&mut appended, &a, &[11, 12, 13], size);
        let mut loaded = Store::new();
        store_bulk_load(&mut loaded, &a, &[1, 3, 5, 7, 9, 11, 12, 13], size);
        assert_eq!(snapshot(&appended), snapshot(&loaded), "shard size {}", size);
    }
}

#[test]
fn shard_keys_sort_by_address_first() {
    assert!(shard_key(&addr(1), u64::MAX) < shard_key(&addr(2), 0));
    assert!(shard_key(&addr(2), 0) > shard_key(&addr(1), 5));
}

#[test]
fn noshard_unwind_twice_keeps_the_same() {
    let bm = bitmap_from_sorted(&[3, 6, 9, 12]);
    let first = match noshard_unwind(Some(bm), 10) {
        NoshardUnwind::Put(v) => v,
        _ => panic!("expected a put"),
    };
    match noshard_unwind(Some(bitmap_from_bytes(&first)), 10) {
        NoshardUnwind::Put(v) => assert_eq!(decode(&v), decode(&first)),
        _ => panic!("expected a put"),
    }
}

#[test]
fn sharded_and_noshard_unwind_agree() {
    for unwind_to in [0u64, 5, 16, 100] {
        let a = addr(34);
        let history: Vec<u64> = (0..12).map(|i| i * 3).collect();
        let mut store = Store::new();
        store_bulk_load(&mut store, &a, &history, 5);
        store_unwind(&mut store, &a, unwind_to);
        let sharded = store_full_scan(&store, &a);
        match noshard_unwind(Some(bitmap_from_sorted(&history)), unwind_to) {
            NoshardUnwind::Put(v) => assert_eq!(decode(&v), sharded),
            NoshardUnwind::Delete => assert!(sharded.is_empty()),
            NoshardUnwind::Untouched => panic!("history was stored"),
        }
    }
}

#[test]
fn serialized_bytes_are_the_treemaps_own() {
    let bm = bitmap_from_sorted(&[1, 2, 3, 70_000, 1 << 40]);
    let bytes = bitmap_to_bytes(&bm);
    assert_eq!(bytes.len(), bm.serialized_size());
    let mut direct = Vec::new();
    bm.serialize_into(&mut direct).unwrap();
    assert_eq!(bytes, direct);
    let entry = noshard_store(&addr(40), &bm);
    assert_eq!(entry.value, bytes);
}

#[test]
fn appending_checks_and_extends() {
    let stored = Some(bitmap_from_sorted(&[4, 8]));
    assert!(can_append(&stored, &[9, 10]));
    assert!(can_append(&stored, &[]));
    assert!(!can_append(&stored, &[8]));
    assert!(!can_append(&stored, &[9, 9]));
    assert!(can_append(&None, &[0, 1]));
    assert!(!can_append(&None, &[2, 1]));
    let mut bm = bitmap_from_sorted(&[4, 8]);
    bitmap_append(&mut bm, &[9, 1 << 35]);
    assert_eq!(bitmap_values(&bm), vec![4, 8, 9, 1 << 35]);
}
