# bench-mdbx-shard

Sharding of per-address block-number histories, as reth's `AccountsHistory`
table keeps them: `ShardedKey<Address> -> IntegerList`, with values compressed
as `RoaringTreemap`s.

- `src/` is the verified library (Verus): key encoding (`keys`), the boundary
  to the `roaring` crate (`bitmap`), the layout model and its laws (`layout`),
  the entries a store writes (`entry`), the no-shard and sharded plans
  (`noshard`, `sharded`) and generated histories (`blocks`).
- `app/` runs those plans inside MDBX transactions (`reth-libmdbx`) and holds
  the reporting helpers (page statistics, byte-size formatting).
- `tests/` exercises the library, with a `BTreeMap` standing in for MDBX.
