//! Encoding of shard keys: a 20-byte address followed by the shard's
//! highest block number in big-endian order.
use vstd::prelude::*;
use vstd::arithmetic::div_mod::{lemma_mod_breakdown, lemma_small_mod};

verus! {

/// Length of an address in bytes.
pub const ADDRESS_LEN: usize = 20;

/// Length of a shard key: an address and an eight-byte block number.
pub const SHARD_KEY_LEN: usize = 28;

/// `256` raised to the power `k`.
pub open spec fn pow256(k: nat) -> nat
    decreases k,
{
    if k == 0 {
        1
    } else {
        256 * pow256((k - 1) as nat)
    }
}

/// The `k` least significant base-256 digits of `n`, most significant first.
pub open spec fn be_digits(n: nat, k: nat) -> Seq<u8>
    decreases k,
{
    if k == 0 {
        Seq::empty()
    } else {
        be_digits(n / 256, (k - 1) as nat).push((n % 256) as u8)
    }
}

/// The number that a big-endian byte string denotes.
pub open spec fn be_value(s: Seq<u8>) -> nat
    decreases s.len(),
{
    if s.len() == 0 {
        0
    } else {
        be_value(s.drop_last()) * 256 + s.last() as nat
    }
}

/// The eight big-endian bytes of a block number.
pub open spec fn block_number_bytes(n: u64) -> Seq<u8> {
    be_digits(n as nat, 8)
}

/// The key of the shard of `address` whose highest block number is `highest`.
pub open spec fn shard_key_bytes(address: Seq<u8>, highest: u64) -> Seq<u8> {
    address + block_number_bytes(highest)
}

/// Whether a key lies in the key range of `address`: it starts with the address.
pub open spec fn key_of_address(key: Seq<u8>, address: Seq<u8>) -> bool {
    key.len() >= ADDRESS_LEN && key.subrange(0, ADDRESS_LEN as int) == address
}

/// The highest block number that a key names: its bytes 20..28 read big-endian,
/// or `u64::MAX` for a key shorter than a shard key.
pub open spec fn key_highest(key: Seq<u8>) -> u64 {
    if key.len() >= SHARD_KEY_LEN {
        be_value(key.subrange(ADDRESS_LEN as int, SHARD_KEY_LEN as int)) as u64
    } else {
        u64::MAX
    }
}

/// Byte-wise lexicographic order, a proper prefix ordering first: the order in
/// which an ordered key-value store with the default comparator keeps its keys.
pub open spec fn lex_lt(a: Seq<u8>, b: Seq<u8>) -> bool
    decreases a.len(),
{
    if a.len() == 0 {
        b.len() > 0
    } else if b.len() == 0 {
        false
    } else if a[0] < b[0] {
        true
    } else if a[0] > b[0] {
        false
    } else {
        lex_lt(a.drop_first(), b.drop_first())
    }
}

pub proof fn lemma_pow256_positive(k: nat)
    ensures
        pow256(k) > 0,
    decreases k,
{
    if k > 0 {
        lemma_pow256_positive((k - 1) as nat);
    }
}

proof fn lemma_pow256_8()
    ensures
        pow256(8) == 0x1_0000_0000_0000_0000nat,
{
    reveal_with_fuel(pow256, 9);
}

pub proof fn lemma_be_digits_len(n: nat, k: nat)
    ensures
        be_digits(n, k).len() == k,
    decreases k,
{
    if k > 0 {
        lemma_be_digits_len(n / 256, (k - 1) as nat);
    }
}

/// A big-endian string of `k` bytes denotes a number below `256^k`.
pub proof fn lemma_be_value_bound(s: Seq<u8>)
    ensures
        be_value(s) < pow256(s.len()),
    decreases s.len(),
{
    if s.len() > 0 {
        lemma_be_value_bound(s.drop_last());
        let p = pow256((s.len() - 1) as nat);
        let v = be_value(s.drop_last());
        assert(v * 256 + s.last() < p * 256) by (nonlinear_arith)
            requires
                v < p,
                s.last() < 256,
        ;
    }
}

/// Reading back the `k` digits of `n` gives `n` modulo `256^k`.
pub proof fn lemma_be_value_of_digits(n: nat, k: nat)
    ensures
        be_value(be_digits(n, k)) == n % pow256(k),
    decreases k,
{
    if k > 0 {
        let d = be_digits(n, k);
        lemma_be_value_of_digits(n / 256, (k - 1) as nat);
        assert(d.drop_last() =~= be_digits(n / 256, (k - 1) as nat));
        lemma_pow256_positive((k - 1) as nat);
        lemma_mod_breakdown(n as int, 256, pow256((k - 1) as nat) as int);
    } else {
        assert(n % 1 == 0) by (nonlinear_arith);
    }
}

/// The block number that the eight bytes of `n` denote is `n`.
pub proof fn lemma_block_number_roundtrip(n: u64)
    ensures
        be_value(block_number_bytes(n)) == n,
        block_number_bytes(n).len() == 8,
{
    lemma_be_value_of_digits(n as nat, 8);
    lemma_pow256_8();
    lemma_small_mod(n as nat, pow256(8));
    lemma_be_digits_len(n as nat, 8);
}

proof fn lemma_lex_push(s: Seq<u8>, t: Seq<u8>, x: u8, y: u8)
    requires
        s.len() == t.len(),
    ensures
        lex_lt(s.push(x), t.push(y)) == (lex_lt(s, t) || (s == t && x < y)),
    decreases s.len(),
{
    if s.len() == 0 {
        assert(s.push(x)[0] == x);
        assert(t.push(y)[0] == y);
        assert(s.push(x).drop_first() =~= Seq::<u8>::empty());
        assert(t.push(y).drop_first() =~= Seq::<u8>::empty());
        assert(s =~= t);
        assert(!lex_lt(Seq::<u8>::empty(), Seq::<u8>::empty()));
        assert(!lex_lt(s, t));
    } else {
        lemma_lex_push(s.drop_first(), t.drop_first(), x, y);
        assert(s.push(x).drop_first() =~= s.drop_first().push(x));
        assert(t.push(y).drop_first() =~= t.drop_first().push(y));
        assert(s.push(x)[0] == s[0]);
        assert(t.push(y)[0] == t[0]);
        if s[0] == t[0] && s.drop_first() == t.drop_first() {
            assert forall|i: int| 0 <= i < s.len() implies s[i] == t[i] by {
                if i > 0 {
                    assert(s[i] == s.drop_first()[i - 1]);
                    assert(t[i] == t.drop_first()[i - 1]);
                }
            }
            assert(s =~= t);
        }
        if s == t {
            assert(s.drop_first() =~= t.drop_first());
        }
    }
}

proof fn lemma_lex_common_prefix(p: Seq<u8>, x: Seq<u8>, y: Seq<u8>)
    ensures
        lex_lt(p + x, p + y) == lex_lt(x, y),
    decreases p.len(),
{
    if p.len() > 0 {
        lemma_lex_common_prefix(p.drop_first(), x, y);
        assert((p + x).drop_first() =~= p.drop_first() + x);
        assert((p + y).drop_first() =~= p.drop_first() + y);
    } else {
        assert(p + x =~= x);
        assert(p + y =~= y);
    }
}

/// Digit strings of equal length compare as the numbers they hold.
proof fn lemma_lex_digits(a: nat, b: nat, k: nat)
    ensures
        lex_lt(be_digits(a, k), be_digits(b, k)) == (a % pow256(k) < b % pow256(k)),
        (be_digits(a, k) == be_digits(b, k)) == (a % pow256(k) == b % pow256(k)),
    decreases k,
{
    lemma_be_value_of_digits(a, k);
    lemma_be_value_of_digits(b, k);
    if k == 0 {
        assert(be_digits(a, k) =~= be_digits(b, k));
        assert(a % 1 == 0) by (nonlinear_arith);
        assert(b % 1 == 0) by (nonlinear_arith);
    } else {
        let p = pow256((k - 1) as nat);
        lemma_pow256_positive((k - 1) as nat);
        lemma_lex_digits(a / 256, b / 256, (k - 1) as nat);
        lemma_be_digits_len(a / 256, (k - 1) as nat);
        lemma_be_digits_len(b / 256, (k - 1) as nat);
        lemma_lex_push(
            be_digits(a / 256, (k - 1) as nat),
            be_digits(b / 256, (k - 1) as nat),
            (a % 256) as u8,
            (b % 256) as u8,
        );
        lemma_mod_breakdown(a as int, 256, p as int);
        lemma_mod_breakdown(b as int, 256, p as int);
        let qa = (a / 256) % p;
        let qb = (b / 256) % p;
        let ra = a % 256;
        let rb = b % 256;
        assert((256 * qa + ra < 256 * qb + rb) == (qa < qb || (qa == qb && ra < rb)))
            by (nonlinear_arith)
            requires
                ra < 256,
                rb < 256,
        ;
        if be_digits(a, k) == be_digits(b, k) {
            assert(be_value(be_digits(a, k)) == be_value(be_digits(b, k)));
        }
        if qa == qb && ra == rb {
            assert(be_digits(a, k) =~= be_digits(b, k));
        }
    }
}

/// Shard keys of one address are ordered as the block numbers they carry.
pub proof fn lemma_shard_key_order(address: Seq<u8>, x: u64, y: u64)
    ensures
        lex_lt(shard_key_bytes(address, x), shard_key_bytes(address, y)) == (x < y),
        (shard_key_bytes(address, x) == shard_key_bytes(address, y)) == (x == y),
{
    lemma_lex_common_prefix(address, block_number_bytes(x), block_number_bytes(y));
    lemma_lex_digits(x as nat, y as nat, 8);
    lemma_pow256_8();
    lemma_small_mod(x as nat, pow256(8));
    lemma_small_mod(y as nat, pow256(8));
    if shard_key_bytes(address, x) == shard_key_bytes(address, y) {
        lemma_block_number_roundtrip(x);
        lemma_block_number_roundtrip(y);
        assert(shard_key_bytes(address, x).subrange(address.len() as int, address.len() + 8int)
            =~= block_number_bytes(x));
        assert(shard_key_bytes(address, y).subrange(address.len() as int, address.len() + 8int)
            =~= block_number_bytes(y));
    }
}

/// A shard key of `address` lies in the key range of `address` and names its
/// block number back.
pub proof fn lemma_shard_key_parts(address: Seq<u8>, n: u64)
    requires
        address.len() == ADDRESS_LEN,
    ensures
        shard_key_bytes(address, n).len() == SHARD_KEY_LEN,
        key_of_address(shard_key_bytes(address, n), address),
        key_highest(shard_key_bytes(address, n)) == n,
{
    lemma_block_number_roundtrip(n);
    let k = shard_key_bytes(address, n);
    assert(k.subrange(0, ADDRESS_LEN as int) =~= address);
    assert(k.subrange(ADDRESS_LEN as int, SHARD_KEY_LEN as int) =~= block_number_bytes(n));
}

proof fn lemma_lex_outside_prefix(p: Seq<u8>, k: Seq<u8>, x: Seq<u8>, y: Seq<u8>)
    requires
        !(k.len() >= p.len() && k.subrange(0, p.len() as int) == p),
    ensures
        lex_lt(k, p + x) == lex_lt(k, p + y),
        lex_lt(k, p + x) != lex_lt(p + x, k),
        k != p + x,
    decreases p.len(),
{
    if p.len() == 0 {
        assert(k.subrange(0, 0) =~= p);
    } else if k.len() == 0 {
        assert((p + x).len() > 0 && (p + y).len() > 0);
    } else {
        assert((p + x)[0] == p[0]);
        assert((p + y)[0] == p[0]);
        if k[0] == p[0] {
            let kt = k.drop_first();
            let pt = p.drop_first();
            if kt.len() >= pt.len() && kt.subrange(0, pt.len() as int) == pt {
                assert(k.subrange(0, p.len() as int) =~= p) by {
                    assert forall|i: int| 0 <= i < p.len() implies k.subrange(0, p.len() as int)[i]
                        == p[i] by {
                        if i > 0 {
                            assert(kt.subrange(0, pt.len() as int)[i - 1] == pt[i - 1]);
                        }
                    }
                }
            }
            lemma_lex_outside_prefix(pt, kt, x, y);
            assert((p + x).drop_first() =~= pt + x);
            assert((p + y).drop_first() =~= pt + y);
            if k == p + x {
                assert(kt == pt + x);
            }
        }
    }
}

/// Keys outside the key range of an address never fall between two of its
/// shard keys: such a key sorts before all of them or after all of them. So
/// seeking within the range of an address reaches its shards before any other
/// address's entry.
pub proof fn lemma_other_keys_outside_range(address: Seq<u8>, key: Seq<u8>, x: u64, y: u64)
    requires
        address.len() == ADDRESS_LEN,
        !key_of_address(key, address),
    ensures
        lex_lt(key, shard_key_bytes(address, x)) == lex_lt(key, shard_key_bytes(address, y)),
        lex_lt(key, shard_key_bytes(address, x)) != lex_lt(shard_key_bytes(address, x), key),
{
    lemma_lex_outside_prefix(address, key, block_number_bytes(x), block_number_bytes(y));
}

proof fn lemma_lex_distinct_prefix(a: Seq<u8>, b: Seq<u8>, x: Seq<u8>, y: Seq<u8>)
    requires
        a.len() == b.len(),
        a != b,
    ensures
        lex_lt(a + x, b + y) == lex_lt(a, b),
    decreases a.len(),
{
    if a.len() == 0 {
        assert(a =~= b);
    } else {
        assert((a + x)[0] == a[0]);
        assert((b + y)[0] == b[0]);
        if a[0] == b[0] {
            if a.drop_first() == b.drop_first() {
                assert forall|i: int| 0 <= i < a.len() implies a[i] == b[i] by {
                    if i > 0 {
                        assert(a[i] == a.drop_first()[i - 1]);
                        assert(b[i] == b.drop_first()[i - 1]);
                    }
                }
                assert(a =~= b);
            }
            lemma_lex_distinct_prefix(a.drop_first(), b.drop_first(), x, y);
            assert((a + x).drop_first() =~= a.drop_first() + x);
            assert((b + y).drop_first() =~= b.drop_first() + y);
        }
    }
}

/// Shard keys of different addresses sort by address first, whatever their
/// block numbers.
pub proof fn lemma_shard_key_address_order(a: Seq<u8>, b: Seq<u8>, x: u64, y: u64)
    requires
        a.len() == ADDRESS_LEN,
        b.len() == ADDRESS_LEN,
        a != b,
    ensures
        lex_lt(shard_key_bytes(a, x), shard_key_bytes(b, y)) == lex_lt(a, b),
{
    lemma_lex_distinct_prefix(a, b, block_number_bytes(x), block_number_bytes(y));
}

/// A key lies in the key range of a 20-byte address exactly when it is at
/// least 20 bytes long and each of its first 20 bytes equals the address's
/// byte at the same place.
pub proof fn lemma_key_of_address_exact(key: Seq<u8>, address: Seq<u8>)
    requires
        address.len() == ADDRESS_LEN,
    ensures
        key_of_address(key, address) <==> key.len() >= ADDRESS_LEN && forall|i: int|
            0 <= i < ADDRESS_LEN ==> key[i] == address[i],
{
    if key.len() >= ADDRESS_LEN {
        if forall|i: int| 0 <= i < ADDRESS_LEN ==> key[i] == address[i] {
            assert(key.subrange(0, ADDRESS_LEN as int) =~= address);
        }
        if key.subrange(0, ADDRESS_LEN as int) == address {
            assert forall|i: int| 0 <= i < ADDRESS_LEN implies key[i] == address[i] by {
                assert(key.subrange(0, ADDRESS_LEN as int)[i] == key[i]);
            }
        }
    }
}

/// No shard key of one address lies in the key range of another: two
/// 20-byte addresses that differ in any byte never share a shard.
pub proof fn lemma_other_address_not_matched(a: Seq<u8>, b: Seq<u8>, highest: u64)
    requires
        a.len() == ADDRESS_LEN,
        b.len() == ADDRESS_LEN,
        a != b,
    ensures
        !key_of_address(shard_key_bytes(b, highest), a),
        exists|i: int| 0 <= i < ADDRESS_LEN && shard_key_bytes(b, highest)[i] != a[i],
{
    let k = shard_key_bytes(b, highest);
    lemma_shard_key_parts(b, highest);
    assert(k.subrange(0, ADDRESS_LEN as int) =~= b);
    if forall|i: int| 0 <= i < ADDRESS_LEN ==> k[i] == a[i] {
        assert(a =~= b) by {
            assert forall|i: int| 0 <= i < ADDRESS_LEN implies a[i] == b[i] by {
                assert(k.subrange(0, ADDRESS_LEN as int)[i] == k[i]);
            }
        }
    }
    lemma_key_of_address_exact(k, a);
}

fn be_digits_of(n: u64, k: usize) -> (digits: Vec<u8>)
    requires
        k <= 8,
    ensures
        digits@ == be_digits(n as nat, k as nat),
    decreases k,
{
    if k == 0 {
        Vec::new()
    } else {
        let mut digits = be_digits_of(n / 256, k - 1);
        digits.push((n % 256) as u8);
        digits
    }
}

/// ShardedKey: the address (20 bytes) followed by the highest block number
/// (8 bytes, big-endian).
pub fn shard_key(address: &[u8; 20], highest_block: u64) -> (key: Vec<u8>)
    ensures
        key@ == shard_key_bytes(address@, highest_block),
        key@.len() == SHARD_KEY_LEN,
{
    let mut key: Vec<u8> = Vec::with_capacity(SHARD_KEY_LEN);
    let mut i: usize = 0;
    while i < ADDRESS_LEN
        invariant
            i <= ADDRESS_LEN,
            address@.len() == ADDRESS_LEN,
            key@ =~= address@.subrange(0, i as int),
        decreases ADDRESS_LEN - i,
    {
        key.push(address[i]);
        i = i + 1;
    }
    let mut digits = be_digits_of(highest_block, 8);
    key.append(&mut digits);
    proof {
        lemma_be_digits_len(highest_block as nat, 8);
        assert(key@ =~= shard_key_bytes(address@, highest_block));
    }
    key
}

/// The sentinel key of an address: its shard key with `u64::MAX` as highest block.
pub fn sentinel_key(address: &[u8; 20]) -> (key: Vec<u8>)
    ensures
        key@ == shard_key_bytes(address@, u64::MAX),
        key@.len() == SHARD_KEY_LEN,
{
    shard_key(address, u64::MAX)
}

/// Whether `key` belongs to `address`: it is at least 20 bytes long and starts
/// with the address.
pub fn key_belongs_to(key: &[u8], address: &[u8; 20]) -> (belongs: bool)
    ensures
        belongs == key_of_address(key@, address@),
        belongs <==> key@.len() >= ADDRESS_LEN && forall|i: int|
            0 <= i < ADDRESS_LEN ==> key@[i] == address@[i],
{
    if key.len() < ADDRESS_LEN {
        return false;
    }
    let mut i: usize = 0;
    while i < ADDRESS_LEN
        invariant
            i <= ADDRESS_LEN <= key@.len(),
            address@.len() == ADDRESS_LEN,
            key@.subrange(0, i as int) =~= address@.subrange(0, i as int),
        decreases ADDRESS_LEN - i,
    {
        if key[i] != address[i] {
            assert(key@.subrange(0, ADDRESS_LEN as int)[i as int] != address@[i as int]);
            return false;
        }
        i = i + 1;
    }
    assert(key@.subrange(0, ADDRESS_LEN as int) =~= address@);
    true
}

/// The highest block number a key names: bytes 20..28 read big-endian, or
/// `u64::MAX` for a key shorter than 28 bytes.
pub fn key_highest_block(key: &[u8]) -> (highest: u64)
    ensures
        highest == key_highest(key@),
{
    if key.len() < SHARD_KEY_LEN {
        return u64::MAX;
    }
    let mut value: u64 = 0;
    let mut i: usize = ADDRESS_LEN;
    while i < SHARD_KEY_LEN
        invariant
            ADDRESS_LEN <= i <= SHARD_KEY_LEN <= key@.len(),
            value == be_value(key@.subrange(ADDRESS_LEN as int, i as int)),
        decreases SHARD_KEY_LEN - i,
    {
        let ghost prefix = key@.subrange(ADDRESS_LEN as int, i as int);
        let ghost next = key@.subrange(ADDRESS_LEN as int, i + 1);
        proof {
            assert(next.drop_last() =~= prefix);
            lemma_be_value_bound(prefix);
            reveal_with_fuel(pow256, 8);
            assert(pow256(prefix.len()) <= pow256(7)) by {
                lemma_pow256_mono(prefix.len(), 7);
            }
            assert(value * 256 + key[i as int] <= u64::MAX) by (nonlinear_arith)
                requires
                    value < 0x100_0000_0000_0000,
                    key[i as int] < 256,
            ;
        }
        value = value * 256 + key[i] as u64;
        i = i + 1;
    }
    value
}

proof fn lemma_pow256_mono(a: nat, b: nat)
    requires
        a <= b,
    ensures
        pow256(a) <= pow256(b),
    decreases b,
{
    if a < b {
        lemma_pow256_mono(a, (b - 1) as nat);
        lemma_pow256_positive((b - 1) as nat);
    }
}

} // verus!
