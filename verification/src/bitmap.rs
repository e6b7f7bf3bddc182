//! Block-number sets kept as compressed `RoaringTreemap`s, and their byte form.
//!
//! The treemap and its serialization belong to the `roaring` crate; the items
//! marked `external_body` below are the only places that call it, and their
//! contracts are what the rest of the crate relies on.
use vstd::prelude::*;
use roaring::{NonSortedIntegers, RoaringTreemap};

verus! {

#[verifier::external_type_specification]
#[verifier::external_body]
pub struct ExRoaringTreemap(RoaringTreemap);

#[verifier::external_type_specification]
#[verifier::external_body]
pub struct ExNonSortedIntegers(NonSortedIntegers);

/// The set of block numbers a treemap holds.
pub uninterp spec fn treemap_contents(t: RoaringTreemap) -> Set<u64>;

/// The bytes `RoaringTreemap::serialize_into` writes for a treemap. They follow
/// its inner layout (which containers it holds and of which kind), not only
/// the set it holds.
pub uninterp spec fn treemap_bytes(t: RoaringTreemap) -> Seq<u8>;

/// Whether the treemap's last inner bitmap (by partition key) holds a value, or
/// it has no inner bitmap at all. Every treemap built by `new`,
/// `from_sorted_iter` or `append` has this; one read by `deserialize_from`
/// from bytes that end with an empty partition does not.
pub uninterp spec fn treemap_last_partition_filled(t: RoaringTreemap) -> bool;

/// What `RoaringTreemap::deserialize_from` reads from a byte string: the set of
/// the treemap it returns, or `None` where it returns an error.
pub uninterp spec fn deserialized_contents(bytes: Seq<u8>) -> Option<Set<u64>>;

/// Every element is smaller than every later element.
pub open spec fn strictly_increasing(s: Seq<u64>) -> bool {
    forall|i: int, j: int| 0 <= i < j < s.len() ==> s[i] < s[j]
}

/// The elements of a finite set in increasing order.
pub open spec fn sorted_elements(s: Set<u64>) -> Seq<u64> {
    choose|q: Seq<u64>| strictly_increasing(q) && q.to_set() == s
}

/// Whether `values` can be appended to a history holding `contents`: the
/// values increase strictly and the first exceeds every held value.
pub open spec fn append_accepts(contents: Set<u64>, values: Seq<u64>) -> bool {
    &&& strictly_increasing(values)
    &&& values.len() > 0 ==> forall|x: u64| contents.contains(x) ==> x < values[0]
}

/// Two strictly increasing sequences with the same elements are equal.
pub proof fn lemma_sorted_unique(a: Seq<u64>, b: Seq<u64>)
    requires
        strictly_increasing(a),
        strictly_increasing(b),
        a.to_set() == b.to_set(),
    ensures
        a == b,
    decreases a.len(),
{
    if a.len() == 0 {
        if b.len() > 0 {
            assert(b.to_set().contains(b[0]));
        }
        assert(a =~= b);
    } else if b.len() == 0 {
        assert(a.to_set().contains(a[0]));
    } else {
        assert(a.to_set().contains(a[0]));
        assert(b.to_set().contains(b[0]));
        assert(a[0] == b[0]) by {
            let i = choose|i: int| 0 <= i < b.len() && b[i] == a[0];
            let j = choose|j: int| 0 <= j < a.len() && a[j] == b[0];
            assert(b[0] <= b[i]);
            assert(a[0] <= a[j]);
        }
        let ta = a.drop_first();
        let tb = b.drop_first();
        assert forall|x: u64| ta.to_set().contains(x) implies tb.to_set().contains(x) by {
            let i = choose|i: int| 0 <= i < ta.len() && ta[i] == x;
            assert(a[i + 1] == x);
            assert(b.to_set().contains(x));
            let j = choose|j: int| 0 <= j < b.len() && b[j] == x;
            if j == 0 {
                assert(a[0] < a[i + 1]);
            }
            assert(tb[j - 1] == x);
        }
        assert forall|x: u64| tb.to_set().contains(x) implies ta.to_set().contains(x) by {
            let i = choose|i: int| 0 <= i < tb.len() && tb[i] == x;
            assert(b[i + 1] == x);
            assert(a.to_set().contains(x));
            let j = choose|j: int| 0 <= j < a.len() && a[j] == x;
            if j == 0 {
                assert(b[0] < b[i + 1]);
            }
            assert(ta[j - 1] == x);
        }
        assert(ta.to_set() =~= tb.to_set());
        lemma_sorted_unique(ta, tb);
        assert forall|i: int| 0 <= i < a.len() implies a[i] == b[i] by {
            if i > 0 {
                assert(a[i] == ta[i - 1]);
                assert(b[i] == tb[i - 1]);
            }
        }
        assert(a =~= b);
    }
}

/// A strictly increasing sequence is the sorted sequence of its elements.
pub proof fn lemma_sorted_elements_of(q: Seq<u64>)
    requires
        strictly_increasing(q),
    ensures
        sorted_elements(q.to_set()) == q,
{
    let s = q.to_set();
    assert(strictly_increasing(q) && q.to_set() == s);
    let r = sorted_elements(s);
    lemma_sorted_unique(r, q);
}

/// `RoaringTreemap::new`: an empty treemap.
#[verifier::external_body]
fn treemap_new() -> (t: RoaringTreemap)
    ensures
        treemap_contents(t) == Set::<u64>::empty(),
        treemap_last_partition_filled(t),
{
    RoaringTreemap::new()
}

/// `RoaringTreemap::from_sorted_iter` over the values of a slice: it succeeds
/// exactly when the values increase strictly, and then holds exactly them.
#[verifier::external_body]
fn treemap_from_sorted(values: &[u64]) -> (r: Result<RoaringTreemap, NonSortedIntegers>)
    ensures
        r is Ok <==> strictly_increasing(values@),
        r matches Ok(t) ==> treemap_contents(t) == values@.to_set() && treemap_last_partition_filled(
            t,
        ),
{
    RoaringTreemap::from_sorted_iter(values.iter().copied())
}

/// `RoaringTreemap::append` over the values of a slice, on a treemap whose last
/// partition is filled (on another, `append` may write past an empty last
/// partition into the wrong one). It succeeds exactly when the values increase
/// strictly and exceed every held value; then all of them are added and their
/// number is returned. On failure a prefix of the values, not pinned down
/// here, has been added. The last partition stays filled.
#[verifier::external_body]
fn treemap_append(t: &mut RoaringTreemap, values: &[u64]) -> (r: Result<u64, NonSortedIntegers>)
    requires
        treemap_last_partition_filled(*old(t)),
    ensures
        r is Ok <==> append_accepts(treemap_contents(*old(t)), values@),
        r matches Ok(n) ==> n == values@.len() && treemap_contents(*final(t))
            == treemap_contents(*old(t)).union(values@.to_set()),
        r is Err ==> exists|k: int|
            0 <= k < values@.len() && treemap_contents(*final(t)) == treemap_contents(
                *old(t),
            ).union(values@.take(k).to_set()),
        treemap_last_partition_filled(*final(t)),
{
    t.append(values.iter().copied())
}

/// `RoaringTreemap::max`: the greatest held value, if any.
#[verifier::external_body]
fn treemap_max(t: &RoaringTreemap) -> (max: Option<u64>)
    ensures
        max is None <==> treemap_contents(*t) == Set::<u64>::empty(),
        max matches Some(x) ==> treemap_contents(*t).contains(x) && forall|y: u64|
            treemap_contents(*t).contains(y) ==> y <= x,
{
    t.max()
}

/// `RoaringTreemap::len`: the number of held values.
#[verifier::external_body]
fn treemap_len(t: &RoaringTreemap) -> (n: u64)
    ensures
        n == treemap_contents(*t).len(),
{
    t.len()
}

/// `RoaringTreemap::contains`.
#[verifier::external_body]
fn treemap_contains(t: &RoaringTreemap, value: u64) -> (b: bool)
    ensures
        b == treemap_contents(*t).contains(value),
{
    t.contains(value)
}

/// `RoaringTreemap::iter` collected: the held values in increasing order.
#[verifier::external_body]
fn treemap_to_vec(t: &RoaringTreemap) -> (v: Vec<u64>)
    ensures
        strictly_increasing(v@),
        v@.to_set() == treemap_contents(*t),
{
    t.iter().collect()
}

/// The first value `RoaringTreemap::iter` yields: the least held value, if any.
#[verifier::external_body]
fn treemap_first(t: &RoaringTreemap) -> (first: Option<u64>)
    ensures
        first is None <==> treemap_contents(*t) == Set::<u64>::empty(),
        first matches Some(x) ==> treemap_contents(*t).contains(x) && forall|y: u64|
            treemap_contents(*t).contains(y) ==> x <= y,
{
    t.iter().next()
}

/// `RoaringTreemap |= RoaringTreemap`: union in place.
#[verifier::external_body]
fn treemap_union_with(t: &mut RoaringTreemap, other: RoaringTreemap)
    ensures
        treemap_contents(*final(t)) == treemap_contents(*old(t)).union(treemap_contents(other)),
{
    *t |= other;
}

/// `RoaringTreemap::serialized_size`: the length of the bytes
/// `serialize_into` writes for the treemap.
#[verifier::external_body]
fn treemap_serialized_size(t: &RoaringTreemap) -> (n: usize)
    ensures
        n == treemap_bytes(*t).len(),
{
    t.serialized_size()
}

/// `RoaringTreemap::serialize_into` appending to a vector (writing to a vector
/// cannot fail): it appends the treemap's bytes, and those bytes read back
/// through `deserialize_from` as the same set.
#[verifier::external_body]
fn treemap_serialize_into(t: &RoaringTreemap, buf: &mut Vec<u8>)
    ensures
        final(buf)@ == old(buf)@ + treemap_bytes(*t),
        deserialized_contents(final(buf)@.subrange(old(buf)@.len() as int, final(buf)@.len() as int))
            == Some(treemap_contents(*t)),
{
    t.serialize_into(buf).expect("serialize failed");
}

/// `RoaringTreemap::deserialize_from` a byte slice, its error mapped to `None`.
#[verifier::external_body]
fn treemap_deserialize(bytes: &[u8]) -> (t: Option<RoaringTreemap>)
    ensures
        t is Some <==> deserialized_contents(bytes@) is Some,
        t matches Some(t) ==> deserialized_contents(bytes@) == Some(treemap_contents(t)),
{
    match RoaringTreemap::deserialize_from(bytes) {
        Ok(t) => Some(t),
        Err(_) => None,
    }
}

/// An empty treemap.
pub fn empty_bitmap() -> (t: RoaringTreemap)
    ensures
        treemap_contents(t) == Set::<u64>::empty(),
        treemap_last_partition_filled(t),
{
    treemap_new()
}

/// Create a RoaringTreemap from sorted block numbers. The values must increase
/// strictly.
pub fn bitmap_from_sorted(values: &[u64]) -> (t: RoaringTreemap)
    requires
        strictly_increasing(values@),
    ensures
        treemap_contents(t) == values@.to_set(),
        treemap_last_partition_filled(t),
{
    match treemap_from_sorted(values) {
        Ok(t) => t,
        Err(_) => {
            assert(false);
            treemap_new()
        },
    }
}

/// Serialize a RoaringTreemap to bytes (the stored form of a history), into a
/// vector sized by `serialized_size`.
pub fn bitmap_to_bytes(bm: &RoaringTreemap) -> (bytes: Vec<u8>)
    ensures
        bytes@ == treemap_bytes(*bm),
        deserialized_contents(bytes@) == Some(treemap_contents(*bm)),
{
    let mut buf: Vec<u8> = Vec::with_capacity(treemap_serialized_size(bm));
    assert(buf@ =~= Seq::<u8>::empty());
    treemap_serialize_into(bm, &mut buf);
    assert(buf@ =~= treemap_bytes(*bm));
    assert(buf@.subrange(0, buf@.len() as int) =~= buf@);
    buf
}

/// Deserialize bytes that hold a serialized RoaringTreemap.
pub fn bitmap_from_bytes(data: &[u8]) -> (t: RoaringTreemap)
    requires
        deserialized_contents(data@) is Some,
    ensures
        deserialized_contents(data@) == Some(treemap_contents(t)),
{
    match treemap_deserialize(data) {
        Some(t) => t,
        None => {
            assert(false);
            treemap_new()
        },
    }
}

/// Deserialize bytes into a RoaringTreemap once, or `None` where they do not
/// hold one.
pub(crate) fn decode_bitmap(data: &[u8]) -> (t: Option<RoaringTreemap>)
    ensures
        t is Some <==> deserialized_contents(data@) is Some,
        t matches Some(t) ==> deserialized_contents(data@) == Some(treemap_contents(t)),
{
    treemap_deserialize(data)
}

/// Deserialize bytes into a RoaringTreemap, or `None` where they do not hold
/// one. The bytes are tested first; only valid ones are handed to
/// `bitmap_from_bytes`.
pub fn try_bitmap_from_bytes(data: &[u8]) -> (t: Option<RoaringTreemap>)
    ensures
        t is Some <==> deserialized_contents(data@) is Some,
        t matches Some(t) ==> deserialized_contents(data@) == Some(treemap_contents(t)),
{
    match treemap_deserialize(data) {
        Some(_) => Some(bitmap_from_bytes(data)),
        None => None,
    }
}

/// The held block numbers in increasing order.
pub fn bitmap_values(bm: &RoaringTreemap) -> (values: Vec<u64>)
    ensures
        values@ == sorted_elements(treemap_contents(*bm)),
        strictly_increasing(values@),
        values@.to_set() == treemap_contents(*bm),
{
    let v = treemap_to_vec(bm);
    proof {
        lemma_sorted_elements_of(v@);
    }
    v
}

/// Append block numbers that increase strictly and exceed every held one, to a
/// treemap whose last partition is filled: it then holds the union.
pub fn bitmap_append(bm: &mut RoaringTreemap, values: &[u64])
    requires
        treemap_last_partition_filled(*old(bm)),
        append_accepts(treemap_contents(*old(bm)), values@),
    ensures
        treemap_contents(*final(bm)) == treemap_contents(*old(bm)).union(values@.to_set()),
        treemap_last_partition_filled(*final(bm)),
{
    match treemap_append(bm, values) {
        Ok(_) => {},
        Err(_) => {
            assert(false);
        },
    }
}

/// Whether `values` can be appended to the stored treemap (none where nothing
/// is stored): they increase strictly and the first exceeds every held value.
pub fn can_append(existing: &Option<RoaringTreemap>, values: &[u64]) -> (ok: bool)
    ensures
        ok == append_accepts(option_contents(*existing), values@),
{
    let mut i: usize = 1;
    while i < values.len()
        invariant
            1 <= i,
            forall|a: int, b: int| 0 <= a < b < i && b < values@.len() ==> values@[a] < values@[b],
        decreases values@.len() - i,
    {
        if values[i - 1] >= values[i] {
            return false;
        }
        proof {
            assert forall|a: int, b: int| 0 <= a < b < i + 1 && b < values@.len() implies values@[a]
                < values@[b] by {
                if b == i && a < i - 1 {
                    assert(values@[a] < values@[i - 1]);
                }
            }
        }
        i = i + 1;
    }
    assert(strictly_increasing(values@));
    if values.len() == 0 {
        return true;
    }
    match existing {
        None => true,
        Some(bm) => match treemap_max(bm) {
            None => true,
            Some(max) => values[0] > max,
        },
    }
}

/// The set a treemap holds, or the empty set where there is none.
pub open spec fn option_contents(t: Option<RoaringTreemap>) -> Set<u64> {
    match t {
        Some(t) => treemap_contents(t),
        None => Set::empty(),
    }
}

/// Whether the treemap holds `value`.
pub fn bitmap_contains(bm: &RoaringTreemap, value: u64) -> (b: bool)
    ensures
        b == treemap_contents(*bm).contains(value),
{
    treemap_contains(bm, value)
}

/// The number of block numbers the treemap holds.
pub fn bitmap_len(bm: &RoaringTreemap) -> (n: u64)
    ensures
        n == treemap_contents(*bm).len(),
{
    treemap_len(bm)
}

/// The least held block number, if any.
pub fn bitmap_first(bm: &RoaringTreemap) -> (first: Option<u64>)
    ensures
        first is None <==> treemap_contents(*bm) == Set::<u64>::empty(),
        first matches Some(x) ==> treemap_contents(*bm).contains(x) && forall|y: u64|
            treemap_contents(*bm).contains(y) ==> x <= y,
{
    treemap_first(bm)
}

/// Add every value of `other` to `bm`.
pub fn bitmap_union_with(bm: &mut RoaringTreemap, other: RoaringTreemap)
    ensures
        treemap_contents(*final(bm)) == treemap_contents(*old(bm)).union(
            treemap_contents(other),
        ),
{
    treemap_union_with(bm, other)
}

/// Generate a RoaringTreemap with consecutive block numbers `[0, count)`.
pub fn generate_blocks(count: u64) -> (t: RoaringTreemap)
    requires
        count <= usize::MAX,
    ensures
        treemap_contents(t) == Set::new(|x: u64| x < count),
{
    let mut values: Vec<u64> = Vec::new();
    let mut i: u64 = 0;
    while i < count
        invariant
            i <= count,
            values@.len() == i,
            forall|j: int| 0 <= j < i ==> values@[j] == j,
        decreases count - i,
    {
        values.push(i);
        i = i + 1;
    }
    let t = bitmap_from_sorted(&values);
    assert(treemap_contents(t) =~= Set::new(|x: u64| x < count)) by {
        assert forall|x: u64| x < count implies values@.to_set().contains(x) by {
            assert(values@[x as int] == x);
        }
    }
    t
}


} // verus!
