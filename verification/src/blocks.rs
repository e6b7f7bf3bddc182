//! Generated histories: consecutive block numbers, random sparse block
//! numbers, and random addresses.
use vstd::prelude::*;
use rand::rngs::ThreadRng;
use rand::Rng;
use roaring::RoaringTreemap;
use crate::bitmap::{bitmap_from_sorted, strictly_increasing, treemap_contents};

verus! {

#[verifier::external_type_specification]
#[verifier::external_body]
pub struct ExThreadRng(ThreadRng);

/// `rand::thread_rng`: a handle to the thread-local generator, seeded from the
/// operating system. Nothing is stated of its state.
#[verifier::external_body]
fn new_thread_rng() -> ThreadRng {
    rand::thread_rng()
}

/// `Rng::gen_range` over `low..=high`: some number in that range, drawn at
/// random (the range is not empty).
#[verifier::external_body]
fn gen_range_inclusive(rng: &mut ThreadRng, low: u64, high: u64) -> (n: u64)
    requires
        low <= high,
    ensures
        low <= n <= high,
{
    rng.gen_range(low..=high)
}

/// `Rng::fill` on a 20-byte array: random bytes, of which nothing is stated.
#[verifier::external_body]
fn fill_address(rng: &mut ThreadRng) -> [u8; 20] {
    let mut addr = [0u8; 20];
    rng.fill(&mut addr);
    addr
}

/// A random 20-byte address.
pub fn random_address() -> [u8; 20] {
    let mut rng = new_thread_rng();
    fill_address(&mut rng)
}

/// The sum of a sequence of gaps.
pub open spec fn gap_sum(gaps: Seq<u64>) -> int
    decreases gaps.len(),
{
    if gaps.len() == 0 {
        0
    } else {
        gap_sum(gaps.drop_last()) + gaps.last()
    }
}

/// Block numbers that start at `start` and advance by each gap in turn: the
/// `i`-th is `start` plus the first `i` gaps (the last gap is not used).
pub open spec fn sparse_sequence(start: u64, gaps: Seq<u64>) -> Seq<u64> {
    Seq::new(gaps.len(), |i: int| (start + gap_sum(gaps.take(i))) as u64)
}

proof fn lemma_gap_sum_prefix(gaps: Seq<u64>, i: int)
    requires
        0 <= i <= gaps.len(),
    ensures
        0 <= gap_sum(gaps.take(i)) <= gap_sum(gaps),
    decreases gaps.len(),
{
    if gaps.len() > 0 {
        if i == gaps.len() {
            assert(gaps.take(i) =~= gaps);
            lemma_gap_sum_prefix(gaps.drop_last(), i - 1);
            assert(gaps.drop_last().take(i - 1) =~= gaps.drop_last());
        } else {
            lemma_gap_sum_prefix(gaps.drop_last(), i);
            assert(gaps.drop_last().take(i) =~= gaps.take(i));
        }
    }
}

proof fn lemma_gap_sum_bound(gaps: Seq<u64>, bound: u64)
    requires
        forall|i: int| 0 <= i < gaps.len() ==> gaps[i] <= bound,
    ensures
        gap_sum(gaps) <= gaps.len() * bound,
    decreases gaps.len(),
{
    if gaps.len() > 0 {
        lemma_gap_sum_bound(gaps.drop_last(), bound);
        assert((gaps.len() - 1) * bound + bound == gaps.len() * bound) by (nonlinear_arith);
    }
}

/// The block numbers that start at `start` and advance by `gaps`: the
/// `i`-th is `start` plus the first `i` gaps. Every gap is at least 1, so the
/// block numbers increase strictly.
pub fn sparse_blocks(start: u64, gaps: &[u64]) -> (blocks: Vec<u64>)
    requires
        forall|i: int| 0 <= i < gaps@.len() ==> gaps@[i] >= 1,
        start + gap_sum(gaps@) <= u64::MAX,
    ensures
        blocks@ == sparse_sequence(start, gaps@),
        strictly_increasing(blocks@),
{
    let mut blocks: Vec<u64> = Vec::with_capacity(gaps.len());
    let mut current: u64 = start;
    let mut i: usize = 0;
    while i < gaps.len()
        invariant
            i <= gaps@.len(),
            forall|k: int| 0 <= k < gaps@.len() ==> gaps@[k] >= 1,
            start + gap_sum(gaps@) <= u64::MAX,
            current == start + gap_sum(gaps@.take(i as int)),
            blocks@.len() == i,
            forall|k: int| 0 <= k < i ==> blocks@[k] == start + gap_sum(gaps@.take(k)),
            forall|k: int| 0 <= k < i ==> blocks@[k] < current,
            strictly_increasing(blocks@),
        decreases gaps@.len() - i,
    {
        proof {
            lemma_gap_sum_prefix(gaps@, i + 1);
            assert(gaps@.take(i + 1).drop_last() =~= gaps@.take(i as int));
        }
        blocks.push(current);
        current = current + gaps[i];
        i = i + 1;
    }
    assert(blocks@ =~= sparse_sequence(start, gaps@));
    blocks
}

/// Generate a history with realistic sparse block numbers: an address touched
/// on average every `avg_gap` blocks. The first block number is drawn from
/// `0..avg_gap`, and each next one lies `1..=2 * avg_gap` after the previous.
pub fn generate_sparse_blocks(count: u64, avg_gap: u64) -> (t: RoaringTreemap)
    requires
        avg_gap > 0,
        count > 0 ==> avg_gap * 2 <= u64::MAX,
        avg_gap - 1 + count * (avg_gap * 2) <= u64::MAX,
        count <= usize::MAX,
    ensures
        exists|start: u64, gaps: Seq<u64>|
            {
                &&& start < avg_gap
                &&& gaps.len() == count
                &&& forall|i: int| 0 <= i < gaps.len() ==> 1 <= #[trigger] gaps[i] <= avg_gap * 2
                &&& treemap_contents(t) == sparse_sequence(start, gaps).to_set()
            },
{
    let mut rng = new_thread_rng();
    let start = gen_range_inclusive(&mut rng, 0, avg_gap - 1);
    let mut gaps: Vec<u64> = Vec::with_capacity(count as usize);
    let mut n: u64 = 0;
    while n < count
        invariant
            n <= count,
            gaps@.len() == n,
            avg_gap > 0,
            count > 0 ==> avg_gap * 2 <= u64::MAX,
            forall|i: int| 0 <= i < gaps@.len() ==> 1 <= #[trigger] gaps@[i] <= avg_gap * 2,
        decreases count - n,
    {
        let gap = gen_range_inclusive(&mut rng, 1, avg_gap * 2);
        gaps.push(gap);
        n = n + 1;
    }
    proof {
        if count > 0 {
            lemma_gap_sum_bound(gaps@, (avg_gap * 2) as u64);
            assert(gaps@.len() * ((avg_gap * 2) as u64) == count * (avg_gap * 2));
        } else {
            assert(gaps@ =~= Seq::<u64>::empty());
        }
    }
    let blocks = sparse_blocks(start, &gaps);
    let t = bitmap_from_sorted(&blocks);
    assert(start < avg_gap && gaps@.len() == count && treemap_contents(t) == sparse_sequence(
        start,
        gaps@,
    ).to_set());
    t
}

} // verus!
