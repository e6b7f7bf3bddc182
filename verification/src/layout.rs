//! The shape of a sharded history and the laws the sharding keeps.
//!
//! A layout is the list of an address's shards in key order: each shard is
//! its key's block number and the block numbers it holds, in increasing order.
//! Every shard but the last is frozen: it holds exactly `shard_size` block
//! numbers and is keyed by the highest of them. The last shard is the
//! sentinel, keyed by `u64::MAX`, holding at most `shard_size`.
use vstd::prelude::*;
use crate::bitmap::{append_accepts, lemma_sorted_elements_of, sorted_elements, strictly_increasing};

verus! {

/// A shard: the block number of its key and the block numbers it holds.
pub type ShardView = (u64, Seq<u64>);

/// The history a layout holds: its shards' block numbers, in shard order.
pub open spec fn history(l: Seq<ShardView>) -> Seq<u64>
    decreases l.len(),
{
    if l.len() == 0 {
        Seq::empty()
    } else {
        l[0].1 + history(l.drop_first())
    }
}

/// A frozen shard holds exactly `shard_size` block numbers and is keyed by the
/// highest of them.
pub open spec fn frozen_shard(s: ShardView, shard_size: nat) -> bool {
    &&& s.1.len() == shard_size
    &&& s.0 == s.1.last()
}

/// A well-formed sharded history.
pub open spec fn valid_layout(l: Seq<ShardView>, shard_size: nat) -> bool {
    &&& shard_size > 0
    &&& strictly_increasing(history(l))
    &&& forall|i: int| 0 <= i < l.len() - 1 ==> #[trigger] frozen_shard(l[i], shard_size)
    &&& l.len() > 0 ==> l.last().0 == u64::MAX && l.last().1.len() <= shard_size
    &&& l.len() > 1 ==> l.last().1.len() > 0
}

/// A layout whose shards are frozen but for the last, which holds at most
/// `shard_size` block numbers, none above its key.
pub open spec fn open_layout(l: Seq<ShardView>, shard_size: nat) -> bool {
    &&& shard_size > 0
    &&& strictly_increasing(history(l))
    &&& forall|i: int| 0 <= i < l.len() - 1 ==> #[trigger] frozen_shard(l[i], shard_size)
    &&& l.len() > 0 ==> l.last().1.len() <= shard_size && (l.last().1.len() > 0 ==> l.last().1.last()
        <= l.last().0)
}

/// The shards that splitting a strictly increasing history into chunks of
/// `shard_size` gives: every chunk but the last keyed by its highest block
/// number, the last keyed by `u64::MAX`.
pub open spec fn shard_chunks(all: Seq<u64>, shard_size: nat) -> Seq<ShardView>
    decreases all.len(),
{
    if all.len() == 0 || shard_size == 0 {
        Seq::empty()
    } else if all.len() <= shard_size {
        seq![(u64::MAX, all)]
    } else {
        seq![(all[shard_size - 1], all.take(shard_size as int))] + shard_chunks(
            all.skip(shard_size as int),
            shard_size,
        )
    }
}

/// The block numbers of `s` below `bound`, in order.
pub open spec fn keep_below(s: Seq<u64>, bound: u64) -> Seq<u64>
    decreases s.len(),
{
    if s.len() == 0 {
        s
    } else if s.last() < bound {
        keep_below(s.drop_last(), bound).push(s.last())
    } else {
        keep_below(s.drop_last(), bound)
    }
}

/// What unwinding to `unwind_to` does with a shard that holds `contents` and is
/// keyed by `highest`: `None` deletes it and goes on to the shard before;
/// `Some(kept)` deletes it, stops, and stores `kept` as the new sentinel.
pub open spec fn unwind_decision(contents: Set<u64>, highest: u64, unwind_to: u64) -> Option<
    Seq<u64>,
> {
    let blocks = sorted_elements(contents);
    if blocks.len() == 0 || blocks[0] >= unwind_to {
        None
    } else if unwind_to <= highest {
        Some(keep_below(blocks, unwind_to))
    } else {
        Some(blocks)
    }
}

/// The layout after unwinding to `unwind_to`: shards are visited from the last
/// backwards and handled as `unwind_decision` says.
pub open spec fn unwound_layout(l: Seq<ShardView>, unwind_to: u64) -> Seq<ShardView>
    decreases l.len(),
{
    if l.len() == 0 {
        l
    } else {
        match unwind_decision(l.last().1.to_set(), l.last().0, unwind_to) {
            None => unwound_layout(l.drop_last(), unwind_to),
            Some(kept) => l.drop_last().push((u64::MAX, kept)),
        }
    }
}

/// The block numbers the sentinel of a layout holds (none for an empty layout).
pub open spec fn sentinel_blocks(l: Seq<ShardView>) -> Seq<u64> {
    if l.len() > 0 {
        l.last().1
    } else {
        Seq::empty()
    }
}

/// The layout after appending `new_blocks`: the sentinel takes them; if it then
/// holds more than `shard_size` block numbers it is split into chunks.
pub open spec fn appended_layout(l: Seq<ShardView>, new_blocks: Seq<u64>, shard_size: nat) -> Seq<
    ShardView,
> {
    let frozen = if l.len() > 0 {
        l.drop_last()
    } else {
        l
    };
    let merged = sentinel_blocks(l) + new_blocks;
    if merged.len() <= shard_size {
        frozen.push((u64::MAX, merged))
    } else {
        frozen + shard_chunks(merged, shard_size)
    }
}

/// The index of the first shard whose key is at least `target`, or `l.len()`.
pub open spec fn first_shard_at_or_above(l: Seq<ShardView>, target: u64) -> int
    decreases l.len(),
{
    if l.len() == 0 {
        0
    } else if l[0].0 >= target {
        0
    } else {
        1 + first_shard_at_or_above(l.drop_first(), target)
    }
}

// ---------------------------------------------------------------------------
// Lemmas on histories
// ---------------------------------------------------------------------------

pub proof fn lemma_history_concat(a: Seq<ShardView>, b: Seq<ShardView>)
    ensures
        history(a + b) == history(a) + history(b),
    decreases a.len(),
{
    if a.len() == 0 {
        assert(a + b =~= b);
        assert(history(a) + history(b) =~= history(b));
    } else {
        lemma_history_concat(a.drop_first(), b);
        assert((a + b).drop_first() =~= a.drop_first() + b);
        assert(history(a + b) =~= history(a) + history(b));
    }
}

pub proof fn lemma_history_single(s: ShardView)
    ensures
        history(seq![s]) == s.1,
{
    assert(seq![s].drop_first() =~= Seq::<ShardView>::empty());
    assert(history(Seq::<ShardView>::empty()) == Seq::<u64>::empty());
    assert(s.1 + Seq::<u64>::empty() =~= s.1);
}

pub proof fn lemma_history_push(a: Seq<ShardView>, s: ShardView)
    ensures
        history(a.push(s)) == history(a) + s.1,
{
    lemma_history_concat(a, seq![s]);
    assert(a + seq![s] =~= a.push(s));
    lemma_history_single(s);
}

pub proof fn lemma_history_drop_last(l: Seq<ShardView>)
    requires
        l.len() > 0,
    ensures
        history(l) == history(l.drop_last()) + l.last().1,
{
    lemma_history_push(l.drop_last(), l.last());
    assert(l.drop_last().push(l.last()) =~= l);
}

/// A block number is in the history exactly when some shard holds it.
pub proof fn lemma_history_contains(l: Seq<ShardView>, x: u64)
    ensures
        history(l).contains(x) <==> exists|i: int| 0 <= i < l.len() && #[trigger] l[i].1.contains(x),
    decreases l.len(),
{
    if l.len() > 0 {
        lemma_history_contains(l.drop_first(), x);
        let h = history(l);
        let h0 = l[0].1;
        let rest = history(l.drop_first());
        if h.contains(x) {
            let k = choose|k: int| 0 <= k < h.len() && h[k] == x;
            if k < h0.len() {
                assert(h0[k] == x);
                assert(l[0].1.contains(x));
            } else {
                assert(rest[k - h0.len()] == x);
                let i = choose|i: int|
                    0 <= i < l.drop_first().len() && #[trigger] l.drop_first()[i].1.contains(x);
                assert(l[i + 1].1.contains(x));
            }
        }
        if exists|i: int| 0 <= i < l.len() && #[trigger] l[i].1.contains(x) {
            let i = choose|i: int| 0 <= i < l.len() && #[trigger] l[i].1.contains(x);
            if i == 0 {
                let k = choose|k: int| 0 <= k < h0.len() && h0[k] == x;
                assert(h[k] == x);
            } else {
                assert(l.drop_first()[i - 1].1.contains(x));
                let k = choose|k: int| 0 <= k < rest.len() && rest[k] == x;
                assert(h[k + h0.len()] == x);
            }
        }
    }
}

/// In a strictly increasing history, every block number of an earlier shard is
/// below every block number of a later one.
pub proof fn lemma_history_shards_ordered(l: Seq<ShardView>, i: int, j: int, x: u64, y: u64)
    requires
        strictly_increasing(history(l)),
        0 <= i < j < l.len(),
        l[i].1.contains(x),
        l[j].1.contains(y),
    ensures
        x < y,
    decreases l.len(),
{
    let h = history(l);
    let h0 = l[0].1;
    let rest = history(l.drop_first());
    assert(strictly_increasing(rest)) by {
        assert forall|a: int, b: int| 0 <= a < b < rest.len() implies rest[a] < rest[b] by {
            assert(rest[a] == h[a + h0.len()]);
            assert(rest[b] == h[b + h0.len()]);
        }
    }
    if i == 0 {
        let a = choose|a: int| 0 <= a < h0.len() && h0[a] == x;
        assert(h[a] == x);
        lemma_history_contains(l.drop_first(), y);
        assert(l.drop_first()[j - 1].1.contains(y));
        let b = choose|b: int| 0 <= b < rest.len() && rest[b] == y;
        assert(h[b + h0.len()] == y);
    } else {
        assert(l.drop_first()[i - 1] == l[i]);
        assert(l.drop_first()[j - 1] == l[j]);
        lemma_history_shards_ordered(l.drop_first(), i - 1, j - 1, x, y);
    }
}

proof fn lemma_increasing_concat(a: Seq<u64>, b: Seq<u64>)
    requires
        strictly_increasing(a),
        strictly_increasing(b),
        a.len() > 0 && b.len() > 0 ==> a.last() < b[0],
    ensures
        strictly_increasing(a + b),
{
    let c = a + b;
    assert forall|i: int, j: int| 0 <= i < j < c.len() implies c[i] < c[j] by {
        if j < a.len() {
        } else if i >= a.len() {
            assert(c[i] == b[i - a.len()]);
            assert(c[j] == b[j - a.len()]);
        } else {
            assert(a[i] <= a.last());
            assert(b[0] <= b[j - a.len()]);
        }
    }
}

proof fn lemma_increasing_parts(a: Seq<u64>, b: Seq<u64>)
    requires
        strictly_increasing(a + b),
    ensures
        strictly_increasing(a),
        strictly_increasing(b),
        forall|i: int, j: int| 0 <= i < a.len() && 0 <= j < b.len() ==> a[i] < b[j],
{
    let c = a + b;
    assert forall|i: int, j: int| 0 <= i < j < a.len() implies a[i] < a[j] by {
        assert(c[i] == a[i] && c[j] == a[j]);
    }
    assert forall|i: int, j: int| 0 <= i < j < b.len() implies b[i] < b[j] by {
        assert(c[i + a.len()] == b[i] && c[j + a.len()] == b[j]);
    }
    assert forall|i: int, j: int| 0 <= i < a.len() && 0 <= j < b.len() implies a[i] < b[j] by {
        assert(c[i] == a[i] && c[j + a.len()] == b[j]);
    }
}

// ---------------------------------------------------------------------------
// Lemmas on keep_below
// ---------------------------------------------------------------------------

/// `keep_below` keeps exactly the block numbers below the bound.
pub proof fn lemma_keep_below_contains(s: Seq<u64>, bound: u64, x: u64)
    ensures
        keep_below(s, bound).contains(x) <==> s.contains(x) && x < bound,
    decreases s.len(),
{
    if s.len() > 0 {
        lemma_keep_below_contains(s.drop_last(), bound, x);
        let k = keep_below(s.drop_last(), bound);
        if s.contains(x) && x < bound {
            let i = choose|i: int| 0 <= i < s.len() && s[i] == x;
            if i == s.len() - 1 {
                assert(k.push(s.last())[k.len() as int] == x);
            } else {
                assert(s.drop_last()[i] == x);
                let j = choose|j: int| 0 <= j < k.len() && k[j] == x;
                assert(k.push(s.last())[j] == x);
            }
        }
        if keep_below(s, bound).contains(x) {
            let j = choose|j: int|
                0 <= j < keep_below(s, bound).len() && keep_below(s, bound)[j] == x;
            if s.last() < bound && j == k.len() {
                assert(s[s.len() - 1] == x);
            } else {
                assert(k[j] == x);
                let i = choose|i: int| 0 <= i < s.drop_last().len() && s.drop_last()[i] == x;
                assert(s[i] == x);
            }
        }
    }
}

/// `keep_below` of a strictly increasing sequence is a prefix of it.
pub proof fn lemma_keep_below_prefix(s: Seq<u64>, bound: u64)
    requires
        strictly_increasing(s),
    ensures
        keep_below(s, bound).len() <= s.len(),
        keep_below(s, bound) == s.take(keep_below(s, bound).len() as int),
        strictly_increasing(keep_below(s, bound)),
        forall|i: int| 0 <= i < keep_below(s, bound).len() ==> keep_below(s, bound)[i] < bound,
        forall|i: int| keep_below(s, bound).len() <= i < s.len() ==> s[i] >= bound,
    decreases s.len(),
{
    if s.len() > 0 {
        let d = s.drop_last();
        assert(strictly_increasing(d));
        lemma_keep_below_prefix(d, bound);
        let k = keep_below(d, bound);
        if s.last() < bound {
            assert forall|i: int| 0 <= i < d.len() implies d[i] < bound by {
                assert(s[i] < s[s.len() - 1]);
            }
            assert(k.len() == d.len());
            assert(k =~= d);
            assert(keep_below(s, bound) =~= s);
            assert(s.take(s.len() as int) =~= s);
        } else {
            assert(k =~= s.take(k.len() as int));
            assert forall|i: int| k.len() <= i < s.len() implies s[i] >= bound by {
                if i < d.len() {
                    assert(d[i] == s[i]);
                }
            }
        }
    }
}

/// Keeping the block numbers below the bound distributes over concatenation.
pub proof fn lemma_keep_below_concat(a: Seq<u64>, b: Seq<u64>, bound: u64)
    ensures
        keep_below(a + b, bound) == keep_below(a, bound) + keep_below(b, bound),
    decreases b.len(),
{
    if b.len() == 0 {
        assert(a + b =~= a);
        assert(keep_below(a, bound) + keep_below(b, bound) =~= keep_below(a, bound));
    } else {
        lemma_keep_below_concat(a, b.drop_last(), bound);
        assert((a + b).drop_last() =~= a + b.drop_last());
        assert((a + b).last() == b.last());
        if b.last() < bound {
            assert(keep_below(a, bound) + keep_below(b.drop_last(), bound).push(b.last())
                =~= (keep_below(a, bound) + keep_below(b.drop_last(), bound)).push(b.last()));
        }
    }
}

/// A sequence whose block numbers are all below the bound is kept whole.
pub proof fn lemma_keep_below_all(s: Seq<u64>, bound: u64)
    requires
        forall|i: int| 0 <= i < s.len() ==> s[i] < bound,
    ensures
        keep_below(s, bound) == s,
    decreases s.len(),
{
    if s.len() > 0 {
        lemma_keep_below_all(s.drop_last(), bound);
        assert(s.drop_last().push(s.last()) =~= s);
    }
}

/// A sequence whose block numbers are all at or above the bound is dropped whole.
pub proof fn lemma_keep_below_none(s: Seq<u64>, bound: u64)
    requires
        forall|i: int| 0 <= i < s.len() ==> s[i] >= bound,
    ensures
        keep_below(s, bound) == Seq::<u64>::empty(),
    decreases s.len(),
{
    if s.len() > 0 {
        lemma_keep_below_none(s.drop_last(), bound);
    }
}

// ---------------------------------------------------------------------------
// Laws
// ---------------------------------------------------------------------------

/// Splitting a strictly increasing history into shards gives a valid layout
/// that holds exactly that history.
pub proof fn lemma_shard_chunks_valid(all: Seq<u64>, shard_size: nat)
    requires
        strictly_increasing(all),
        shard_size > 0,
    ensures
        valid_layout(shard_chunks(all, shard_size), shard_size),
        history(shard_chunks(all, shard_size)) == all,
        all.len() > 0 ==> shard_chunks(all, shard_size).len() > 0,
    decreases all.len(),
{
    let c = shard_chunks(all, shard_size);
    if all.len() == 0 {
        assert(history(c) =~= all);
    } else if all.len() <= shard_size {
        lemma_history_single((u64::MAX, all));
    } else {
        let first = all.take(shard_size as int);
        let rest_all = all.skip(shard_size as int);
        assert(strictly_increasing(rest_all)) by {
            assert forall|i: int, j: int| 0 <= i < j < rest_all.len() implies rest_all[i]
                < rest_all[j] by {
                assert(rest_all[i] == all[i + shard_size]);
                assert(rest_all[j] == all[j + shard_size]);
            }
        }
        lemma_shard_chunks_valid(rest_all, shard_size);
        let rest = shard_chunks(rest_all, shard_size);
        let head: Seq<ShardView> = seq![(all[shard_size - 1], first)];
        assert(c == head + rest);
        lemma_history_concat(head, rest);
        lemma_history_single((all[shard_size - 1], first));
        assert(first + rest_all =~= all);
        assert(frozen_shard(head[0], shard_size));
        assert forall|i: int| 0 <= i < c.len() - 1 implies #[trigger] frozen_shard(
            c[i],
            shard_size,
        ) by {
            if i > 0 {
                assert(c[i] == rest[i - 1]);
            }
        }
        assert(c.last() == rest.last());
    }
}

proof fn lemma_open_drop_last(l: Seq<ShardView>, shard_size: nat)
    requires
        open_layout(l, shard_size),
        l.len() > 0,
    ensures
        open_layout(l.drop_last(), shard_size),
        strictly_increasing(history(l.drop_last())),
{
    lemma_history_drop_last(l);
    lemma_increasing_parts(history(l.drop_last()), l.last().1);
    let d = l.drop_last();
    assert forall|i: int| 0 <= i < d.len() - 1 implies #[trigger] frozen_shard(d[i], shard_size) by {
        assert(d[i] == l[i]);
        assert(frozen_shard(l[i], shard_size));
    }
    if d.len() > 0 {
        assert(frozen_shard(l[d.len() - 1], shard_size));
    }
}

/// Unwinding a well-formed layout to `unwind_to` leaves a well-formed layout
/// that holds exactly the block numbers below `unwind_to`.
pub proof fn lemma_unwind_law(l: Seq<ShardView>, shard_size: nat, unwind_to: u64)
    requires
        valid_layout(l, shard_size),
    ensures
        valid_layout(unwound_layout(l, unwind_to), shard_size),
        history(unwound_layout(l, unwind_to)) == keep_below(history(l), unwind_to),
        unwound_layout(l, unwind_to).len() > 0 ==> unwound_layout(l, unwind_to).last().1.len()
            > 0,
        (unwound_layout(l, unwind_to).len() > 0) == (keep_below(history(l), unwind_to).len() > 0),
{
    lemma_unwind_open(l, shard_size, unwind_to);
    let r = unwound_layout(l, unwind_to);
    if r.len() > 0 {
        lemma_history_drop_last(r);
    } else {
        assert(history(r) =~= Seq::<u64>::empty());
    }
}

proof fn lemma_unwind_open(l: Seq<ShardView>, shard_size: nat, unwind_to: u64)
    requires
        open_layout(l, shard_size),
    ensures
        valid_layout(unwound_layout(l, unwind_to), shard_size),
        history(unwound_layout(l, unwind_to)) == keep_below(history(l), unwind_to),
        unwound_layout(l, unwind_to).len() > 0 ==> unwound_layout(l, unwind_to).last().1.len()
            > 0,
    decreases l.len(),
{
    if l.len() == 0 {
        assert(history(l) =~= Seq::<u64>::empty());
    } else {
        let d = l.drop_last();
        let last = l.last();
        lemma_history_drop_last(l);
        lemma_open_drop_last(l, shard_size);
        lemma_increasing_parts(history(d), last.1);
        lemma_keep_below_concat(history(d), last.1, unwind_to);
        lemma_sorted_elements_of(last.1);
        let blocks = last.1;
        assert(sorted_elements(last.1.to_set()) == blocks);
        if blocks.len() == 0 || blocks[0] >= unwind_to {
            lemma_unwind_open(d, shard_size, unwind_to);
            assert forall|i: int| 0 <= i < blocks.len() implies blocks[i] >= unwind_to by {
                assert(blocks[0] <= blocks[i]);
            }
            lemma_keep_below_none(blocks, unwind_to);
            assert(keep_below(history(d), unwind_to) + Seq::<u64>::empty() =~= keep_below(
                history(d),
                unwind_to,
            ));
        } else {
            // the shard is kept in part: everything before it is below the bound
            let hd = history(d);
            assert forall|i: int| 0 <= i < hd.len() implies hd[i] < unwind_to by {
                assert(hd[i] < blocks[0]);
            }
            lemma_keep_below_all(hd, unwind_to);
            lemma_keep_below_prefix(blocks, unwind_to);
            let kept = keep_below(blocks, unwind_to);
            assert(kept.len() > 0) by {
                lemma_keep_below_contains(blocks, unwind_to, blocks[0]);
                assert(blocks.contains(blocks[0]));
            }
            if unwind_to > last.0 {
                assert forall|i: int| 0 <= i < blocks.len() implies blocks[i] < unwind_to by {
                    assert(blocks[i] <= blocks.last());
                }
                lemma_keep_below_all(blocks, unwind_to);
            }
            assert(unwind_decision(last.1.to_set(), last.0, unwind_to) == Some(kept));
            let r = d.push((u64::MAX, kept));
            assert(unwound_layout(l, unwind_to) == r);
            lemma_history_push(d, (u64::MAX, kept));
            lemma_increasing_concat(hd, kept);
            assert forall|i: int| 0 <= i < r.len() - 1 implies #[trigger] frozen_shard(
                r[i],
                shard_size,
            ) by {
                assert(r[i] == l[i]);
                if i < l.len() - 1 {
                    assert(frozen_shard(l[i], shard_size));
                }
            }
        }
    }
}

/// Appending block numbers that increase strictly and exceed the sentinel's to
/// a well-formed layout leaves a well-formed layout that holds the old history
/// followed by the new block numbers.
pub proof fn lemma_append_law(l: Seq<ShardView>, new_blocks: Seq<u64>, shard_size: nat)
    requires
        valid_layout(l, shard_size),
        strictly_increasing(new_blocks),
        new_blocks.len() > 0 ==> forall|i: int|
            0 <= i < sentinel_blocks(l).len() ==> sentinel_blocks(l)[i] < new_blocks[0],
    ensures
        valid_layout(appended_layout(l, new_blocks, shard_size), shard_size),
        history(appended_layout(l, new_blocks, shard_size)) == history(l) + new_blocks,
        strictly_increasing(sentinel_blocks(l) + new_blocks),
        new_blocks.len() > 0 ==> appended_layout(l, new_blocks, shard_size).len() > 0
            && appended_layout(l, new_blocks, shard_size).last().1.len() > 0,
{
    let s = sentinel_blocks(l);
    let frozen = if l.len() > 0 {
        l.drop_last()
    } else {
        l
    };
    let merged = s + new_blocks;
    let hf = history(frozen);
    if l.len() > 0 {
        lemma_history_drop_last(l);
        lemma_open_drop_last(l, shard_size);
        lemma_increasing_parts(hf, s);
    } else {
        assert(history(l) =~= Seq::<u64>::empty());
        assert(hf + s =~= history(l));
    }
    assert(history(l) == hf + s);
    lemma_increasing_parts(hf, s);
    lemma_increasing_concat(s, new_blocks);
    // the frozen history lies below every new block number
    assert(strictly_increasing(hf + merged)) by {
        if hf.len() > 0 && merged.len() > 0 {
            if s.len() > 0 {
                assert(hf.last() < s[0]);
                assert(merged[0] == s[0]);
            } else {
                // an empty sentinel is alone in a valid layout
                assert(l.len() <= 1);
                assert(hf.len() == 0);
            }
        }
        lemma_increasing_concat(hf, merged);
    }
    assert(hf + merged =~= history(l) + new_blocks);
    if merged.len() <= shard_size {
        let r = frozen.push((u64::MAX, merged));
        lemma_history_push(frozen, (u64::MAX, merged));
        assert forall|i: int| 0 <= i < r.len() - 1 implies #[trigger] frozen_shard(
            r[i],
            shard_size,
        ) by {
            assert(r[i] == l[i]);
        }
        if r.len() > 1 {
            assert(frozen.len() > 0);
            assert(l.len() > 1);
            assert(s.len() > 0);
        }
    } else {
        let c = shard_chunks(merged, shard_size);
        lemma_shard_chunks_valid(merged, shard_size);
        let tail = merged.skip(shard_size as int);
        assert(strictly_increasing(tail)) by {
            assert forall|i: int, j: int| 0 <= i < j < tail.len() implies tail[i] < tail[j] by {
                assert(tail[i] == merged[i + shard_size]);
                assert(tail[j] == merged[j + shard_size]);
            }
        }
        lemma_shard_chunks_valid(tail, shard_size);
        assert(c.len() > 1);
        let r = frozen + c;
        lemma_history_concat(frozen, c);
        assert forall|i: int| 0 <= i < r.len() - 1 implies #[trigger] frozen_shard(
            r[i],
            shard_size,
        ) by {
            if i < frozen.len() {
                assert(r[i] == l[i]);
            } else {
                assert(r[i] == c[i - frozen.len()]);
            }
        }
        assert(r.last() == c.last());
    }
}

/// In a well-formed layout, a block number is in the history exactly when the
/// first shard keyed at or above it exists and holds it.
pub proof fn lemma_point_query_law(l: Seq<ShardView>, shard_size: nat, target: u64)
    requires
        valid_layout(l, shard_size),
    ensures
        history(l).contains(target) <==> {
            let i = first_shard_at_or_above(l, target);
            &&& 0 <= i < l.len()
            &&& l[i].1.contains(target)
        },
        0 <= first_shard_at_or_above(l, target) <= l.len(),
        forall|j: int|
            0 <= j < first_shard_at_or_above(l, target) ==> #[trigger] l[j].0 < target,
        first_shard_at_or_above(l, target) < l.len() ==> l[first_shard_at_or_above(l, target)].0
            >= target,
{
    lemma_first_shard_props(l, target);
    lemma_history_contains(l, target);
    let i = first_shard_at_or_above(l, target);
    if history(l).contains(target) {
        let j = choose|j: int| 0 <= j < l.len() && #[trigger] l[j].1.contains(target);
        // shard j is keyed at or above the target
        assert(l[j].0 >= target) by {
            if j < l.len() - 1 {
                assert(frozen_shard(l[j], shard_size));
                let k = choose|k: int| 0 <= k < l[j].1.len() && l[j].1[k] == target;
                lemma_history_increasing_shard(l, j);
                assert(l[j].1[k] <= l[j].1.last());
            }
        }
        // every shard before j is keyed below the target
        if i < j {
            assert(i < l.len() - 1);
            assert(frozen_shard(l[i], shard_size));
            assert(l[i].1.contains(l[i].1.last()));
            lemma_history_shards_ordered(l, i, j, l[i].1.last(), target);
        }
        assert(i == j);
    }
}

proof fn lemma_first_shard_props(l: Seq<ShardView>, target: u64)
    ensures
        0 <= first_shard_at_or_above(l, target) <= l.len(),
        forall|j: int|
            0 <= j < first_shard_at_or_above(l, target) ==> #[trigger] l[j].0 < target,
        first_shard_at_or_above(l, target) < l.len() ==> l[first_shard_at_or_above(l, target)].0
            >= target,
    decreases l.len(),
{
    if l.len() > 0 && l[0].0 < target {
        lemma_first_shard_props(l.drop_first(), target);
        assert forall|j: int| 0 <= j < first_shard_at_or_above(l, target) implies #[trigger] l[j].0
            < target by {
            if j > 0 {
                assert(l[j] == l.drop_first()[j - 1]);
            }
        }
    }
}

/// Each shard of a strictly increasing history is itself strictly increasing.
pub proof fn lemma_history_increasing_shard(l: Seq<ShardView>, j: int)
    requires
        strictly_increasing(history(l)),
        0 <= j < l.len(),
    ensures
        strictly_increasing(l[j].1),
    decreases l.len(),
{
    lemma_increasing_parts(l[0].1, history(l.drop_first()));
    if j > 0 {
        assert(l.drop_first()[j - 1] == l[j]);
        lemma_history_increasing_shard(l.drop_first(), j - 1);
    }
}

/// The union of the sets of all shards of a layout.
pub open spec fn shards_union(l: Seq<ShardView>) -> Set<u64>
    decreases l.len(),
{
    if l.len() == 0 {
        Set::empty()
    } else {
        l[0].1.to_set().union(shards_union(l.drop_first()))
    }
}

/// Merging the sets of all shards gives exactly the block numbers of the history.
pub proof fn lemma_full_scan_law(l: Seq<ShardView>)
    ensures
        shards_union(l) == history(l).to_set(),
    decreases l.len(),
{
    if l.len() > 0 {
        lemma_full_scan_law(l.drop_first());
        let h = history(l);
        let h0 = l[0].1;
        let rest = history(l.drop_first());
        assert forall|x: u64| h.to_set().contains(x) <==> shards_union(l).contains(x) by {
            if h.contains(x) {
                let k = choose|k: int| 0 <= k < h.len() && h[k] == x;
                if k < h0.len() {
                    assert(h0[k] == x);
                } else {
                    assert(rest[k - h0.len()] == x);
                }
            }
            if h0.contains(x) {
                let k = choose|k: int| 0 <= k < h0.len() && h0[k] == x;
                assert(h[k] == x);
            }
            if rest.contains(x) {
                let k = choose|k: int| 0 <= k < rest.len() && rest[k] == x;
                assert(h[k + h0.len()] == x);
            }
        }
        assert(shards_union(l) =~= h.to_set());
    } else {
        assert(history(l).to_set() =~= Set::<u64>::empty());
    }
}

/// A strictly increasing sequence has as many distinct elements as entries.
pub proof fn lemma_increasing_set_len(q: Seq<u64>)
    requires
        strictly_increasing(q),
    ensures
        q.to_set().len() == q.len(),
        q.to_set().finite(),
{
    assert(q.no_duplicates()) by {
        assert forall|i: int, j: int| 0 <= i < q.len() && 0 <= j < q.len() && i != j implies q[i]
            != q[j] by {
            if i < j {
                assert(q[i] < q[j]);
            } else {
                assert(q[j] < q[i]);
            }
        }
    }
    q.unique_seq_to_set();
    vstd::seq_lib::seq_to_set_is_finite(q);
}

/// Appending to the sentinel of a well-formed layout, as `sharded_append`
/// plans it from the sentinel's set: the merged set is the sentinel's block
/// numbers followed by the new ones, the writes replace the sentinel by
/// exactly the shards of `appended_layout`, and that layout is well-formed
/// and holds the old history followed by the new block numbers.
pub proof fn lemma_sharded_append_law(l: Seq<ShardView>, new_blocks: Seq<u64>, shard_size: nat)
    requires
        valid_layout(l, shard_size),
        append_accepts(sentinel_blocks(l).to_set(), new_blocks),
    ensures
        ({
            let merged = sentinel_blocks(l).to_set().union(new_blocks.to_set());
            let frozen = if l.len() > 0 {
                l.drop_last()
            } else {
                l
            };
            &&& sorted_elements(merged) == sentinel_blocks(l) + new_blocks
            &&& merged.len() == sentinel_blocks(l).len() + new_blocks.len()
            &&& merged.len() <= shard_size ==> appended_layout(l, new_blocks, shard_size)
                == frozen.push((u64::MAX, sorted_elements(merged)))
            &&& merged.len() > shard_size ==> appended_layout(l, new_blocks, shard_size) == frozen
                + shard_chunks(sorted_elements(merged), shard_size)
        }),
        valid_layout(appended_layout(l, new_blocks, shard_size), shard_size),
        history(appended_layout(l, new_blocks, shard_size)) == history(l) + new_blocks,
{
    let s = sentinel_blocks(l);
    assert(new_blocks.len() > 0 ==> forall|i: int| 0 <= i < s.len() ==> s[i] < new_blocks[0]) by {
        if new_blocks.len() > 0 {
            assert forall|i: int| 0 <= i < s.len() implies s[i] < new_blocks[0] by {
                assert(s.to_set().contains(s[i]));
            }
        }
    }
    lemma_append_law(l, new_blocks, shard_size);
    let merged_seq = s + new_blocks;
    let merged = s.to_set().union(new_blocks.to_set());
    assert(merged_seq.to_set() =~= merged) by {
        assert forall|x: u64| merged.contains(x) implies merged_seq.to_set().contains(x) by {
            if s.contains(x) {
                let k = choose|k: int| 0 <= k < s.len() && s[k] == x;
                assert(merged_seq[k] == x);
            } else {
                let k = choose|k: int| 0 <= k < new_blocks.len() && new_blocks[k] == x;
                assert(merged_seq[k + s.len()] == x);
            }
        }
        assert forall|x: u64| merged_seq.to_set().contains(x) implies merged.contains(x) by {
            let k = choose|k: int| 0 <= k < merged_seq.len() && merged_seq[k] == x;
            if k < s.len() {
                assert(s[k] == x);
            } else {
                assert(new_blocks[k - s.len()] == x);
            }
        }
    }
    lemma_sorted_elements_of(merged_seq);
    lemma_increasing_set_len(merged_seq);
}

/// The shard keys of a well-formed layout increase strictly, so every shard
/// has an entry of its own.
pub proof fn lemma_layout_keys_increasing(l: Seq<ShardView>, shard_size: nat, i: int, j: int)
    requires
        valid_layout(l, shard_size),
        0 <= i < j < l.len(),
    ensures
        l[i].0 < l[j].0,
{
    assert(frozen_shard(l[i], shard_size));
    assert(l[i].1.contains(l[i].1.last()));
    if j < l.len() - 1 {
        assert(frozen_shard(l[j], shard_size));
        assert(l[j].1.contains(l[j].1.last()));
        lemma_history_shards_ordered(l, i, j, l[i].1.last(), l[j].1.last());
    } else {
        assert(l.len() > 1);
        assert(l[j].1.contains(l[j].1[0]));
        lemma_history_shards_ordered(l, i, j, l[i].1.last(), l[j].1[0]);
    }
}

/// Unwinding to a point above every held block number leaves a well-formed
/// layout unchanged, unless its only shard is an empty sentinel (which the
/// walk deletes).
pub proof fn lemma_unwind_above_all_is_noop(l: Seq<ShardView>, shard_size: nat, unwind_to: u64)
    requires
        valid_layout(l, shard_size),
        forall|i: int| 0 <= i < history(l).len() ==> history(l)[i] < unwind_to,
        l.len() > 0 ==> l.last().1.len() > 0,
    ensures
        unwound_layout(l, unwind_to) == l,
{
    if l.len() > 0 {
        let last = l.last();
        let blocks = last.1;
        lemma_history_drop_last(l);
        lemma_open_drop_last(l, shard_size);
        lemma_increasing_parts(history(l.drop_last()), blocks);
        lemma_sorted_elements_of(blocks);
        assert forall|i: int| 0 <= i < blocks.len() implies blocks[i] < unwind_to by {
            assert(blocks[i] == history(l)[history(l.drop_last()).len() + i]);
        }
        lemma_keep_below_all(blocks, unwind_to);
        assert(l.drop_last().push((u64::MAX, blocks)) =~= l);
    }
}

/// Unwinding twice to the same point is unwinding once.
pub proof fn lemma_unwind_idempotent(l: Seq<ShardView>, shard_size: nat, unwind_to: u64)
    requires
        valid_layout(l, shard_size),
    ensures
        unwound_layout(unwound_layout(l, unwind_to), unwind_to) == unwound_layout(l, unwind_to),
{
    lemma_unwind_law(l, shard_size, unwind_to);
    let r = unwound_layout(l, unwind_to);
    let h = history(r);
    assert forall|i: int| 0 <= i < h.len() implies h[i] < unwind_to by {
        lemma_keep_below_contains(history(l), unwind_to, h[i]);
        assert(h.contains(h[i]));
    }
    lemma_unwind_above_all_is_noop(r, shard_size, unwind_to);
}

/// Unwinding skips trailing shards whose block numbers all lie at or above the
/// unwind point.
proof fn lemma_unwind_skips_high_shards(p: Seq<ShardView>, q: Seq<ShardView>, unwind_to: u64)
    requires
        forall|i: int|
            0 <= i < q.len() ==> strictly_increasing(#[trigger] q[i].1) && (q[i].1.len() == 0
                || q[i].1[0] >= unwind_to),
    ensures
        unwound_layout(p + q, unwind_to) == unwound_layout(p, unwind_to),
    decreases q.len(),
{
    if q.len() == 0 {
        assert(p + q =~= p);
    } else {
        let pq = p + q;
        assert(pq.last() == q.last());
        assert(pq.drop_last() =~= p + q.drop_last());
        lemma_sorted_elements_of(q.last().1);
        assert(q[q.len() - 1] == q.last());
        lemma_unwind_skips_high_shards(p, q.drop_last(), unwind_to);
    }
}

/// Unwinding to the first appended block number undoes the append, for a
/// well-formed layout whose sentinel (if any) is not empty.
pub proof fn lemma_unwind_undoes_append(l: Seq<ShardView>, new_blocks: Seq<u64>, shard_size: nat)
    requires
        valid_layout(l, shard_size),
        l.len() > 0 ==> l.last().1.len() > 0,
        new_blocks.len() > 0,
        strictly_increasing(new_blocks),
        forall|i: int| 0 <= i < sentinel_blocks(l).len() ==> sentinel_blocks(l)[i] < new_blocks[0],
    ensures
        unwound_layout(appended_layout(l, new_blocks, shard_size), new_blocks[0]) == l,
{
    let u = new_blocks[0];
    let a = sentinel_blocks(l);
    let frozen = if l.len() > 0 {
        l.drop_last()
    } else {
        l
    };
    let m = a + new_blocks;
    lemma_append_law(l, new_blocks, shard_size);
    assert(a.len() <= shard_size);
    assert forall|i: int| 0 <= i < new_blocks.len() implies new_blocks[i] >= u by {
        assert(new_blocks[0] <= new_blocks[i]);
    }
    lemma_keep_below_all(a, u);
    lemma_keep_below_none(new_blocks, u);
    lemma_keep_below_concat(a, new_blocks, u);
    assert(keep_below(m, u) =~= a);
    if l.len() > 0 {
        assert(frozen.push((u64::MAX, a)) =~= l);
    }
    if m.len() <= shard_size {
        lemma_sorted_elements_of(m);
        let r = frozen.push((u64::MAX, m));
        assert(r.last() == (u64::MAX, m));
        assert(r.drop_last() =~= frozen);
        assert(appended_layout(l, new_blocks, shard_size) == r);
        if a.len() == 0 {
            assert(l.len() == 0);
            assert(m[0] == u);
            assert(frozen =~= Seq::<ShardView>::empty());
            assert(unwind_decision(m.to_set(), u64::MAX, u) is None);
            assert(unwound_layout(r, u) == unwound_layout(frozen, u));
            assert(unwound_layout(frozen, u) == frozen);
        } else {
            assert(m[0] == a[0]);
            assert(unwind_decision(m.to_set(), u64::MAX, u) == Some(a));
            assert(unwound_layout(r, u) == frozen.push((u64::MAX, a)));
        }
    } else {
        lemma_unwind_split_append(l, frozen, a, new_blocks, shard_size);
    }
}

/// Unwinding to the first appended block number a layout whose sentinel was
/// split into chunks: the chunks of appended blocks go, the first chunk gives
/// back the old sentinel.
proof fn lemma_unwind_split_append(
    l: Seq<ShardView>,
    frozen: Seq<ShardView>,
    a: Seq<u64>,
    new_blocks: Seq<u64>,
    shard_size: nat,
)
    requires
        shard_size > 0,
        new_blocks.len() > 0,
        strictly_increasing(new_blocks),
        strictly_increasing(a + new_blocks),
        a.len() <= shard_size,
        (a + new_blocks).len() > shard_size,
        forall|i: int| 0 <= i < a.len() ==> a[i] < new_blocks[0],
        a.len() == 0 ==> frozen.len() == 0 && l.len() == 0,
        a.len() > 0 ==> l == frozen.push((u64::MAX, a)),
    ensures
        unwound_layout(frozen + shard_chunks(a + new_blocks, shard_size), new_blocks[0]) == l,
{
    let u = new_blocks[0];
    let m = a + new_blocks;
    assert forall|i: int| 0 <= i < new_blocks.len() implies new_blocks[i] >= u by {
        assert(new_blocks[0] <= new_blocks[i]);
    }
    lemma_keep_below_all(a, u);
    let c0: ShardView = (m[shard_size - 1], m.take(shard_size as int));
    let tail = m.skip(shard_size as int);
    let rest = shard_chunks(tail, shard_size);
    assert(shard_chunks(m, shard_size) == seq![c0] + rest);
    assert(strictly_increasing(tail)) by {
        assert forall|i: int, j: int| 0 <= i < j < tail.len() implies tail[i] < tail[j] by {
            assert(tail[i] == m[i + shard_size]);
            assert(tail[j] == m[j + shard_size]);
        }
    }
    lemma_shard_chunks_valid(tail, shard_size);
    // every block number of the later chunks is an appended one
    assert forall|i: int|
        0 <= i < rest.len() implies strictly_increasing(#[trigger] rest[i].1) && (
        rest[i].1.len() == 0 || rest[i].1[0] >= u) by {
        lemma_history_increasing_shard(rest, i);
        if rest[i].1.len() > 0 {
            let x = rest[i].1[0];
            assert(rest[i].1.contains(x));
            lemma_history_contains(rest, x);
            let k = choose|k: int| 0 <= k < tail.len() && tail[k] == x;
            assert(tail[k] == m[k + shard_size]);
            assert(k + shard_size >= a.len());
            assert(m[k + shard_size] == new_blocks[k + shard_size - a.len()]);
        }
    }
    let p = frozen.push(c0);
    assert(frozen + (seq![c0] + rest) =~= p + rest);
    assert(frozen + shard_chunks(m, shard_size) == p + rest);
    lemma_unwind_skips_high_shards(p, rest, u);
    // the first chunk holds the sentinel and perhaps some appended blocks
    let b0 = c0.1;
    assert(strictly_increasing(b0));
    lemma_sorted_elements_of(b0);
    assert(p.last() == c0);
    assert(p.drop_last() =~= frozen);
    let extra = new_blocks.take(shard_size - a.len());
    assert(b0 =~= a + extra);
    lemma_keep_below_none(extra, u);
    lemma_keep_below_concat(a, extra, u);
    assert(keep_below(b0, u) =~= a);
    if a.len() == 0 {
        assert(l.len() == 0);
        assert(frozen =~= Seq::<ShardView>::empty());
        assert(b0[0] == u);
        assert(unwind_decision(b0.to_set(), c0.0, u) is None);
        assert(unwound_layout(p, u) == unwound_layout(frozen, u));
        assert(unwound_layout(frozen, u) == frozen);
    } else {
        assert(b0[0] == a[0]);
        if u > c0.0 {
            // the whole first chunk lies below u, so it is the sentinel
            assert(c0.0 == b0[shard_size - 1]);
            if shard_size > a.len() {
                assert(b0[a.len() as int] == u);
                assert(b0[a.len() as int] <= b0[shard_size - 1]);
            }
            assert(extra =~= Seq::<u64>::empty());
            assert(b0 =~= a);
        }
        assert(unwind_decision(b0.to_set(), c0.0, u) == Some(a));
        assert(unwound_layout(p, u) == frozen.push((u64::MAX, a)));
    }
}

/// Appending to a bulk-loaded history gives the layout that bulk-loading the
/// whole history gives.
pub proof fn lemma_append_to_bulk_load(b1: Seq<u64>, b2: Seq<u64>, shard_size: nat)
    requires
        shard_size > 0,
        b2.len() > 0,
    ensures
        appended_layout(shard_chunks(b1, shard_size), b2, shard_size) == shard_chunks(
            b1 + b2,
            shard_size,
        ),
    decreases b1.len(),
{
    let c = shard_chunks(b1, shard_size);
    if b1.len() == 0 {
        assert(c =~= Seq::<ShardView>::empty());
        assert(sentinel_blocks(c) + b2 =~= b2);
        assert(b1 + b2 =~= b2);
        assert(Seq::<ShardView>::empty() + shard_chunks(b2, shard_size) =~= shard_chunks(
            b2,
            shard_size,
        ));
    } else if b1.len() <= shard_size {
        assert(c == seq![(u64::MAX, b1)]);
        assert(c.drop_last() =~= Seq::<ShardView>::empty());
        assert(Seq::<ShardView>::empty() + shard_chunks(b1 + b2, shard_size) =~= shard_chunks(
            b1 + b2,
            shard_size,
        ));
    } else {
        let c0: ShardView = (b1[shard_size - 1], b1.take(shard_size as int));
        let r = shard_chunks(b1.skip(shard_size as int), shard_size);
        assert(c == seq![c0] + r);
        assert(r.len() > 0);
        lemma_append_to_bulk_load(b1.skip(shard_size as int), b2, shard_size);
        assert(c.drop_last() =~= seq![c0] + r.drop_last());
        assert(c.last() == r.last());
        let m = b1 + b2;
        assert(m.skip(shard_size as int) =~= b1.skip(shard_size as int) + b2);
        assert(m.take(shard_size as int) =~= b1.take(shard_size as int));
        assert(m[shard_size - 1] == b1[shard_size - 1]);
        assert(shard_chunks(m, shard_size) == seq![c0] + shard_chunks(
            b1.skip(shard_size as int) + b2,
            shard_size,
        ));
        let merged = sentinel_blocks(r) + b2;
        if merged.len() <= shard_size {
            assert((seq![c0] + r.drop_last()).push((u64::MAX, merged)) =~= seq![c0] + r.drop_last(
            ).push((u64::MAX, merged)));
        } else {
            assert((seq![c0] + r.drop_last()) + shard_chunks(merged, shard_size) =~= seq![c0] + (
            r.drop_last() + shard_chunks(merged, shard_size)));
        }
    }
}

/// The sharded unwind keeps exactly what the no-shard unwind keeps of the same
/// history, and leaves a shard exactly when the no-shard unwind keeps its entry.
pub proof fn lemma_unwind_matches_noshard(l: Seq<ShardView>, shard_size: nat, unwind_to: u64)
    requires
        valid_layout(l, shard_size),
    ensures
        history(unwound_layout(l, unwind_to)) == keep_below(
            sorted_elements(history(l).to_set()),
            unwind_to,
        ),
        (unwound_layout(l, unwind_to).len() > 0) == (keep_below(
            sorted_elements(history(l).to_set()),
            unwind_to,
        ).len() > 0),
{
    lemma_unwind_law(l, shard_size, unwind_to);
    lemma_sorted_elements_of(history(l));
}

/// Unwinding the no-shard history twice to the same point is unwinding once.
pub proof fn lemma_noshard_unwind_idempotent(held: Seq<u64>, unwind_to: u64)
    requires
        strictly_increasing(held),
    ensures
        keep_below(
            sorted_elements(keep_below(sorted_elements(held.to_set()), unwind_to).to_set()),
            unwind_to,
        ) == keep_below(sorted_elements(held.to_set()), unwind_to),
{
    lemma_sorted_elements_of(held);
    let k = keep_below(held, unwind_to);
    lemma_keep_below_prefix(held, unwind_to);
    lemma_sorted_elements_of(k);
    lemma_keep_below_all(k, unwind_to);
}

/// Bulk-loading a history and scanning all its shards gives the history back,
/// whatever the shard size: the same set the no-shard entry stores.
pub proof fn lemma_bulk_load_then_scan(all: Seq<u64>, shard_size: nat)
    requires
        strictly_increasing(all),
        shard_size > 0,
    ensures
        shards_union(shard_chunks(all, shard_size)) == all.to_set(),
{
    lemma_shard_chunks_valid(all, shard_size);
    lemma_full_scan_law(shard_chunks(all, shard_size));
}

} // verus!
