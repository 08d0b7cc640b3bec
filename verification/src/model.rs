//! The mathematical model of a hybrid set: a sequence of segments, each a
//! sequence of keys with the sizes its filter was built for.

use crate::keyset::{ascending, lemma_with_key_ascending, with_key};
use vstd::prelude::*;
use vstd::seq_lib::seq_to_set_distributes_over_add;
use vstd::set_lib::lemma_len_subset;

verus! {

/// What a segment holds, as plain values.
pub struct SegmentModel {
    /// The keys of the exact store, in ascending order.
    pub keys: Seq<Seq<char>>,
    /// The number of keys that the segment is sized for.
    pub capacity: nat,
    /// The size of the segment's filter, in bytes.
    pub bitmap_size: nat,
}

/// A segment's keys are in ascending order and no more than its capacity,
/// and its sizes are ones that a filter can be built for.
pub open spec fn segment_ok(m: SegmentModel) -> bool {
    &&& ascending(m.keys)
    &&& m.keys.len() <= m.capacity
    &&& 0 < m.capacity <= usize::MAX
    &&& 0 < m.bitmap_size
    &&& m.bitmap_size * 8 <= usize::MAX
}

/// There is at least one segment, and every segment is in order.
pub open spec fn model_ok(segs: Seq<SegmentModel>) -> bool {
    &&& segs.len() > 0
    &&& forall|i: int| 0 <= i < segs.len() ==> segment_ok(#[trigger] segs[i])
}

/// An empty segment with the sizes of `like`.
pub open spec fn fresh_segment(like: SegmentModel) -> SegmentModel {
    SegmentModel { keys: Seq::empty(), capacity: like.capacity, bitmap_size: like.bitmap_size }
}

/// All the keys, segment after segment.
pub open spec fn flat_keys(segs: Seq<SegmentModel>) -> Seq<Seq<char>>
    decreases segs.len(),
{
    if segs.len() == 0 {
        Seq::empty()
    } else {
        flat_keys(segs.drop_last()) + segs.last().keys
    }
}

/// No key is stored twice, in one segment or in two.
pub open spec fn distinct_keys(segs: Seq<SegmentModel>) -> bool {
    flat_keys(segs).no_duplicates()
}

/// The segments after `k` has been inserted: unchanged if `k` is there
/// already; else `k` goes to the last segment, or, if that one is full, to a
/// new segment with the sizes of the first.
pub open spec fn after_insert(segs: Seq<SegmentModel>, k: Seq<char>) -> Seq<SegmentModel> {
    if flat_keys(segs).contains(k) {
        segs
    } else if segs.last().keys.len() == segs.last().capacity {
        segs.push(
            SegmentModel {
                keys: seq![k],
                capacity: segs[0].capacity,
                bitmap_size: segs[0].bitmap_size,
            },
        )
    } else {
        segs.update(
            segs.len() - 1,
            SegmentModel {
                keys: with_key(segs.last().keys, k),
                capacity: segs.last().capacity,
                bitmap_size: segs.last().bitmap_size,
            },
        )
    }
}

/// The segments after the keys of `ks` have been inserted one by one, first
/// to last.
pub open spec fn after_insert_all(segs: Seq<SegmentModel>, ks: Seq<Seq<char>>) -> Seq<
    SegmentModel,
>
    decreases ks.len(),
{
    if ks.len() == 0 {
        segs
    } else {
        after_insert(after_insert_all(segs, ks.drop_last()), ks.last())
    }
}

/// The segments of a set after it has taken in the set `other`: unchanged if
/// `other` is empty; with the keys of `other` inserted one by one if these are
/// fewer than `threshold`; else with the segments of `other` appended as they
/// are, in their order.
pub open spec fn merged(segs: Seq<SegmentModel>, other: Seq<SegmentModel>, threshold: nat) -> Seq<
    SegmentModel,
> {
    if flat_keys(other).len() == 0 {
        segs
    } else if flat_keys(other).len() < threshold {
        after_insert_all(segs, flat_keys(other))
    } else {
        segs + other
    }
}

/// Whether taking in `other` moves its segments.
pub open spec fn moves_segments(other: Seq<SegmentModel>, threshold: nat) -> bool {
    flat_keys(other).len() != 0 && flat_keys(other).len() >= threshold
}

/// What is left of `other` after a set has taken it in: all of it, unless its
/// segments were moved; then one empty segment with the sizes of its first.
pub open spec fn left_behind(other: Seq<SegmentModel>, threshold: nat) -> Seq<SegmentModel> {
    if moves_segments(other, threshold) {
        seq![fresh_segment(other[0])]
    } else {
        other
    }
}

/// A single segment's keys are all the keys.
pub proof fn lemma_flat_one(m: SegmentModel)
    ensures
        flat_keys(seq![m]) == m.keys,
{
    assert(seq![m].drop_last() =~= Seq::empty());
    assert(flat_keys(Seq::<SegmentModel>::empty()) =~= Seq::empty());
    assert(Seq::<Seq<char>>::empty() + m.keys =~= m.keys);
}

/// The keys of `segs` followed by those of one more segment.
pub proof fn lemma_flat_push(segs: Seq<SegmentModel>, m: SegmentModel)
    ensures
        flat_keys(segs.push(m)) == flat_keys(segs) + m.keys,
{
    assert(segs.push(m).drop_last() =~= segs);
}

/// Replacing the last segment replaces the last run of keys.
pub proof fn lemma_flat_update_last(segs: Seq<SegmentModel>, m: SegmentModel)
    requires
        segs.len() > 0,
    ensures
        flat_keys(segs.update(segs.len() - 1, m)) == flat_keys(segs.drop_last()) + m.keys,
        flat_keys(segs) == flat_keys(segs.drop_last()) + segs.last().keys,
{
    assert(segs.update(segs.len() - 1, m).drop_last() =~= segs.drop_last());
}

/// The keys of two runs of segments, one after the other.
pub proof fn lemma_flat_concat(a: Seq<SegmentModel>, b: Seq<SegmentModel>)
    ensures
        flat_keys(a + b) == flat_keys(a) + flat_keys(b),
    decreases b.len(),
{
    if b.len() == 0 {
        assert(a + b =~= a);
        assert(flat_keys(a) + flat_keys(b) =~= flat_keys(a));
    } else {
        assert((a + b).drop_last() =~= a + b.drop_last());
        lemma_flat_concat(a, b.drop_last());
        assert((flat_keys(a) + flat_keys(b.drop_last())) + b.last().keys =~= flat_keys(a) + (
        flat_keys(b.drop_last()) + b.last().keys));
    }
}

/// A key is among all the keys exactly if some segment holds it.
pub proof fn lemma_flat_contains(segs: Seq<SegmentModel>, k: Seq<char>)
    ensures
        flat_keys(segs).contains(k) <==> exists|i: int|
            0 <= i < segs.len() && (#[trigger] segs[i]).keys.contains(k),
    decreases segs.len(),
{
    if segs.len() > 0 {
        let front = segs.drop_last();
        lemma_flat_contains(front, k);
        let f = flat_keys(front);
        let l = segs.last().keys;
        if flat_keys(segs).contains(k) {
            let n = choose|n: int| 0 <= n < (f + l).len() && (f + l)[n] == k;
            if n < f.len() {
                assert(f[n] == k);
                let i = choose|i: int| 0 <= i < front.len() && (#[trigger] front[i]).keys.contains(k);
                assert(segs[i] == front[i]);
            } else {
                assert(l[n - f.len()] == k);
                assert(segs[segs.len() - 1].keys.contains(k));
            }
        }
        if exists|i: int| 0 <= i < segs.len() && (#[trigger] segs[i]).keys.contains(k) {
            let i = choose|i: int| 0 <= i < segs.len() && (#[trigger] segs[i]).keys.contains(k);
            if i < front.len() {
                assert(front[i] == segs[i]);
                assert(f.contains(k));
                let n = choose|n: int| 0 <= n < f.len() && f[n] == k;
                assert((f + l)[n] == k);
            } else {
                let n = choose|n: int| 0 <= n < l.len() && l[n] == k;
                assert((f + l)[f.len() + n] == k);
            }
        }
    }
}

/// What inserting a key does to the keys as a whole: the key is there
/// afterwards, nothing else changes, and the count grows by one exactly if the
/// key is new. The segments stay in order.
pub proof fn lemma_after_insert(segs: Seq<SegmentModel>, k: Seq<char>)
    requires
        model_ok(segs),
    ensures
        model_ok(after_insert(segs, k)),
        flat_keys(after_insert(segs, k)).to_set() == flat_keys(segs).to_set().insert(k),
        flat_keys(after_insert(segs, k)).len() == flat_keys(segs).len() + if flat_keys(
            segs,
        ).contains(k) {
            0int
        } else {
            1int
        },
        distinct_keys(segs) ==> distinct_keys(after_insert(segs, k)),
{
    let before = flat_keys(segs);
    let after = flat_keys(after_insert(segs, k));
    if before.contains(k) {
        assert(before.to_set().insert(k) =~= before.to_set());
    } else {
        let last = segs.last();
        let front = flat_keys(segs.drop_last());
        lemma_flat_update_last(segs, last);
        if last.keys.len() == last.capacity {
            let m = SegmentModel {
                keys: seq![k],
                capacity: segs[0].capacity,
                bitmap_size: segs[0].bitmap_size,
            };
            lemma_flat_push(segs, m);
            assert(after == before + seq![k]);
            assert(before + seq![k] =~= before.push(k));
            assert forall|e: Seq<char>| after.contains(e) <==> (e == k || before.contains(e)) by {
                if after.contains(e) {
                    let n = choose|n: int| 0 <= n < after.len() && after[n] == e;
                    if n < before.len() {
                        assert(before[n] == e);
                    }
                }
                if before.contains(e) {
                    let n = choose|n: int| 0 <= n < before.len() && before[n] == e;
                    assert(after[n] == e);
                }
                assert(after[before.len() as int] == k);
            }
            assert(after.to_set() =~= before.to_set().insert(k));
            assert(ascending(seq![k]));
            assert forall|i: int| 0 <= i < after_insert(segs, k).len() implies segment_ok(
                #[trigger] after_insert(segs, k)[i],
            ) by {
                if i < segs.len() {
                    assert(after_insert(segs, k)[i] == segs[i]);
                }
            }
            if distinct_keys(segs) {
                assert forall|i: int, j: int|
                    0 <= i < after.len() && 0 <= j < after.len() && i != j implies after[i]
                    != after[j] by {
                    if i < before.len() {
                        assert(before.contains(after[i]));
                    }
                    if j < before.len() {
                        assert(before.contains(after[j]));
                    }
                }
            }
        } else {
            let grown = with_key(last.keys, k);
            let m = SegmentModel {
                keys: grown,
                capacity: last.capacity,
                bitmap_size: last.bitmap_size,
            };
            lemma_flat_update_last(segs, m);
            lemma_with_key_ascending(last.keys, k);
            assert(!last.keys.contains(k)) by {
                lemma_flat_contains(segs, k);
            }
            assert(after == front + grown);
            assert(before == front + last.keys);
            assert forall|e: Seq<char>| after.contains(e) <==> (e == k || before.contains(e)) by {
                lemma_seq_concat_contains(front, grown, e);
                lemma_seq_concat_contains(front, last.keys, e);
            }
            assert(after.to_set() =~= before.to_set().insert(k));
            assert forall|i: int| 0 <= i < after_insert(segs, k).len() implies segment_ok(
                #[trigger] after_insert(segs, k)[i],
            ) by {
                if i < segs.len() - 1 {
                    assert(after_insert(segs, k)[i] == segs[i]);
                }
            }
            if distinct_keys(segs) {
                lemma_concat_no_duplicates(front, last.keys, grown, k);
            }
        }
    }
}

/// The keys of the first `i + 1` segments are those of the first `i`
/// followed by those of segment `i`.
pub proof fn lemma_flat_take_succ(segs: Seq<SegmentModel>, i: int)
    requires
        0 <= i < segs.len(),
    ensures
        flat_keys(segs.take(i + 1)) == flat_keys(segs.take(i)) + segs[i].keys,
{
    assert(segs.take(i + 1).drop_last() =~= segs.take(i));
}

/// The first `i` segments hold no more keys than all of them.
pub proof fn lemma_flat_take_len(segs: Seq<SegmentModel>, i: int)
    requires
        0 <= i <= segs.len(),
    ensures
        flat_keys(segs.take(i)).len() <= flat_keys(segs).len(),
        i == segs.len() ==> flat_keys(segs.take(i)) == flat_keys(segs),
{
    assert(segs.take(i) + segs.skip(i) =~= segs);
    lemma_flat_concat(segs.take(i), segs.skip(i));
    if i == segs.len() {
        assert(segs.take(i) =~= segs);
    }
}

/// What inserting a run of keys does to the keys as a whole: the set of keys
/// grows by exactly the keys of the run, the count by at most their number,
/// and the segments stay in order.
pub proof fn lemma_after_insert_all(segs: Seq<SegmentModel>, ks: Seq<Seq<char>>)
    requires
        model_ok(segs),
    ensures
        model_ok(after_insert_all(segs, ks)),
        flat_keys(after_insert_all(segs, ks)).to_set() == flat_keys(segs).to_set().union(
            ks.to_set(),
        ),
        flat_keys(segs).len() <= flat_keys(after_insert_all(segs, ks)).len() <= flat_keys(
            segs,
        ).len() + ks.len(),
        distinct_keys(segs) ==> distinct_keys(after_insert_all(segs, ks)),
    decreases ks.len(),
{
    if ks.len() == 0 {
        assert(flat_keys(segs).to_set().union(ks.to_set()) =~= flat_keys(segs).to_set());
    } else {
        let front = ks.drop_last();
        let mid = after_insert_all(segs, front);
        lemma_after_insert_all(segs, front);
        lemma_after_insert(mid, ks.last());
        assert forall|e: Seq<char>| ks.contains(e) <==> (e == ks.last() || front.contains(e)) by {
            if ks.contains(e) {
                let n = choose|n: int| 0 <= n < ks.len() && ks[n] == e;
                if n < front.len() {
                    assert(front[n] == e);
                }
            }
            if front.contains(e) {
                let n = choose|n: int| 0 <= n < front.len() && front[n] == e;
                assert(ks[n] == e);
            }
            assert(ks[ks.len() - 1] == ks.last());
        }
        assert(flat_keys(mid).to_set().insert(ks.last()) =~= flat_keys(segs).to_set().union(
            ks.to_set(),
        ));
    }
}

/// What taking in another set does to the keys as a whole: the set of keys
/// becomes the union, no key of either side is lost, and the count grows by at
/// most the count of the other side. Inserting one by one keeps a set free of
/// doubles; moving segments does so only if the two sets share no key.
pub proof fn lemma_merged(segs: Seq<SegmentModel>, other: Seq<SegmentModel>, threshold: nat)
    requires
        model_ok(segs),
        model_ok(other),
    ensures
        model_ok(merged(segs, other, threshold)),
        model_ok(left_behind(other, threshold)),
        flat_keys(merged(segs, other, threshold)).to_set() == flat_keys(segs).to_set().union(
            flat_keys(other).to_set(),
        ),
        flat_keys(segs).len() <= flat_keys(merged(segs, other, threshold)).len() <= flat_keys(
            segs,
        ).len() + flat_keys(other).len(),
        moves_segments(other, threshold) ==> flat_keys(merged(segs, other, threshold))
            == flat_keys(segs) + flat_keys(other),
        moves_segments(other, threshold) ==> flat_keys(left_behind(other, threshold)).len() == 0,
        !moves_segments(other, threshold) && distinct_keys(segs) ==> distinct_keys(
            merged(segs, other, threshold),
        ),
        distinct_keys(other) ==> flat_keys(other).len() <= flat_keys(
            merged(segs, other, threshold),
        ).len(),
{
    let out = merged(segs, other, threshold);
    let theirs = flat_keys(other);
    if theirs.len() == 0 {
        assert(theirs.to_set() =~= Set::empty());
        assert(flat_keys(segs).to_set().union(theirs.to_set()) =~= flat_keys(segs).to_set());
    } else if theirs.len() < threshold {
        lemma_after_insert_all(segs, theirs);
    } else {
        lemma_flat_concat(segs, other);
        seq_to_set_distributes_over_add(flat_keys(segs), theirs);
        assert forall|i: int| 0 <= i < out.len() implies segment_ok(#[trigger] out[i]) by {
            if i < segs.len() {
                assert(out[i] == segs[i]);
            } else {
                assert(out[i] == other[i - segs.len()]);
            }
        }
        let rest = left_behind(other, threshold);
        assert(rest[0] == fresh_segment(other[0]));
        lemma_flat_one(fresh_segment(other[0]));
        assert(segment_ok(other[0]));
        assert(ascending(fresh_segment(other[0]).keys));
    }
    if distinct_keys(other) {
        theirs.unique_seq_to_set();
        flat_keys(out).lemma_cardinality_of_set();
        vstd::seq_lib::seq_to_set_is_finite(flat_keys(out));
        lemma_len_subset(theirs.to_set(), flat_keys(out).to_set());
    }
}

/// A key is in a concatenation exactly if it is in one of the two parts.
pub proof fn lemma_seq_concat_contains(a: Seq<Seq<char>>, b: Seq<Seq<char>>, e: Seq<char>)
    ensures
        (a + b).contains(e) <==> (a.contains(e) || b.contains(e)),
{
    if (a + b).contains(e) {
        let n = choose|n: int| 0 <= n < (a + b).len() && (a + b)[n] == e;
        if n < a.len() {
            assert(a[n] == e);
        } else {
            assert(b[n - a.len()] == e);
        }
    }
    if a.contains(e) {
        let n = choose|n: int| 0 <= n < a.len() && a[n] == e;
        assert((a + b)[n] == e);
    }
    if b.contains(e) {
        let n = choose|n: int| 0 <= n < b.len() && b[n] == e;
        assert((a + b)[a.len() + n] == e);
    }
}

/// If `front + tail` holds no key twice and `grown` is `tail` with one new
/// key `k` in it, in any place, then `front + grown` holds no key twice.
proof fn lemma_concat_no_duplicates(
    front: Seq<Seq<char>>,
    tail: Seq<Seq<char>>,
    grown: Seq<Seq<char>>,
    k: Seq<char>,
)
    requires
        (front + tail).no_duplicates(),
        !(front + tail).contains(k),
        ascending(grown),
        forall|e: Seq<char>| grown.contains(e) <==> (e == k || tail.contains(e)),
    ensures
        (front + grown).no_duplicates(),
{
    crate::keyset::lemma_ascending_no_duplicates(grown);
    let s = front + grown;
    assert forall|i: int, j: int| 0 <= i < s.len() && 0 <= j < s.len() && i != j implies s[i]
        != s[j] by {
        let (lo, hi) = if i < j {
            (i, j)
        } else {
            (j, i)
        };
        if hi < front.len() {
            assert((front + tail)[lo] == front[lo]);
            assert((front + tail)[hi] == front[hi]);
        } else if lo >= front.len() {
            assert(grown[lo - front.len()] != grown[hi - front.len()]);
        } else {
            let e = grown[hi - front.len()];
            assert(grown.contains(e));
            assert((front + tail)[lo] == front[lo]);
            if e == k {
                assert((front + tail).contains(front[lo]));
            } else {
                assert(tail.contains(e));
                let n = choose|n: int| 0 <= n < tail.len() && tail[n] == e;
                assert((front + tail)[front.len() + n] == e);
            }
        }
    }
}

} // verus!
