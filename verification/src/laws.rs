//! What holds of the set's operations taken together.

use crate::hybrid::Hybrid;
use crate::model::{
    after_insert, after_insert_all, distinct_keys, flat_keys, lemma_after_insert, lemma_merged,
    merged, model_ok, moves_segments, SegmentModel,
};
use vstd::prelude::*;

verus! {

/// A key that has been inserted is in the set.
pub proof fn law_inserted_key_is_member(segs: Seq<SegmentModel>, k: Seq<char>)
    requires
        model_ok(segs),
    ensures
        flat_keys(after_insert(segs, k)).contains(k),
{
    lemma_after_insert(segs, k);
    assert(flat_keys(after_insert(segs, k)).to_set().contains(k));
}

/// A key that is in the set stays in it when another key is inserted.
pub proof fn law_insert_keeps_members(segs: Seq<SegmentModel>, k: Seq<char>, member: Seq<char>)
    requires
        model_ok(segs),
        flat_keys(segs).contains(member),
    ensures
        flat_keys(after_insert(segs, k)).contains(member),
{
    lemma_after_insert(segs, k);
    assert(flat_keys(segs).to_set().contains(member));
    assert(flat_keys(after_insert(segs, k)).to_set().contains(member));
}

/// A key that is in the set stays in it when the set takes in another set,
/// whichever way the merge goes.
pub proof fn law_union_keeps_members(
    segs: Seq<SegmentModel>,
    other: Seq<SegmentModel>,
    threshold: nat,
    member: Seq<char>,
)
    requires
        model_ok(segs),
        model_ok(other),
        flat_keys(segs).contains(member),
    ensures
        flat_keys(merged(segs, other, threshold)).contains(member),
{
    lemma_merged(segs, other, threshold);
    assert(flat_keys(segs).to_set().contains(member));
    assert(flat_keys(merged(segs, other, threshold)).to_set().contains(member));
}

/// Inserting a key a second time changes nothing: not the segments, and so
/// neither the count nor what is a member.
pub proof fn law_insert_idempotent(segs: Seq<SegmentModel>, k: Seq<char>)
    requires
        model_ok(segs),
    ensures
        after_insert(after_insert(segs, k), k) == after_insert(segs, k),
        flat_keys(after_insert(after_insert(segs, k), k)).len() == flat_keys(
            after_insert(segs, k),
        ).len(),
{
    law_inserted_key_is_member(segs, k);
}

/// When a set takes in a set with fewer keys than the threshold, every key of
/// the other set is in it afterwards, and it holds no fewer keys than it did
/// before. If the other set stores no key twice, it also holds no fewer keys
/// than the other set.
pub proof fn law_small_union(segs: Seq<SegmentModel>, other: Seq<SegmentModel>, threshold: nat)
    requires
        model_ok(segs),
        model_ok(other),
        flat_keys(other).len() < threshold,
    ensures
        merged(segs, other, threshold) == after_insert_all(segs, flat_keys(other)),
        forall|k: Seq<char>| #[trigger]
            flat_keys(other).contains(k) ==> flat_keys(merged(segs, other, threshold)).contains(k),
        flat_keys(merged(segs, other, threshold)).len() >= flat_keys(segs).len(),
        distinct_keys(other) ==> flat_keys(merged(segs, other, threshold)).len() >= flat_keys(
            other,
        ).len(),
        distinct_keys(segs) ==> distinct_keys(merged(segs, other, threshold)),
{
    lemma_merged(segs, other, threshold);
    let out = flat_keys(merged(segs, other, threshold));
    assert forall|k: Seq<char>| #[trigger] flat_keys(other).contains(k) implies out.contains(k) by {
        assert(flat_keys(other).to_set().contains(k));
        assert(out.to_set().contains(k));
    }
    if flat_keys(other).len() == 0 {
        assert(after_insert_all(segs, flat_keys(other)) == segs);
    }
}

/// When a set takes in a set with at least as many keys as the threshold, it
/// holds the keys of both afterwards, each as often as the two sets held it
/// together. So it stores no key twice exactly if neither set did and the two
/// shared no key.
pub proof fn law_segment_union(segs: Seq<SegmentModel>, other: Seq<SegmentModel>, threshold: nat)
    requires
        model_ok(segs),
        model_ok(other),
        moves_segments(other, threshold),
    ensures
        merged(segs, other, threshold) == segs + other,
        flat_keys(merged(segs, other, threshold)) == flat_keys(segs) + flat_keys(other),
        distinct_keys(merged(segs, other, threshold)) <==> {
            &&& distinct_keys(segs)
            &&& distinct_keys(other)
            &&& forall|k: Seq<char>|
                !(#[trigger] flat_keys(segs).contains(k) && flat_keys(other).contains(k))
        },
{
    lemma_merged(segs, other, threshold);
    let mine = flat_keys(segs);
    let theirs = flat_keys(other);
    let all = mine + theirs;
    if distinct_keys(merged(segs, other, threshold)) {
        assert forall|i: int, j: int|
            0 <= i < mine.len() && 0 <= j < mine.len() && i != j implies mine[i] != mine[j] by {
            assert(all[i] == mine[i] && all[j] == mine[j]);
        }
        assert forall|i: int, j: int|
            0 <= i < theirs.len() && 0 <= j < theirs.len() && i != j implies theirs[i]
            != theirs[j] by {
            assert(all[mine.len() + i] == theirs[i] && all[mine.len() + j] == theirs[j]);
        }
        assert forall|k: Seq<char>|
            !(#[trigger] mine.contains(k) && theirs.contains(k)) by {
            if mine.contains(k) && theirs.contains(k) {
                let i = choose|i: int| 0 <= i < mine.len() && mine[i] == k;
                let j = choose|j: int| 0 <= j < theirs.len() && theirs[j] == k;
                assert(all[i] == k && all[mine.len() + j] == k);
            }
        }
    }
    if distinct_keys(segs) && distinct_keys(other) && forall|k: Seq<char>|
        !(#[trigger] mine.contains(k) && theirs.contains(k)) {
        assert forall|i: int, j: int| 0 <= i < mine.len() && 0 <= j < theirs.len() implies mine[i]
            != theirs[j] by {
            assert(mine.contains(mine[i]));
            assert(theirs.contains(theirs[j]));
        }
        vstd::seq_lib::lemma_no_dup_in_concat(mine, theirs);
    }
}

/// `a` is a subset of `b` exactly if `b` is a superset of `a`.
pub proof fn law_subset_superset(a: &Hybrid, b: &Hybrid)
    ensures
        a.spec_is_subset(b) == b.spec_is_superset(a),
{
}

/// Two sets are disjoint exactly if they have no intersection.
pub proof fn law_disjoint_intersection(a: &Hybrid, b: &Hybrid)
    ensures
        a.spec_is_disjoint(b) == !a.spec_has_intersection(b),
{
    if !a.spec_is_disjoint(b) {
        let k = choose|k: Seq<char>| a.keys().contains(k) && b.keys().contains(k);
        assert(a.keys().contains(k) && b.keys().contains(k));
    }
}

/// Two sets that are subsets of each other have the same keys. If neither
/// stores a key twice, they also hold the same number of keys.
pub proof fn law_mutual_subsets(a: &Hybrid, b: &Hybrid)
    requires
        a.spec_is_subset(b),
        b.spec_is_subset(a),
    ensures
        a.keys() == b.keys(),
        a.distinct() && b.distinct() ==> a.spec_len() == b.spec_len(),
{
    assert(a.keys() =~= b.keys());
    if a.distinct() && b.distinct() {
        a.elements().unique_seq_to_set();
        b.elements().unique_seq_to_set();
    }
}

/// Every key of the intersection of `a` and `b` is a key of `a` and a key of
/// `b`, and every key of both is in the intersection.
pub proof fn law_intersection_sound(a: &Hybrid, b: &Hybrid, k: Seq<char>)
    ensures
        a.spec_intersection(b).contains(k) <==> (a.keys().contains(k) && b.keys().contains(k)),
{
    let keys = a.elements();
    let wanted = crate::hybrid::member_of(b.keys());
    let common = keys.filter(wanted);
    if common.contains(k) {
        let n = choose|n: int| 0 <= n < common.len() && common[n] == k;
        keys.lemma_filter_pred(wanted, n);
        keys.lemma_filter_contains_rev(wanted, k);
    }
    if a.keys().contains(k) && b.keys().contains(k) {
        let n = choose|n: int| 0 <= n < keys.len() && keys[n] == k;
        keys.lemma_filter_contains(wanted, n);
    }
}

/// A set has an intersection with another exactly if their intersection
/// holds a key.
pub proof fn law_intersection_nonempty(a: &Hybrid, b: &Hybrid)
    ensures
        a.spec_has_intersection(b) == (a.spec_intersection(b).len() > 0),
{
    let common = a.spec_intersection(b);
    if a.spec_has_intersection(b) {
        let k = choose|k: Seq<char>| #[trigger] a.keys().contains(k) && b.keys().contains(k);
        law_intersection_sound(a, b, k);
    }
    if common.len() > 0 {
        assert(common.contains(common[0]));
        law_intersection_sound(a, b, common[0]);
        assert(a.keys().contains(common[0]) && b.keys().contains(common[0]));
    }
}

} // verus!
