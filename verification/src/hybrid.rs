//! The hybrid set: an ordered run of segments behind one set interface.

use crate::filter::filter_sizable;
use crate::model::{
    after_insert, after_insert_all, distinct_keys, flat_keys, left_behind, lemma_after_insert,
    lemma_flat_contains, lemma_flat_one, lemma_flat_take_len, lemma_flat_take_succ,
    lemma_merged, merged, model_ok, moves_segments, SegmentModel,
};
use crate::segment::Segment;
use vstd::prelude::*;

verus! {

/// The number of keys from which on `union` moves whole segments.
pub const SMALL_MERGE_THRESHOLD: usize = 1000;

/// The order in which a lookup walks the segments. It changes how long a
/// lookup takes, never what it answers.
#[derive(Clone, Copy, Debug, PartialEq, Eq, Structural)]
pub enum Traversal {
    /// From the segment created first to the one created last.
    OldestFirst,
    /// From the segment created last to the one created first.
    NewestFirst,
}

/// Why a set could not be built.
#[derive(Clone, Copy, Debug, PartialEq, Eq, Structural)]
pub enum ConstructionError {
    /// The set was to be sized for no keys.
    NoCapacity,
    /// The filter was to have no bytes.
    NoBitmap,
    /// The filter's bits cannot be counted in a `usize`.
    BitmapTooLarge,
}

/// What `Hybrid::new` answers for the given sizes.
pub open spec fn construction_error(items_count: usize, bitmap_size: usize) -> Option<
    ConstructionError,
> {
    if items_count == 0 {
        Some(ConstructionError::NoCapacity)
    } else if bitmap_size == 0 {
        Some(ConstructionError::NoBitmap)
    } else if bitmap_size * 8 > usize::MAX {
        Some(ConstructionError::BitmapTooLarge)
    } else {
        None
    }
}

/// A set of string keys, held in segments.
pub struct Hybrid<'a> {
    base: Vec<Segment<'a>>,
    threshold: usize,
    traversal: Traversal,
}

impl<'a> Hybrid<'a> {
    /// The segments, oldest first, as plain values.
    pub closed spec fn view(&self) -> Seq<SegmentModel> {
        Seq::new(self.base@.len(), |i: int| self.base@[i]@)
    }

    /// There is at least one segment, and each segment is well formed.
    pub closed spec fn wf(&self) -> bool {
        &&& self.base@.len() > 0
        &&& forall|i: int| 0 <= i < self.base@.len() ==> (#[trigger] self.base@[i]).wf()
    }

    /// The number of keys of `other` below which `union` inserts them one by
    /// one.
    pub closed spec fn spec_threshold(&self) -> usize {
        self.threshold
    }

    /// The order in which lookups walk the segments.
    pub closed spec fn spec_traversal(&self) -> Traversal {
        self.traversal
    }

    /// All the stored keys, in storage order: segment after segment, and in
    /// ascending order within each.
    pub open spec fn elements(&self) -> Seq<Seq<char>> {
        flat_keys(self@)
    }

    /// The keys as a set.
    pub open spec fn keys(&self) -> Set<Seq<char>> {
        self.elements().to_set()
    }

    /// The number of stored keys: the sum of the segments' counts.
    pub open spec fn spec_len(&self) -> nat {
        self.elements().len()
    }

    /// No key is stored twice.
    pub open spec fn distinct(&self) -> bool {
        distinct_keys(self@)
    }

    /// The model of a well-formed set is in order.
    pub proof fn lemma_wf_model(&self)
        requires
            self.wf(),
        ensures
            model_ok(self@),
    {
        assert forall|i: int| 0 <= i < self@.len() implies crate::model::segment_ok(
            #[trigger] self@[i],
        ) by {
            self.base@[i].lemma_wf_model();
        }
    }

    /// A set with one empty segment, sized for `items_count` keys, whose
    /// filter has `bitmap_size` bytes. Every segment that the set creates
    /// later has the same sizes.
    pub fn new(items_count: usize, bitmap_size: usize) -> (r: Result<Hybrid<'a>, ConstructionError>)
        ensures
            r is Ok <==> filter_sizable(bitmap_size, items_count),
            r is Err ==> Some(r->Err_0) == construction_error(items_count, bitmap_size),
            r is Ok ==> {
                &&& r->Ok_0.wf()
                &&& r->Ok_0@ == seq![
                    SegmentModel {
                        keys: Seq::empty(),
                        capacity: items_count as nat,
                        bitmap_size: bitmap_size as nat,
                    },
                ]
                &&& r->Ok_0.elements() == Seq::<Seq<char>>::empty()
                &&& r->Ok_0.spec_threshold() == SMALL_MERGE_THRESHOLD
                &&& r->Ok_0.spec_traversal() == Traversal::OldestFirst
            },
    {
        if items_count == 0 {
            return Err(ConstructionError::NoCapacity);
        }
        if bitmap_size == 0 {
            return Err(ConstructionError::NoBitmap);
        }
        if bitmap_size > usize::MAX / 8 {
            return Err(ConstructionError::BitmapTooLarge);
        }
        let mut base: Vec<Segment<'a>> = Vec::new();
        base.push(Segment::new(items_count, bitmap_size));
        let r = Hybrid { base, threshold: SMALL_MERGE_THRESHOLD, traversal: Traversal::OldestFirst };
        proof {
            assert(r@ =~= seq![r@[0]]);
            lemma_flat_one(r@[0]);
        }
        Ok(r)
    }

    /// The number of segments.
    pub fn segment_count(&self) -> (n: usize)
        ensures
            n == self@.len(),
    {
        self.base.len()
    }

    /// Whether `item` is in the set. The segments are walked in the set's
    /// traversal order; in each the filter is asked first, and the exact
    /// store only where the filter answers "possibly present".
    pub fn contains(&self, item: &str) -> (r: bool)
        requires
            self.wf(),
        ensures
            r == self.keys().contains(item@),
    {
        self.get_item(item).is_some()
    }

    /// The stored key that equals `item`, if the set holds one.
    pub fn get_item(&self, item: &str) -> (r: Option<&'a str>)
        requires
            self.wf(),
        ensures
            r is Some <==> self.keys().contains(item@),
            r is Some ==> r->0@ == item@,
    {
        let n: usize = self.base.len();
        let oldest_first: bool = match self.traversal {
            Traversal::OldestFirst => true,
            Traversal::NewestFirst => false,
        };
        let mut seen: usize = 0;
        while seen < n
            invariant
                self.wf(),
                n == self.base@.len(),
                n == self@.len(),
                seen <= n,
                forall|i: int|
                    0 <= i < n && (if oldest_first {
                        i < seen
                    } else {
                        i >= n - seen
                    }) ==> !(#[trigger] self@[i]).keys.contains(item@),
            decreases n - seen,
        {
            let at: usize = if oldest_first {
                seen
            } else {
                n - 1 - seen
            };
            assert(self.base@[at as int].wf());
            assert(self@[at as int] == self.base@[at as int]@);
            let found = self.base[at].get(item);
            if found.is_some() {
                proof {
                    lemma_flat_contains(self@, item@);
                }
                return found;
            }
            seen = seen + 1;
        }
        proof {
            lemma_flat_contains(self@, item@);
        }
        None
    }

    /// Adds `item` to the set. A key that is there already changes nothing;
    /// a new key goes to the last segment, after a new segment has been
    /// appended if the last one is full.
    pub fn insert(&mut self, item: &'a str)
        requires
            old(self).wf(),
        ensures
            final(self).wf(),
            final(self)@ == after_insert(old(self)@, item@),
            final(self).spec_threshold() == old(self).spec_threshold(),
            final(self).spec_traversal() == old(self).spec_traversal(),
            final(self).keys() == old(self).keys().insert(item@),
            final(self).spec_len() == old(self).spec_len() + if old(self).keys().contains(item@) {
                0int
            } else {
                1int
            },
            old(self).distinct() ==> final(self).distinct(),
    {
        proof {
            self.lemma_wf_model();
            lemma_after_insert(self@, item@);
        }
        if self.contains(item) {
            return ;
        }
        let ghost before = self@;
        let last: usize = self.base.len() - 1;
        assert(self.base@[last as int].wf());
        assert(before[last as int] == self.base@[last as int]@);
        assert(self.base@[0].wf());
        assert(before[0] == self.base@[0]@);
        if self.base[last].is_full() {
            proof {
                self.base@[0].lemma_wf_model();
            }
            let mut segment = Segment::new(self.base[0].capacity(), self.base[0].bitmap_size());
            segment.insert(item);
            assert(crate::keyset::with_key(Seq::<Seq<char>>::empty(), item@) =~= seq![item@]);
            self.base.push(segment);
            assert(self@ =~= after_insert(before, item@));
        } else {
            self.base[last].insert(item);
            assert(self@ =~= after_insert(before, item@));
        }
    }
}

/// The keys that a run of stored references stands for.
pub open spec fn key_views(refs: Seq<&str>) -> Seq<Seq<char>> {
    Seq::new(refs.len(), |i: int| refs[i]@)
}

/// The keys that a run of references to stored references stands for.
pub open spec fn ref_views(refs: Seq<&&str>) -> Seq<Seq<char>> {
    Seq::new(refs.len(), |i: int| refs[i]@)
}

impl<'a> Hybrid<'a> {
    /// Whether the set holds no key.
    pub fn is_empty(&self) -> (r: bool)
        requires
            self.wf(),
        ensures
            r == (self.spec_len() == 0),
    {
        let n: usize = self.base.len();
        let mut i: usize = 0;
        proof {
            assert(self@.take(0) =~= Seq::empty());
        }
        while i < n
            invariant
                n == self.base@.len(),
                n == self@.len(),
                i <= n,
                flat_keys(self@.take(i as int)).len() == 0,
            decreases n - i,
        {
            assert(self@[i as int] == self.base@[i as int]@);
            proof {
                lemma_flat_take_succ(self@, i as int);
                lemma_flat_take_len(self@, i + 1);
            }
            if self.base[i].len() != 0 {
                return false;
            }
            i = i + 1;
        }
        proof {
            lemma_flat_take_len(self@, n as int);
        }
        true
    }

    /// The number of stored keys: the segments' exact counts, added up. A key
    /// that stands in two segments counts twice.
    pub fn len(&self) -> (n: usize)
        requires
            self.wf(),
            self.spec_len() <= usize::MAX,
        ensures
            n == self.spec_len(),
    {
        let count: usize = self.base.len();
        let mut total: usize = 0;
        let mut i: usize = 0;
        proof {
            assert(self@.take(0) =~= Seq::empty());
        }
        while i < count
            invariant
                count == self.base@.len(),
                count == self@.len(),
                i <= count,
                total == flat_keys(self@.take(i as int)).len(),
                flat_keys(self@).len() <= usize::MAX,
            decreases count - i,
        {
            assert(self@[i as int] == self.base@[i as int]@);
            proof {
                lemma_flat_take_succ(self@, i as int);
                lemma_flat_take_len(self@, i + 1);
            }
            total = total + self.base[i].len();
            i = i + 1;
        }
        proof {
            lemma_flat_take_len(self@, count as int);
        }
        total
    }

    /// Whether the set holds fewer than `limit` keys. The count stops as soon
    /// as the limit is reached.
    pub fn has_fewer_than(&self, limit: usize) -> (r: bool)
        requires
            self.wf(),
        ensures
            r == (self.spec_len() < limit),
    {
        let count: usize = self.base.len();
        let mut total: usize = 0;
        let mut i: usize = 0;
        proof {
            assert(self@.take(0) =~= Seq::empty());
        }
        if limit == 0 {
            return false;
        }
        while i < count
            invariant
                count == self.base@.len(),
                count == self@.len(),
                i <= count,
                total == flat_keys(self@.take(i as int)).len(),
                total < limit,
            decreases count - i,
        {
            assert(self@[i as int] == self.base@[i as int]@);
            proof {
                lemma_flat_take_succ(self@, i as int);
                lemma_flat_take_len(self@, i + 1);
            }
            let held: usize = self.base[i].len();
            if held >= limit - total {
                return false;
            }
            total = total + held;
            i = i + 1;
        }
        proof {
            lemma_flat_take_len(self@, count as int);
        }
        true
    }

    /// All the stored keys, in storage order, as references into the set.
    pub fn iter<'s>(&'s self) -> (r: Vec<&'s &'a str>)
        requires
            self.wf(),
        ensures
            ref_views(r@) == self.elements(),
    {
        let count: usize = self.base.len();
        let mut out: Vec<&'s &'a str> = Vec::new();
        let mut i: usize = 0;
        proof {
            assert(self@.take(0) =~= Seq::empty());
            assert(ref_views(out@) =~= flat_keys(self@.take(0)));
        }
        while i < count
            invariant
                count == self.base@.len(),
                count == self@.len(),
                i <= count,
                ref_views(out@) == flat_keys(self@.take(i as int)),
            decreases count - i,
        {
            assert(self@[i as int] == self.base@[i as int]@);
            let held: usize = self.base[i].len();
            let ghost front = flat_keys(self@.take(i as int));
            let ghost keys = self@[i as int].keys;
            let mut j: usize = 0;
            assert(front + keys.take(0) =~= front);
            while j < held
                invariant
                    i < count,
                    count == self.base@.len(),
                    self@[i as int] == self.base@[i as int]@,
                    keys == self@[i as int].keys,
                    held == keys.len(),
                    j <= held,
                    ref_views(out@) == front + keys.take(j as int),
                decreases held - j,
            {
                let ghost so_far = out@;
                out.push(self.base[i].key_at(j));
                assert(ref_views(out@) =~= ref_views(so_far).push(keys[j as int]));
                assert(front + keys.take(j + 1) =~= (front + keys.take(j as int)).push(
                    keys[j as int],
                ));
                j = j + 1;
            }
            proof {
                assert(keys.take(held as int) =~= keys);
                lemma_flat_take_succ(self@, i as int);
            }
            i = i + 1;
        }
        proof {
            lemma_flat_take_len(self@, count as int);
        }
        out
    }

    /// All the stored keys, in storage order.
    pub fn get_iter(&self) -> (r: Vec<&'a str>)
        requires
            self.wf(),
        ensures
            key_views(r@) == self.elements(),
    {
        let refs = self.iter();
        let mut out: Vec<&'a str> = Vec::new();
        let mut i: usize = 0;
        while i < refs.len()
            invariant
                i <= refs@.len(),
                out@.len() == i,
                forall|n: int| 0 <= n < i ==> (#[trigger] out@[n])@ == refs@[n]@,
            decreases refs@.len() - i,
        {
            out.push(*refs[i]);
            i = i + 1;
        }
        assert(key_views(out@) =~= ref_views(refs@));
        out
    }
}

/// The test "is a key of `s`".
pub open spec fn member_of(s: Set<Seq<char>>) -> spec_fn(Seq<char>) -> bool {
    |k: Seq<char>| s.contains(k)
}

impl<'a> Hybrid<'a> {
    /// Every key of `self` is a key of `other`.
    pub open spec fn spec_is_subset(&self, other: &Hybrid) -> bool {
        self.keys().subset_of(other.keys())
    }

    /// Every key of `other` is a key of `self`.
    pub open spec fn spec_is_superset(&self, other: &Hybrid) -> bool {
        other.keys().subset_of(self.keys())
    }

    /// No key of `self` is a key of `other`.
    pub open spec fn spec_is_disjoint(&self, other: &Hybrid) -> bool {
        self.keys().disjoint(other.keys())
    }

    /// Some key of `self` is a key of `other`.
    pub open spec fn spec_has_intersection(&self, other: &Hybrid) -> bool {
        exists|k: Seq<char>| #[trigger] self.keys().contains(k) && other.keys().contains(k)
    }

    /// The keys of `self` that are keys of `other`, in the storage order of
    /// `self`.
    pub open spec fn spec_intersection(&self, other: &Hybrid) -> Seq<Seq<char>> {
        self.elements().filter(member_of(other.keys()))
    }

    /// Walks the keys of `self` in storage order and stops at the first one
    /// whose membership in `other` is `present`.
    fn find_first(&self, other: &Hybrid, present: bool) -> (r: Option<&'a str>)
        requires
            self.wf(),
            other.wf(),
        ensures
            r is None <==> forall|k: Seq<char>| #[trigger]
                self.elements().contains(k) ==> other.keys().contains(k) != present,
            r is Some ==> self.elements().contains(r->0@) && other.keys().contains(r->0@)
                == present,
    {
        let count: usize = self.base.len();
        let mut i: usize = 0;
        while i < count
            invariant
                self.wf(),
                other.wf(),
                count == self.base@.len(),
                count == self@.len(),
                i <= count,
                forall|si: int, k: Seq<char>|
                    0 <= si < i && (#[trigger] self@[si]).keys.contains(k) ==> #[trigger] other.keys().contains(
                        k,
                    ) != present,
            decreases count - i,
        {
            assert(self@[i as int] == self.base@[i as int]@);
            let held: usize = self.base[i].len();
            let ghost keys = self@[i as int].keys;
            let mut j: usize = 0;
            while j < held
                invariant
                    self.wf(),
                    other.wf(),
                    i < count,
                    count == self.base@.len(),
                    count == self@.len(),
                    self@[i as int] == self.base@[i as int]@,
                    keys == self@[i as int].keys,
                    held == keys.len(),
                    j <= held,
                    forall|n: int| 0 <= n < j ==> other.keys().contains(#[trigger] keys[n]) != present,
                decreases held - j,
            {
                let key: &'a str = *self.base[i].key_at(j);
                if other.contains(key) == present {
                    proof {
                        assert(key@ == keys[j as int]);
                        assert(self@[i as int].keys.contains(key@));
                        lemma_flat_contains(self@, key@);
                        assert(self.elements().contains(key@));
                    }
                    return Some(key);
                }
                j = j + 1;
            }
            i = i + 1;
        }
        proof {
            assert forall|k: Seq<char>| #[trigger] self.elements().contains(k) implies other.keys().contains(
                k,
            ) != present by {
                lemma_flat_contains(self@, k);
            }
        }
        None
    }

    /// Whether every key of `self` is in `other`. Stops at the first key that
    /// is not.
    pub fn is_subset(&self, other: &Hybrid) -> (r: bool)
        requires
            self.wf(),
            other.wf(),
        ensures
            r == self.spec_is_subset(other),
    {
        let miss = self.find_first(other, false);
        proof {
            if miss is Some {
                assert(self.keys().contains(miss->0@));
            }
        }
        miss.is_none()
    }

    /// Whether every key of `other` is in `self`. Stops at the first key that
    /// is not.
    pub fn is_superset(&self, other: &Hybrid) -> (r: bool)
        requires
            self.wf(),
            other.wf(),
        ensures
            r == self.spec_is_superset(other),
    {
        let miss = other.find_first(self, false);
        proof {
            if miss is Some {
                assert(other.keys().contains(miss->0@));
            }
        }
        miss.is_none()
    }

    /// Whether no key of `self` is in `other`. Stops at the first key that
    /// is.
    pub fn is_disjoint(&self, other: &Hybrid) -> (r: bool)
        requires
            self.wf(),
            other.wf(),
        ensures
            r == self.spec_is_disjoint(other),
    {
        let hit = self.find_first(other, true);
        proof {
            if hit is Some {
                assert(self.keys().contains(hit->0@));
            }
        }
        hit.is_none()
    }

    /// Whether some key of `self` is in `other`. Stops at the first key that
    /// is.
    pub fn has_intersection(&self, other: &Hybrid) -> (r: bool)
        requires
            self.wf(),
            other.wf(),
        ensures
            r == self.spec_has_intersection(other),
    {
        let hit = self.find_first(other, true);
        proof {
            if hit is Some {
                assert(self.keys().contains(hit->0@));
            }
        }
        hit.is_some()
    }

    /// The keys of `self` that are in `other`, in the storage order of
    /// `self`, as references into `self`. Each call walks the set anew.
    pub fn intersection<'s>(&'s self, other: &Hybrid) -> (r: Vec<&'s &'a str>)
        requires
            self.wf(),
            other.wf(),
        ensures
            ref_views(r@) == self.spec_intersection(other),
            forall|n: int|
                0 <= n < r@.len() ==> self.keys().contains((#[trigger] r@[n])@)
                    && other.keys().contains(r@[n]@),
    {
        let all = self.iter();
        let ghost keys = ref_views(all@);
        let ghost wanted = member_of(other.keys());
        let mut out: Vec<&'s &'a str> = Vec::new();
        let mut i: usize = 0;
        proof {
            assert(keys.take(0) =~= Seq::empty());
            reveal(Seq::filter);
            assert(ref_views(out@) =~= keys.take(0).filter(wanted));
        }
        while i < all.len()
            invariant
                other.wf(),
                keys == ref_views(all@),
                wanted == member_of(other.keys()),
                i <= all@.len(),
                ref_views(out@) == keys.take(i as int).filter(wanted),
            decreases all@.len() - i,
        {
            let key: &'s &'a str = all[i];
            let ghost so_far = out@;
            proof {
                assert(keys.take(i + 1) =~= keys.take(i as int).push(keys[i as int]));
                keys.take(i as int).lemma_filter_push(keys[i as int], wanted);
            }
            if other.contains(*key) {
                out.push(key);
                assert(ref_views(out@) =~= ref_views(so_far).push(keys[i as int]));
            }
            i = i + 1;
        }
        proof {
            assert(keys.take(all@.len() as int) =~= keys);
            assert forall|n: int| 0 <= n < out@.len() implies self.keys().contains(
                (#[trigger] out@[n])@,
            ) && other.keys().contains(out@[n]@) by {
                let k = ref_views(out@)[n];
                assert(k == out@[n]@);
                keys.lemma_filter_pred(wanted, n);
                assert(keys.filter(wanted).contains(k));
                keys.lemma_filter_contains_rev(wanted, k);
            }
        }
        out
    }

    /// Whether the intersection of `self` and `other` holds a key.
    pub fn intersection_boolean(&self, other: &Hybrid) -> (r: bool)
        requires
            self.wf(),
            other.wf(),
        ensures
            r == self.spec_has_intersection(other),
    {
        let common = self.intersection(other);
        proof {
            let keys = self.elements();
            let wanted = member_of(other.keys());
            if common@.len() > 0 {
                assert(self.keys().contains(common@[0]@));
            } else if self.spec_has_intersection(other) {
                let k = choose|k: Seq<char>| #[trigger]
                    self.keys().contains(k) && other.keys().contains(k);
                let n = choose|n: int| 0 <= n < keys.len() && keys[n] == k;
                keys.lemma_filter_contains(wanted, n);
            }
        }
        common.len() > 0
    }
}

impl<'a> Hybrid<'a> {
    /// Takes the keys of `other` into `self`.
    ///
    /// If `other` holds fewer keys than the small-merge threshold of `self`,
    /// they are inserted one by one and `other` stays as it is. Otherwise the
    /// segments of `other` are moved to the end of `self`, in their order,
    /// and `other` is left with one empty segment of the sizes of its first.
    /// Moving segments does not look at the keys: a key that both sets held
    /// is then stored twice in `self`, and counted twice by `len`. Returns
    /// `self`.
    pub fn union(&mut self, other: &mut Hybrid<'a>) -> (r: &mut Hybrid<'a>)
        requires
            old(self).wf(),
            old(other).wf(),
        ensures
            *final(self) == *final(r),
            r.wf(),
            final(other).wf(),
            r@ == merged(old(self)@, old(other)@, old(self).spec_threshold() as nat),
            final(other)@ == left_behind(old(other)@, old(self).spec_threshold() as nat),
            r.spec_threshold() == old(self).spec_threshold(),
            r.spec_traversal() == old(self).spec_traversal(),
            final(other).spec_threshold() == old(other).spec_threshold(),
            final(other).spec_traversal() == old(other).spec_traversal(),
            r.keys() == old(self).keys().union(old(other).keys()),
            old(self).spec_len() <= r.spec_len() <= old(self).spec_len() + old(other).spec_len(),
            old(other).distinct() ==> old(other).spec_len() <= r.spec_len(),
            !moves_segments(old(other)@, old(self).spec_threshold() as nat) && old(
                self,
            ).distinct() ==> r.distinct(),
    {
        proof {
            self.lemma_wf_model();
            other.lemma_wf_model();
            lemma_merged(self@, other@, self.spec_threshold() as nat);
        }
        if other.is_empty() {
            return self;
        }
        if other.has_fewer_than(self.threshold) {
            let keys = other.get_iter();
            let ghost start = self@;
            let ghost wanted = key_views(keys@);
            let mut i: usize = 0;
            assert(wanted.take(0) =~= Seq::empty());
            while i < keys.len()
                invariant
                    self.wf(),
                    wanted == key_views(keys@),
                    i <= keys@.len(),
                    self@ == after_insert_all(start, wanted.take(i as int)),
                    self.spec_threshold() == old(self).spec_threshold(),
                    self.spec_traversal() == old(self).spec_traversal(),
                decreases keys@.len() - i,
            {
                self.insert(keys[i]);
                proof {
                    assert(wanted.take(i + 1).drop_last() =~= wanted.take(i as int));
                    assert(wanted.take(i + 1).last() == keys@[i as int]@);
                }
                i = i + 1;
            }
            assert(wanted.take(keys@.len() as int) =~= wanted);
        } else {
            let ghost mine = self@;
            let ghost theirs = other@;
            let ghost my_base = self.base@;
            let ghost their_base = other.base@;
            assert(their_base[0].wf());
            assert(theirs[0] == their_base[0]@);
            proof {
                their_base[0].lemma_wf_model();
            }
            let capacity: usize = other.base[0].capacity();
            let bitmap_size: usize = other.base[0].bitmap_size();
            self.base.append(&mut other.base);
            other.base.push(Segment::new(capacity, bitmap_size));
            assert(self@ =~= mine + theirs);
            assert(other@ =~= seq![crate::model::fresh_segment(theirs[0])]);
            assert forall|i: int| 0 <= i < self.base@.len() implies (#[trigger] self.base@[i]).wf() by {
                if i < my_base.len() {
                    assert(self.base@[i] == my_base[i]);
                } else {
                    assert(self.base@[i] == their_base[i - my_base.len()]);
                }
            }
        }
        self
    }

    /// The order in which lookups walk the segments.
    pub fn traversal(&self) -> (r: Traversal)
        ensures
            r == self.spec_traversal(),
    {
        self.traversal
    }

    /// Sets the order in which lookups walk the segments.
    pub fn set_traversal(&mut self, traversal: Traversal)
        ensures
            final(self).spec_traversal() == traversal,
            final(self).spec_threshold() == old(self).spec_threshold(),
            final(self)@ == old(self)@,
            final(self).wf() == old(self).wf(),
    {
        self.traversal = traversal;
        assert(self@ =~= old(self)@);
    }

    /// The number of keys of another set below which `union` inserts them
    /// one by one.
    pub fn small_merge_threshold(&self) -> (r: usize)
        ensures
            r == self.spec_threshold(),
    {
        self.threshold
    }

    /// Sets the number of keys of another set below which `union` inserts
    /// them one by one.
    pub fn set_small_merge_threshold(&mut self, threshold: usize)
        ensures
            final(self).spec_threshold() == threshold,
            final(self).spec_traversal() == old(self).spec_traversal(),
            final(self)@ == old(self)@,
            final(self).wf() == old(self).wf(),
    {
        self.threshold = threshold;
        assert(self@ =~= old(self)@);
    }
}

} // verus!
