//! A segment: one membership filter and one exact key store, with the sizes
//! the filter was built for.

use crate::filter::{
    filter_bits, filter_check, filter_hits, filter_new, filter_ready, filter_set, filter_sizable,
};
use crate::keyset::{lemma_with_key_ascending, with_key, KeySet};
use crate::model::{segment_ok, SegmentModel};
use bloomfilter::Bloom;
use vstd::prelude::*;

verus! {

/// The seed of every filter's hash functions. It is fixed, so that equal
/// sets answer alike from run to run.
pub fn filter_seed() -> (seed: [u8; 32])
    ensures
        forall|i: int| 0 <= i < 32 ==> seed@[i] == 0u8,
{
    [0u8; 32]
}

/// One filter with the exact store of the keys registered in it.
pub struct Segment<'a> {
    filter: Bloom<str>,
    capacity: usize,
    bitmap_size: usize,
    items: KeySet<'a>,
}

impl<'a> Segment<'a> {
    /// The segment as plain values.
    pub closed spec fn view(&self) -> SegmentModel {
        SegmentModel {
            keys: self.items@,
            capacity: self.capacity as nat,
            bitmap_size: self.bitmap_size as nat,
        }
    }

    /// The segment is in order, its filter has the size that the segment
    /// records and can be asked, and the filter answers "possibly present"
    /// for every stored key.
    pub closed spec fn wf(&self) -> bool {
        &&& segment_ok(self@)
        &&& filter_ready(self.filter)
        &&& filter_bits(self.filter) == 8 * self.bitmap_size
        &&& forall|k: Seq<char>| self.items@.contains(k) ==> filter_hits(self.filter).contains(k)
    }

    /// A well-formed segment has a model that is in order.
    pub proof fn lemma_wf_model(&self)
        requires
            self.wf(),
        ensures
            segment_ok(self@),
    {
    }

    /// An empty segment for `capacity` keys with a filter of `bitmap_size`
    /// bytes.
    pub fn new(capacity: usize, bitmap_size: usize) -> (r: Segment<'a>)
        requires
            filter_sizable(bitmap_size, capacity),
        ensures
            r.wf(),
            r@ == (SegmentModel {
                keys: Seq::empty(),
                capacity: capacity as nat,
                bitmap_size: bitmap_size as nat,
            }),
    {
        let seed = filter_seed();
        Segment {
            filter: filter_new(bitmap_size, capacity, &seed),
            capacity,
            bitmap_size,
            items: KeySet::new(),
        }
    }

    /// The number of keys that the segment is sized for.
    pub fn capacity(&self) -> (n: usize)
        ensures
            n == self@.capacity,
    {
        self.capacity
    }

    /// The size of the segment's filter, in bytes.
    pub fn bitmap_size(&self) -> (n: usize)
        ensures
            n == self@.bitmap_size,
    {
        self.bitmap_size
    }

    /// The number of stored keys.
    pub fn len(&self) -> (n: usize)
        ensures
            n == self@.keys.len(),
    {
        self.items.len()
    }

    /// Whether the segment holds as many keys as it is sized for.
    pub fn is_full(&self) -> (r: bool)
        ensures
            r == (self@.keys.len() == self@.capacity),
    {
        self.items.len() == self.capacity
    }

    /// The key at position `i`.
    pub fn key_at<'s>(&'s self, i: usize) -> (k: &'s &'a str)
        requires
            i < self@.keys.len(),
        ensures
            k@ == self@.keys[i as int],
    {
        self.items.key_at(i)
    }

    /// Whether `key` is stored. The filter is asked first, and the exact
    /// store only if the filter answers "possibly present".
    pub fn contains(&self, key: &str) -> (r: bool)
        requires
            self.wf(),
        ensures
            r == self@.keys.contains(key@),
    {
        filter_check(&self.filter, key) && self.items.contains(key)
    }

    /// The stored key that equals `key`, if there is one; the filter is
    /// asked first.
    pub fn get(&self, key: &str) -> (r: Option<&'a str>)
        requires
            self.wf(),
        ensures
            r is Some <==> self@.keys.contains(key@),
            r is Some ==> r->0@ == key@,
    {
        if filter_check(&self.filter, key) {
            self.items.get(key)
        } else {
            None
        }
    }

    /// Registers `key` with the filter and stores it.
    pub fn insert(&mut self, key: &'a str)
        requires
            old(self).wf(),
            old(self)@.keys.len() < old(self)@.capacity,
        ensures
            final(self).wf(),
            final(self)@ == (SegmentModel {
                keys: with_key(old(self)@.keys, key@),
                capacity: old(self)@.capacity,
                bitmap_size: old(self)@.bitmap_size,
            }),
    {
        proof {
            lemma_with_key_ascending(self.items@, key@);
        }
        filter_set(&mut self.filter, key);
        self.items.insert(key);
    }
}

} // verus!
