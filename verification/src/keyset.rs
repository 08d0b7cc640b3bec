//! The exact key store of a segment: the keys in ascending order, none twice.

use crate::order::{
    key_lt, key_rank, lemma_key_lt_asymmetric, lemma_key_lt_irreflexive, lemma_key_lt_total,
    lemma_key_lt_transitive, Rank,
};
use vstd::prelude::*;

verus! {

/// Every key comes before all the keys after it.
pub open spec fn ascending(s: Seq<Seq<char>>) -> bool {
    forall|i: int, j: int| 0 <= i < j < s.len() ==> key_lt(#[trigger] s[i], #[trigger] s[j])
}

/// The number of keys of `s` that come before `k`.
pub open spec fn rank(s: Seq<Seq<char>>, k: Seq<char>) -> int
    decreases s.len(),
{
    if s.len() == 0 {
        0
    } else {
        rank(s.drop_last(), k) + if key_lt(s.last(), k) {
            1int
        } else {
            0int
        }
    }
}

/// `s` with `k` put in its place, unless `s` holds it already.
pub open spec fn with_key(s: Seq<Seq<char>>, k: Seq<char>) -> Seq<Seq<char>> {
    if s.contains(k) {
        s
    } else {
        s.insert(rank(s, k), k)
    }
}

/// In an ascending sequence, the place where the keys stop coming before `k`
/// is the rank of `k`.
pub proof fn lemma_rank_is_split(s: Seq<Seq<char>>, k: Seq<char>, p: int)
    requires
        0 <= p <= s.len(),
        forall|i: int| 0 <= i < p ==> key_lt(#[trigger] s[i], k),
        forall|i: int| p <= i < s.len() ==> !key_lt(#[trigger] s[i], k),
    ensures
        rank(s, k) == p,
    decreases s.len(),
{
    if s.len() > 0 {
        let t = s.drop_last();
        if p == s.len() {
            lemma_rank_is_split(t, k, p - 1);
        } else {
            lemma_rank_is_split(t, k, p);
        }
    }
}

/// An ascending sequence holds no key twice.
pub proof fn lemma_ascending_no_duplicates(s: Seq<Seq<char>>)
    requires
        ascending(s),
    ensures
        s.no_duplicates(),
{
    assert forall|i: int, j: int| 0 <= i < s.len() && 0 <= j < s.len() && i != j implies s[i]
        != s[j] by {
        if i < j {
            lemma_key_lt_asymmetric(s[i], s[j]);
        } else {
            lemma_key_lt_asymmetric(s[j], s[i]);
        }
    }
}

/// Putting a new key at its rank keeps the sequence ascending.
pub proof fn lemma_with_key_ascending(s: Seq<Seq<char>>, k: Seq<char>)
    requires
        ascending(s),
    ensures
        ascending(with_key(s, k)),
        with_key(s, k).contains(k),
        with_key(s, k).len() == s.len() + if s.contains(k) {
            0int
        } else {
            1int
        },
        forall|e: Seq<char>| with_key(s, k).contains(e) <==> (e == k || s.contains(e)),
{
    if !s.contains(k) {
        let p = lemma_split_exists(s, k);
        lemma_rank_is_split(s, k, p);
        let t = s.insert(p, k);
        assert forall|i: int, j: int| 0 <= i < j < t.len() implies key_lt(
            #[trigger] t[i],
            #[trigger] t[j],
        ) by {
            if j < p {
                assert(t[i] == s[i] && t[j] == s[j]);
            } else if j == p {
                assert(t[i] == s[i]);
            } else if i < p {
                assert(t[i] == s[i] && t[j] == s[j - 1]);
            } else if i == p {
                assert(t[j] == s[j - 1]);
                assert(s.contains(s[j - 1]));
                lemma_key_lt_total(s[j - 1], k);
            } else {
                assert(t[i] == s[i - 1] && t[j] == s[j - 1]);
            }
        }
        assert(t[p] == k);
        assert forall|e: Seq<char>| t.contains(e) <==> (e == k || s.contains(e)) by {
            if t.contains(e) {
                let i = choose|i: int| 0 <= i < t.len() && t[i] == e;
                if i < p {
                    assert(s[i] == e);
                } else if i > p {
                    assert(s[i - 1] == e);
                }
            }
            if s.contains(e) {
                let i = choose|i: int| 0 <= i < s.len() && s[i] == e;
                if i < p {
                    assert(t[i] == e);
                } else {
                    assert(t[i + 1] == e);
                }
            }
        }
    }
}

/// In an ascending sequence the keys that come before `k` form a prefix.
pub proof fn lemma_split_exists(s: Seq<Seq<char>>, k: Seq<char>) -> (p: int)
    requires
        ascending(s),
    ensures
        0 <= p <= s.len(),
        forall|i: int| 0 <= i < p ==> key_lt(#[trigger] s[i], k),
        forall|i: int| p <= i < s.len() ==> !key_lt(#[trigger] s[i], k),
    decreases s.len(),
{
    if s.len() == 0 {
        0
    } else if key_lt(s.last(), k) {
        assert forall|i: int| 0 <= i < s.len() implies key_lt(#[trigger] s[i], k) by {
            if i < s.len() - 1 {
                lemma_key_lt_transitive(s[i], s.last(), k);
            }
        }
        s.len() as int
    } else {
        let t = s.drop_last();
        assert forall|i: int, j: int| 0 <= i < j < t.len() implies key_lt(
            #[trigger] t[i],
            #[trigger] t[j],
        ) by {
            assert(t[i] == s[i] && t[j] == s[j]);
        }
        let p = lemma_split_exists(t, k);
        assert forall|i: int| 0 <= i < p implies key_lt(#[trigger] s[i], k) by {
            assert(t[i] == s[i]);
        }
        assert forall|i: int| p <= i < s.len() implies !key_lt(#[trigger] s[i], k) by {
            if i < t.len() {
                assert(t[i] == s[i]);
            }
        }
        p
    }
}

/// An ordered store of keys.
pub struct KeySet<'a> {
    items: Vec<&'a str>,
}

impl<'a> KeySet<'a> {
    /// The keys, in the order in which they are stored.
    pub closed spec fn view(&self) -> Seq<Seq<char>> {
        Seq::new(self.items@.len(), |i: int| self.items@[i]@)
    }

    /// The stored keys are in ascending order.
    pub open spec fn wf(&self) -> bool {
        ascending(self@)
    }

    /// An empty store.
    pub fn new() -> (r: KeySet<'a>)
        ensures
            r@ == Seq::<Seq<char>>::empty(),
            r.wf(),
    {
        let r = KeySet { items: Vec::new() };
        assert(r@ =~= Seq::<Seq<char>>::empty());
        r
    }

    /// The number of keys.
    pub fn len(&self) -> (n: usize)
        ensures
            n == self@.len(),
    {
        self.items.len()
    }

    /// Whether the store holds no key.
    pub fn is_empty(&self) -> (r: bool)
        ensures
            r == (self@.len() == 0),
    {
        self.items.len() == 0
    }

    /// The key at position `i`.
    pub fn key_at<'s>(&'s self, i: usize) -> (k: &'s &'a str)
        requires
            i < self@.len(),
        ensures
            k@ == self@[i as int],
    {
        &self.items[i]
    }

    /// Binary search: whether `key` is stored, and its rank among the keys.
    pub fn search(&self, key: &str) -> (r: (bool, usize))
        requires
            self.wf(),
        ensures
            r.0 == self@.contains(key@),
            r.1 == rank(self@, key@),
            r.1 <= self@.len(),
            r.0 ==> r.1 < self@.len() && self@[r.1 as int] == key@,
    {
        let ghost s = self@;
        let mut lo: usize = 0;
        let mut hi: usize = self.items.len();
        while lo < hi
            invariant
                s == self@,
                ascending(s),
                self.items@.len() == s.len(),
                lo <= hi <= s.len(),
                forall|i: int| 0 <= i < lo ==> key_lt(#[trigger] s[i], key@),
                forall|i: int| hi <= i < s.len() ==> key_lt(key@, #[trigger] s[i]),
            decreases hi - lo,
        {
            let mid: usize = lo + (hi - lo) / 2;
            let stored: &str = self.items[mid];
            assert(stored@ == s[mid as int]);
            match key_rank(stored, key) {
                Rank::Same => {
                    proof {
                        assert forall|i: int| mid <= i < s.len() implies !key_lt(
                            #[trigger] s[i],
                            key@,
                        ) by {
                            if i > mid {
                                lemma_key_lt_asymmetric(s[mid as int], s[i]);
                            } else {
                                lemma_key_lt_irreflexive(key@);
                            }
                        }
                        assert forall|i: int| 0 <= i < mid implies key_lt(#[trigger] s[i], key@) by {
                            assert(key_lt(s[i], s[mid as int]));
                        }
                        lemma_rank_is_split(s, key@, mid as int);
                    }
                    return (true, mid);
                },
                Rank::Before => {
                    proof {
                        assert forall|i: int| 0 <= i < mid + 1 implies key_lt(
                            #[trigger] s[i],
                            key@,
                        ) by {
                            if i < mid {
                                lemma_key_lt_transitive(s[i], s[mid as int], key@);
                            }
                        }
                    }
                    lo = mid + 1;
                },
                Rank::After => {
                    proof {
                        assert forall|i: int| mid <= i < s.len() implies key_lt(
                            key@,
                            #[trigger] s[i],
                        ) by {
                            if i > mid {
                                lemma_key_lt_transitive(key@, s[mid as int], s[i]);
                            }
                        }
                    }
                    hi = mid;
                },
            }
        }
        proof {
            assert forall|i: int| lo <= i < s.len() implies !key_lt(#[trigger] s[i], key@) by {
                lemma_key_lt_asymmetric(key@, s[i]);
            }
            lemma_rank_is_split(s, key@, lo as int);
            if s.contains(key@) {
                let i = choose|i: int| 0 <= i < s.len() && s[i] == key@;
                lemma_key_lt_irreflexive(key@);
            }
        }
        (false, lo)
    }

    /// Whether `key` is stored.
    pub fn contains(&self, key: &str) -> (r: bool)
        requires
            self.wf(),
        ensures
            r == self@.contains(key@),
    {
        self.search(key).0
    }

    /// The stored key that equals `key`, if there is one.
    pub fn get(&self, key: &str) -> (r: Option<&'a str>)
        requires
            self.wf(),
        ensures
            r is Some <==> self@.contains(key@),
            r is Some ==> r->0@ == key@,
    {
        let (found, at) = self.search(key);
        if found {
            Some(self.items[at])
        } else {
            None
        }
    }

    /// Stores `key` in its place, unless it is stored already; says whether
    /// it was new.
    pub fn insert(&mut self, key: &'a str) -> (fresh: bool)
        requires
            old(self).wf(),
        ensures
            final(self).wf(),
            final(self)@ == with_key(old(self)@, key@),
            fresh == !old(self)@.contains(key@),
    {
        let (found, at) = self.search(key);
        if found {
            return false;
        }
        let ghost s = self@;
        self.items.insert(at, key);
        proof {
            assert(self@ =~= s.insert(at as int, key@));
            lemma_with_key_ascending(s, key@);
        }
        true
    }
}

} // verus!
