//! The probabilistic membership filter: `bloomfilter::Bloom<str>`, with the
//! contracts that the rest of the library relies on. Nothing in this file is
//! proved; each contract restates what the filter's source shows.

use bloomfilter::Bloom;
use vstd::prelude::*;

verus! {

/// `bloomfilter::Bloom`, carried as an opaque value.
#[verifier::external_type_specification]
#[verifier::external_body]
#[verifier::reject_recursive_types(T)]
pub struct ExBloom<T: ?Sized>(Bloom<T>);

/// The keys to which the filter answers "possibly present": those for which
/// `Bloom::check` returns `true`.
pub uninterp spec fn filter_hits(filter: Bloom<str>) -> Set<Seq<char>>;

/// The filter addresses at least one bit, and every bit that it addresses
/// lies inside its bit vector. `Bloom::set` and `Bloom::check` panic on a
/// filter of which this does not hold.
pub uninterp spec fn filter_ready(filter: Bloom<str>) -> bool;

/// The number of bits that the filter addresses: what `Bloom::number_of_bits`
/// returns.
pub uninterp spec fn filter_bits(filter: Bloom<str>) -> nat;

/// Whether a filter of `bitmap_size` bytes for `items_count` keys can be
/// built: both are positive, and the number of bits fits in `usize`.
pub open spec fn filter_sizable(bitmap_size: usize, items_count: usize) -> bool {
    &&& bitmap_size > 0
    &&& items_count > 0
    &&& bitmap_size * 8 <= usize::MAX
}

/// `Bloom::new_with_seed`: a filter of `bitmap_size` bytes, sized for
/// `items_count` keys, whose two hash functions are keyed by `seed`. It
/// panics unless both sizes are positive and the bit count fits in `usize`.
/// The filter it returns addresses `8 * bitmap_size` bits, which is the
/// length of its bit vector: it is ready to be asked.
#[verifier::external_body]
pub(crate) fn filter_new(bitmap_size: usize, items_count: usize, seed: &[u8; 32]) -> (filter: Bloom<str>)
    requires
        filter_sizable(bitmap_size, items_count),
    ensures
        filter_ready(filter),
        filter_bits(filter) == 8 * bitmap_size,
{
    Bloom::new_with_seed(bitmap_size, items_count, seed)
}

/// `Bloom::set`: records `key`. Bits are only ever switched on, and their
/// number stays: the key is answered "possibly present" afterwards, and so is
/// every key that was before.
#[verifier::external_body]
pub(crate) fn filter_set(filter: &mut Bloom<str>, key: &str)
    requires
        filter_ready(*old(filter)),
    ensures
        filter_ready(*final(filter)),
        filter_bits(*final(filter)) == filter_bits(*old(filter)),
        filter_hits(*final(filter)).contains(key@),
        filter_hits(*old(filter)).subset_of(filter_hits(*final(filter))),
{
    filter.set(key)
}

/// `Bloom::check`: whether the filter answers "possibly present" for `key`.
#[verifier::external_body]
pub(crate) fn filter_check(filter: &Bloom<str>, key: &str) -> (hit: bool)
    requires
        filter_ready(*filter),
    ensures
        hit == filter_hits(*filter).contains(key@),
{
    filter.check(key)
}

} // verus!
