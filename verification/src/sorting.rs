//! Sorting a scoreboard from the best entry to the worst.

use rayon::slice::ParallelSliceMut;
use vstd::prelude::*;

verus! {

/// The key by which the entries of a scoreboard are sorted. It falls as the
/// score rises, and no score is out of its range.
pub open spec fn rank_key(entry: (i64, i64)) -> int {
    -1 - entry.1
}

/// The entries stand in ascending order of their rank keys.
pub open spec fn sorted_by_rank_key(entries: Seq<(i64, i64)>) -> bool {
    forall|i: int, j: int|
        0 <= i < j < entries.len() ==> rank_key(#[trigger] entries[i]) <= rank_key(
            #[trigger] entries[j],
        )
}

/// The scores never rise from one entry to the next.
pub open spec fn descending(entries: Seq<(i64, i64)>) -> bool {
    forall|i: int, j: int|
        0 <= i < j < entries.len() ==> (#[trigger] entries[i]).1 >= (#[trigger] entries[j]).1
}

/// Computes the rank key of an entry.
pub fn rank_key_of(entry: &(i64, i64)) -> (key: i64)
    ensures
        key == rank_key(*entry),
{
    -1 - entry.1
}

/// `rayon`'s `par_sort_unstable_by_key` on a slice, with `rank_key_of` as the
/// key function: afterwards the vector holds the entries it held before, each
/// as often as before, in ascending order of their keys. Which of two entries
/// with one key comes first is left open.
#[verifier::external_body]
pub(crate) fn sort_by_rank_key(entries: &mut Vec<(i64, i64)>)
    ensures
        final(entries)@.to_multiset() == old(entries)@.to_multiset(),
        sorted_by_rank_key(final(entries)@),
{
    entries.par_sort_unstable_by_key(|entry| rank_key_of(entry));
}

/// Sorts a scoreboard by score, the highest first.
pub fn sort_descending(entries: &mut Vec<(i64, i64)>)
    ensures
        final(entries)@.to_multiset() == old(entries)@.to_multiset(),
        final(entries)@.len() == old(entries)@.len(),
        descending(final(entries)@),
{
    sort_by_rank_key(entries);
    proof {
        old(entries)@.to_multiset_ensures();
        entries@.to_multiset_ensures();
    }
}

} // verus!
