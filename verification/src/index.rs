//! The concurrent hash map that finds the position of an id.

use dashmap::DashMap;
use vstd::prelude::*;

verus! {

/// `dashmap::DashMap`, the concurrent hash map. Nothing is known of what is
/// inside a value of it but what the functions below say.
#[verifier::external_type_specification]
#[verifier::external_body]
#[verifier::reject_recursive_types(K)]
#[verifier::reject_recursive_types(V)]
#[verifier::reject_recursive_types(S)]
pub struct ExDashMap<K, V, S>(DashMap<K, V, S>);

/// What an index holds: the slot recorded under each id.
pub uninterp spec fn slots(index: DashMap<i64, usize>) -> Map<i64, usize>;

/// `DashMap::new`: a map that holds nothing.
#[verifier::external_body]
pub(crate) fn index_new() -> (fresh: DashMap<i64, usize>)
    ensures
        forall|id: i64| !slots(fresh).contains_key(id),
{
    DashMap::new()
}

/// `DashMap::get`: the slot recorded under `id`, if there is one.
#[verifier::external_body]
pub(crate) fn index_get(index: &DashMap<i64, usize>, id: i64) -> (slot: Option<usize>)
    ensures
        slot == (if slots(*index).dom().contains(id) {
            Some(slots(*index)[id])
        } else {
            None
        }),
{
    index.get(&id).map(|entry| *entry)
}

/// `DashMap::insert`: records `slot` under `id` and hands back what was there before.
#[verifier::external_body]
pub(crate) fn index_insert(index: &mut DashMap<i64, usize>, id: i64, slot: usize) -> (previous:
    Option<usize>)
    ensures
        slots(*final(index)) == slots(*old(index)).insert(id, slot),
        previous == (if slots(*old(index)).dom().contains(id) {
            Some(slots(*old(index))[id])
        } else {
            None
        }),
{
    index.insert(id, slot)
}

} // verus!
