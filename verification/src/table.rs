//! A table of values under integer ids that remembers the order in which the
//! ids first came.
//!
//! The values stand in a vector, in that order; a concurrent hash map finds the
//! position of an id. Nothing ever leaves a table.

use crate::index::{index_get, index_insert, index_new, slots};
use dashmap::DashMap;
use vstd::prelude::*;

verus! {

/// A table of values of type `V` under ids.
#[derive(Debug)]
pub struct Table<V> {
    index: DashMap<i64, usize>,
    ids: Vec<i64>,
    values: Vec<V>,
}

impl<V> Table<V> {
    /// The index and the two vectors agree: position `i` holds the value of
    /// the id at position `i`, and the index sends that id to `i`.
    pub closed spec fn wf(&self) -> bool {
        &&& self.ids.len() == self.values.len()
        &&& forall|id: i64| #[trigger]
            slots(self.index).contains_key(id) ==> {
                &&& slots(self.index)[id] < self.ids.len()
                &&& self.ids[slots(self.index)[id] as int] == id
            }
        &&& forall|i: int|
            0 <= i < self.ids.len() ==> {
                &&& slots(self.index).contains_key(#[trigger] self.ids[i])
                &&& slots(self.index)[self.ids[i]] == i
            }
    }

    /// The ids of the table, in the order in which they first came.
    pub closed spec fn ids(&self) -> Seq<i64> {
        self.ids@
    }

    /// The values of the table, each at the position of its id in `ids`.
    pub closed spec fn values(&self) -> Seq<V> {
        self.values@
    }

    /// The table as a map from id to value.
    pub open spec fn entries(&self) -> Map<i64, V> {
        Map::new(
            |id: i64| self.ids().contains(id),
            |id: i64| self.values()[self.ids().index_of(id)],
        )
    }

    /// In a well-formed table no id stands twice, and there are as many values
    /// as ids.
    pub proof fn lemma_ids_distinct(&self)
        requires
            self.wf(),
        ensures
            self.ids().no_duplicates(),
            self.ids().len() == self.values().len(),
            forall|i: int|
                0 <= i < self.ids().len() ==> self.ids().index_of(#[trigger] self.ids()[i]) == i,
    {
        assert forall|i: int, j: int|
            0 <= i < self.ids().len() && 0 <= j < self.ids().len() && i != j implies self.ids()[i]
            != self.ids()[j] by {
            assert(slots(self.index)[self.ids[i]] == i);
            assert(slots(self.index)[self.ids[j]] == j);
        }
        assert forall|i: int| 0 <= i < self.ids().len() implies self.ids().index_of(
            #[trigger] self.ids()[i],
        ) == i by {
            let id = self.ids()[i];
            assert(self.ids().contains(id));
            let at = self.ids().index_of(id);
            assert(0 <= at < self.ids().len() && self.ids()[at] == id);
        }
    }

    /// A table that holds nothing.
    pub fn new() -> (table: Table<V>)
        ensures
            table.wf(),
            table.ids() == Seq::<i64>::empty(),
            table.values() == Seq::<V>::empty(),
    {
        Table { index: index_new(), ids: Vec::new(), values: Vec::new() }
    }

    /// How many ids the table holds.
    pub fn len(&self) -> (n: usize)
        requires
            self.wf(),
        ensures
            n == self.ids().len(),
    {
        self.ids.len()
    }

    /// The position of `id`, if the table holds it.
    pub fn position(&self, id: i64) -> (found: Option<usize>)
        requires
            self.wf(),
        ensures
            found.is_some() == self.ids().contains(id),
            found matches Some(at) ==> at < self.ids().len() && self.ids()[at as int] == id,
    {
        let found = index_get(&self.index, id);
        proof {
            if self.ids().contains(id) {
                let at = self.ids().index_of(id);
                assert(slots(self.index).contains_key(self.ids[at]));
            }
        }
        found
    }

    /// The id at a position.
    pub fn id_at(&self, at: usize) -> (id: i64)
        requires
            self.wf(),
            at < self.ids().len(),
        ensures
            id == self.ids()[at as int],
    {
        self.ids[at]
    }

    /// The value at a position.
    pub fn value_at(&self, at: usize) -> (value: &V)
        requires
            self.wf(),
            at < self.ids().len(),
        ensures
            *value == self.values()[at as int],
    {
        &self.values[at]
    }

    /// The value at a position, to be changed in place.
    pub fn value_at_mut(&mut self, at: usize) -> (value: &mut V)
        requires
            old(self).wf(),
            at < old(self).ids().len(),
        ensures
            *value == old(self).values()[at as int],
            final(self).wf(),
            final(self).ids() == old(self).ids(),
            final(self).values() == old(self).values().update(at as int, *final(value)),
    {
        &mut self.values[at]
    }

    /// The value under `id`, if the table holds it.
    pub fn get(&self, id: i64) -> (found: Option<&V>)
        requires
            self.wf(),
        ensures
            found.is_some() == self.ids().contains(id),
            found matches Some(value) ==> *value == self.entries()[id],
    {
        match self.position(id) {
            Some(at) => {
                proof {
                    self.lemma_ids_distinct();
                }
                Some(&self.values[at])
            },
            None => None,
        }
    }

    /// Puts `value` under `id`. A new id goes to the end of the order; the
    /// value of an id that the table holds already is replaced in its place.
    pub fn insert(&mut self, id: i64, value: V)
        requires
            old(self).wf(),
        ensures
            final(self).wf(),
            old(self).ids().contains(id) ==> {
                &&& final(self).ids() == old(self).ids()
                &&& final(self).values() == old(self).values().update(
                    old(self).ids().index_of(id),
                    value,
                )
            },
            !old(self).ids().contains(id) ==> {
                &&& final(self).ids() == old(self).ids().push(id)
                &&& final(self).values() == old(self).values().push(value)
            },
    {
        match self.position(id) {
            Some(at) => {
                proof {
                    self.lemma_ids_distinct();
                }
                self.values[at] = value;
            },
            None => {
                let at = self.ids.len();
                let _ = index_insert(&mut self.index, id, at);
                self.ids.push(id);
                self.values.push(value);
                assert forall|other: i64| #[trigger]
                    slots(self.index).contains_key(other) implies {
                    &&& slots(self.index)[other] < self.ids.len()
                    &&& self.ids[slots(self.index)[other] as int] == other
                } by {
                    if other != id {
                        assert(slots(old(self).index).contains_key(other));
                    }
                }
                assert forall|i: int| 0 <= i < self.ids.len() implies {
                    &&& slots(self.index).contains_key(#[trigger] self.ids[i])
                    &&& slots(self.index)[self.ids[i]] == i
                } by {
                    if i < at {
                        assert(self.ids[i] == old(self).ids[i]);
                        assert(slots(old(self).index).contains_key(old(self).ids[i]));
                    }
                }
            },
        }
    }
}

} // verus!
