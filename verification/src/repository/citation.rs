//! The reference repository: upsert semantics over identifier-keyed
//! reference records.

use vstd::prelude::*;

use crate::reference::ReferenceLike;
use crate::repository::store::RecordStore;

verus! {

/// What a reference repository offers.
pub trait ReferenceRepositoryLike {
    /// The stored record type.
    type Reference;

    fn get(&mut self, id: u128) -> Option<Self::Reference>;

    fn upsert(&mut self, id: u128, reference: Self::Reference) -> bool;

    fn delete(&mut self, id: u128) -> bool;

    fn list(&mut self) -> Vec<(u128, Self::Reference)>;
}

/// An in-memory reference repository.
pub struct HashMapRepository {
    store: RecordStore,
}

impl HashMapRepository {
    pub closed spec fn spec_map(&self) -> Map<u128, Seq<char>> {
        self.store@
    }

    /// An empty repository.
    pub fn new() -> (r: HashMapRepository)
        ensures
            r.spec_map() == Map::<u128, Seq<char>>::empty(),
    {
        HashMapRepository { store: RecordStore::new() }
    }
}

impl Default for HashMapRepository {
    fn default() -> (r: HashMapRepository)
        ensures
            r.spec_map() == Map::<u128, Seq<char>>::empty(),
    {
        HashMapRepository::new()
    }
}

impl ReferenceRepositoryLike for HashMapRepository {
    type Reference = String;

    /// A copy of the record under this identifier, if any.
    fn get(&mut self, id: u128) -> (r: Option<String>)
        ensures
            final(self).spec_map() == old(self).spec_map(),
            match r {
                Some(v) => old(self).spec_map().contains_key(id) && old(self).spec_map()[id]
                    == v@,
                None => !old(self).spec_map().contains_key(id),
            },
    {
        self.store.lookup(id)
    }

    /// Store a record, overwriting any previous one; reports whether a
    /// previous record existed.
    fn upsert(&mut self, id: u128, reference: String) -> (existed: bool)
        ensures
            final(self).spec_map() == old(self).spec_map().insert(id, reference@),
            existed == old(self).spec_map().contains_key(id),
    {
        self.store.put(id, reference)
    }

    /// Remove a record; reports whether one existed.
    fn delete(&mut self, id: u128) -> (existed: bool)
        ensures
            final(self).spec_map() == old(self).spec_map().remove(id),
            existed == old(self).spec_map().contains_key(id),
    {
        self.store.remove(id)
    }

    /// Every record, in insertion order.
    fn list(&mut self) -> (r: Vec<(u128, String)>)
        ensures
            final(self).spec_map() == old(self).spec_map(),
            forall|w: int|
                0 <= w < r@.len() ==> old(self).spec_map().contains_key((#[trigger] r@[w]).0)
                    && old(self).spec_map()[r@[w].0] == r@[w].1@,
    {
        let out = self.store.list();
        proof {
            use_type_invariant(&self.store);
            assert forall|w: int|
                0 <= w < out@.len() implies self.spec_map().contains_key((#[trigger] out@[w]).0)
                && self.spec_map()[out@[w].0] == out@[w].1@ by {
                assert(self.store.spec_entries()[w] == (out@[w].0, out@[w].1@));
                crate::repository::store::lemma_store_entry(&self.store, w);
            }
        }
        out
    }
}

} // verus!
