//! The rich-text repository: separate insert and update semantics over
//! identifier-keyed rich-text records.

use vstd::prelude::*;

use crate::repository::store::RecordStore;
use crate::rich_text::RichTextLike;

verus! {

/// What a rich-text repository offers.
pub trait RichTextRepositoryLike {
    /// The stored record type.
    type RichText;

    fn get(&mut self, id: u128) -> Option<Self::RichText>;

    fn insert(&mut self, id: u128, rich_text: Self::RichText) -> bool;

    fn update(&mut self, id: u128, rich_text: Self::RichText) -> bool;

    fn delete(&mut self, id: u128) -> bool;

    fn list(&mut self) -> Vec<(u128, Self::RichText)>;
}

/// An in-memory rich-text repository.
pub struct HashMapRepository {
    store: RecordStore,
}

impl HashMapRepository {
    pub closed spec fn spec_map(&self) -> Map<u128, Seq<char>> {
        self.store@
    }

    /// An empty repository.
    pub fn new() -> (r: HashMapRepository)
        ensures
            r.spec_map() == Map::<u128, Seq<char>>::empty(),
    {
        HashMapRepository { store: RecordStore::new() }
    }
}

impl Default for HashMapRepository {
    fn default() -> (r: HashMapRepository)
        ensures
            r.spec_map() == Map::<u128, Seq<char>>::empty(),
    {
        HashMapRepository::new()
    }
}

impl RichTextRepositoryLike for HashMapRepository {
    type RichText = String;

    /// A copy of the record under this identifier, if any.
    fn get(&mut self, id: u128) -> (r: Option<String>)
        ensures
            final(self).spec_map() == old(self).spec_map(),
            match r {
                Some(v) => old(self).spec_map().contains_key(id) && old(self).spec_map()[id]
                    == v@,
                None => !old(self).spec_map().contains_key(id),
            },
    {
        self.store.lookup(id)
    }

    /// Store a record only when the identifier is free; reports success.
    fn insert(&mut self, id: u128, rich_text: String) -> (fresh: bool)
        ensures
            fresh == !old(self).spec_map().contains_key(id),
            fresh ==> final(self).spec_map() == old(self).spec_map().insert(id, rich_text@),
            !fresh ==> final(self).spec_map() == old(self).spec_map(),
    {
        match self.store.lookup(id) {
            Some(_) => false,
            None => {
                let _ = self.store.put(id, rich_text);
                true
            },
        }
    }

    /// Replace an existing record only; reports success.
    fn update(&mut self, id: u128, rich_text: String) -> (existed: bool)
        ensures
            existed == old(self).spec_map().contains_key(id),
            existed ==> final(self).spec_map() == old(self).spec_map().insert(id, rich_text@),
            !existed ==> final(self).spec_map() == old(self).spec_map(),
    {
        match self.store.lookup(id) {
            Some(_) => {
                let _ = self.store.put(id, rich_text);
                true
            },
            None => false,
        }
    }

    /// Remove a record; reports whether one existed.
    fn delete(&mut self, id: u128) -> (existed: bool)
        ensures
            final(self).spec_map() == old(self).spec_map().remove(id),
            existed == old(self).spec_map().contains_key(id),
    {
        self.store.remove(id)
    }

    /// Every record, in insertion order.
    fn list(&mut self) -> (r: Vec<(u128, String)>)
        ensures
            final(self).spec_map() == old(self).spec_map(),
            forall|w: int|
                0 <= w < r@.len() ==> old(self).spec_map().contains_key((#[trigger] r@[w]).0)
                    && old(self).spec_map()[r@[w].0] == r@[w].1@,
    {
        let out = self.store.list();
        proof {
            use_type_invariant(&self.store);
            assert forall|w: int|
                0 <= w < out@.len() implies self.spec_map().contains_key((#[trigger] out@[w]).0)
                && self.spec_map()[out@[w].0] == out@[w].1@ by {
                assert(self.store.spec_entries()[w] == (out@[w].0, out@[w].1@));
                crate::repository::store::lemma_store_entry(&self.store, w);
            }
        }
        out
    }
}

} // verus!
