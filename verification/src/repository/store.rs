//! The shared backing store: an insertion-ordered mapping from 128-bit
//! identifiers to text records.

use vstd::prelude::*;

verus! {

/// What a list of entries means as a mapping: later entries win.
pub open spec fn records_as_map(s: Seq<(u128, Seq<char>)>) -> Map<u128, Seq<char>>
    decreases s.len(),
{
    if s.len() == 0 {
        Map::empty()
    } else {
        records_as_map(s.drop_last()).insert(s.last().0, s.last().1)
    }
}

/// An insertion-ordered identifier-to-record store with unique keys.
pub struct RecordStore {
    entries: Vec<(u128, String)>,
}

impl View for RecordStore {
    type V = Map<u128, Seq<char>>;

    closed spec fn view(&self) -> Map<u128, Seq<char>> {
        records_as_map(self.spec_entries())
    }
}

impl RecordStore {
    pub closed spec fn spec_entries(&self) -> Seq<(u128, Seq<char>)> {
        self.entries@.map_values(|e: (u128, String)| (e.0, e.1@))
    }

    /// Each identifier occurs at most once.
    #[verifier::type_invariant]
    pub closed spec fn wf(&self) -> bool {
        forall|i: int, j: int|
            0 <= i < j < self.spec_entries().len() ==> (#[trigger] self.spec_entries()[i]).0 != (
            #[trigger] self.spec_entries()[j]).0
    }

    /// The empty store.
    pub fn new() -> (m: RecordStore)
        ensures
            m@ == Map::<u128, Seq<char>>::empty(),
            m.spec_entries().len() == 0,
    {
        let m = RecordStore { entries: Vec::new() };
        proof {
            assert(m.spec_entries() =~= Seq::<(u128, Seq<char>)>::empty());
        }
        m
    }

    /// Look an identifier up and hand back a copy of its record.
    pub fn lookup(&self, key: u128) -> (r: Option<String>)
        ensures
            match r {
                Some(v) => self@.contains_key(key) && self@[key] == v@,
                None => !self@.contains_key(key),
            },
    {
        proof {
            use_type_invariant(self);
        }
        let n = self.entries.len();
        let mut i: usize = 0;
        while i < n
            invariant
                i <= n,
                self.wf(),
                n == self.spec_entries().len(),
                forall|w: int| 0 <= w < i ==> (#[trigger] self.spec_entries()[w]).0 != key,
            decreases n - i,
        {
            if self.entries[i].0 == key {
                proof {
                    lemma_records_map_get(self.spec_entries(), i as int);
                }
                return Some(self.entries[i].1.clone());
            }
            i = i + 1;
        }
        proof {
            lemma_records_map_absent(self.spec_entries(), key);
        }
        None
    }

    /// Store a record under an identifier, overwriting any previous one;
    /// reports whether a previous record existed.
    pub fn put(&mut self, key: u128, value: String) -> (existed: bool)
        ensures
            final(self)@ == old(self)@.insert(key, value@),
            existed == old(self)@.contains_key(key),
    {
        proof {
            use_type_invariant(&*self);
        }
        let ghost olde = self.spec_entries();
        let mut es: Vec<(u128, String)> = Vec::new();
        core::mem::swap(&mut es, &mut self.entries);
        let n = es.len();
        let mut i: usize = 0;
        let mut done = false;
        while i < n && !done
            invariant
                i <= n,
                n == es@.len(),
                !done ==> es@.map_values(|e: (u128, String)| (e.0, e.1@)) == olde,
                !done ==> forall|w: int| 0 <= w < i ==> (#[trigger] olde[w]).0 != key,
                done ==> i < n && olde[i as int].0 == key && es@.map_values(
                    |e: (u128, String)| (e.0, e.1@),
                ) == olde.update(i as int, (key, value@)),
                forall|a: int, b: int|
                    0 <= a < b < olde.len() ==> (#[trigger] olde[a]).0 != (#[trigger] olde[b]).0,
            decreases n - i + (if done {
                0int
            } else {
                1int
            }),
        {
            if es[i].0 == key {
                es[i] = (key, value.clone());
                proof {
                    assert(es@.map_values(|e: (u128, String)| (e.0, e.1@)) =~= olde.update(
                        i as int,
                        (key, value@),
                    ));
                }
                done = true;
            } else {
                i = i + 1;
            }
        }
        if !done {
            es.push((key, value));
            proof {
                assert(es@.map_values(|e: (u128, String)| (e.0, e.1@)) =~= olde.push(
                    (key, value@),
                ));
            }
        }
        core::mem::swap(&mut es, &mut self.entries);
        proof {
            if done {
                let w = choose|w: int|
                    0 <= w < n && olde[w].0 == key && self.spec_entries() == olde.update(
                        w,
                        (key, value@),
                    ) && (forall|u: int| 0 <= u < w ==> (#[trigger] olde[u]).0 != key);
                lemma_records_map_update(olde, w, value@);
                lemma_records_map_get(olde, w);
            } else {
                assert(self.spec_entries().drop_last() =~= olde);
                lemma_records_map_absent(olde, key);
            }
        }
        done
    }

    /// Remove an identifier's record; reports whether one existed.
    pub fn remove(&mut self, key: u128) -> (existed: bool)
        ensures
            final(self)@ == old(self)@.remove(key),
            existed == old(self)@.contains_key(key),
    {
        proof {
            use_type_invariant(&*self);
        }
        let ghost olde = self.spec_entries();
        let mut es: Vec<(u128, String)> = Vec::new();
        core::mem::swap(&mut es, &mut self.entries);
        let n = es.len();
        let mut i: usize = 0;
        let mut found = false;
        while i < n && !found
            invariant
                i <= n,
                !found ==> n == es@.len(),
                found ==> n == es@.len() + 1,
                !found ==> es@.map_values(|e: (u128, String)| (e.0, e.1@)) == olde,
                !found ==> forall|w: int| 0 <= w < i ==> (#[trigger] olde[w]).0 != key,
                found ==> i < n && olde[i as int].0 == key && es@.map_values(
                    |e: (u128, String)| (e.0, e.1@),
                ) == olde.remove(i as int) && (forall|w: int|
                    0 <= w < i ==> (#[trigger] olde[w]).0 != key),
                forall|a: int, b: int|
                    0 <= a < b < olde.len() ==> (#[trigger] olde[a]).0 != (#[trigger] olde[b]).0,
            decreases n - i + (if found {
                0int
            } else {
                1int
            }),
        {
            if es[i].0 == key {
                es.remove(i);
                proof {
                    assert(es@.map_values(|e: (u128, String)| (e.0, e.1@)) =~= olde.remove(
                        i as int,
                    ));
                }
                found = true;
            } else {
                i = i + 1;
            }
        }
        core::mem::swap(&mut es, &mut self.entries);
        proof {
            if found {
                let w = choose|w: int|
                    0 <= w < n && olde[w].0 == key && self.spec_entries() == olde.remove(w) && (
                    forall|u: int| 0 <= u < w ==> (#[trigger] olde[u]).0 != key);
                lemma_records_map_remove(olde, w);
                lemma_records_map_get(olde, w);
            } else {
                assert(self.spec_entries() == olde);
                lemma_records_map_absent(olde, key);
                assert(records_as_map(olde).remove(key) =~= records_as_map(olde));
            }
        }
        found
    }

    /// Every record, in insertion order.
    pub fn list(&self) -> (r: Vec<(u128, String)>)
        ensures
            r@.map_values(|e: (u128, String)| (e.0, e.1@)) == self.spec_entries(),
            forall|k: u128| self@.contains_key(k) <==> exists|w: int|
                0 <= w < r@.len() && (#[trigger] r@[w]).0 == k,
    {
        proof {
            use_type_invariant(self);
        }
        let n = self.entries.len();
        let mut r: Vec<(u128, String)> = Vec::new();
        let mut i: usize = 0;
        while i < n
            invariant
                i <= n,
                n == self.spec_entries().len(),
                r@.len() == i,
                forall|w: int|
                    0 <= w < i ==> (#[trigger] r@[w]).0 == self.spec_entries()[w].0 && r@[w].1@
                        == self.spec_entries()[w].1,
            decreases n - i,
        {
            r.push((self.entries[i].0, self.entries[i].1.clone()));
            i = i + 1;
        }
        proof {
            assert(r@.map_values(|e: (u128, String)| (e.0, e.1@)) =~= self.spec_entries());
            assert forall|k: u128| self@.contains_key(k) implies exists|w: int|
                0 <= w < r@.len() && (#[trigger] r@[w]).0 == k by {
                lemma_records_map_domain(self.spec_entries(), k);
                let w = choose|w: int|
                    0 <= w < self.spec_entries().len() && self.spec_entries()[w].0 == k;
                assert(r@[w].0 == k);
            }
            assert forall|k: u128|
                (exists|w: int| 0 <= w < r@.len() && (#[trigger] r@[w]).0 == k)
                    implies self@.contains_key(k) by {
                let w = choose|w: int| 0 <= w < r@.len() && r@[w].0 == k;
                lemma_records_map_get(self.spec_entries(), w);
            }
        }
        r
    }
}

/// An entry of a store is in its mapping.
pub proof fn lemma_store_entry(s: &RecordStore, w: int)
    requires
        s.wf(),
        0 <= w < s.spec_entries().len(),
    ensures
        s@.contains_key(s.spec_entries()[w].0),
        s@[s.spec_entries()[w].0] == s.spec_entries()[w].1,
{
    lemma_records_map_get(s.spec_entries(), w);
}

/// With distinct keys, the map holds exactly the entry list's pairs.
proof fn lemma_records_map_get(s: Seq<(u128, Seq<char>)>, i: int)
    requires
        0 <= i < s.len(),
        forall|a: int, b: int| 0 <= a < b < s.len() ==> (#[trigger] s[a]).0 != (#[trigger] s[b]).0,
    ensures
        records_as_map(s).contains_key(s[i].0),
        records_as_map(s)[s[i].0] == s[i].1,
    decreases s.len(),
{
    if i == s.len() - 1 {
    } else {
        lemma_records_map_get(s.drop_last(), i);
        assert(s.drop_last()[i] == s[i]);
        assert(s[i].0 != s.last().0);
    }
}

/// A key on no entry is not in the map.
proof fn lemma_records_map_absent(s: Seq<(u128, Seq<char>)>, k: u128)
    requires
        forall|w: int| 0 <= w < s.len() ==> (#[trigger] s[w]).0 != k,
    ensures
        !records_as_map(s).contains_key(k),
    decreases s.len(),
{
    if s.len() > 0 {
        lemma_records_map_absent(s.drop_last(), k);
    }
}

/// Every key in the map names some entry.
proof fn lemma_records_map_domain(s: Seq<(u128, Seq<char>)>, k: u128)
    requires
        records_as_map(s).contains_key(k),
    ensures
        exists|w: int| 0 <= w < s.len() && (#[trigger] s[w]).0 == k,
    decreases s.len(),
{
    if s.len() > 0 {
        if s.last().0 == k {
            assert(s[s.len() - 1].0 == k);
        } else {
            lemma_records_map_domain(s.drop_last(), k);
            let w = choose|w: int| 0 <= w < s.drop_last().len() && s.drop_last()[w].0 == k;
            assert(s[w].0 == k);
        }
    }
}

/// Overwriting an entry's record in place is inserting over its key.
proof fn lemma_records_map_update(s: Seq<(u128, Seq<char>)>, i: int, v: Seq<char>)
    requires
        0 <= i < s.len(),
        forall|a: int, b: int| 0 <= a < b < s.len() ==> (#[trigger] s[a]).0 != (#[trigger] s[b]).0,
    ensures
        records_as_map(s.update(i, (s[i].0, v))) == records_as_map(s).insert(s[i].0, v),
    decreases s.len(),
{
    let s2 = s.update(i, (s[i].0, v));
    if i == s.len() - 1 {
        assert(s2.drop_last() =~= s.drop_last());
        assert(s2.last() == (s[i].0, v));
        assert(records_as_map(s2) =~= records_as_map(s).insert(s[i].0, v));
    } else {
        assert(s2.drop_last() =~= s.drop_last().update(i, (s[i].0, v)));
        assert(s.drop_last()[i] == s[i]);
        lemma_records_map_update(s.drop_last(), i, v);
        assert(s2.last() == s.last());
        assert(s[i].0 != s.last().0);
        assert(records_as_map(s.drop_last()).insert(s[i].0, v).insert(s.last().0, s.last().1)
            =~= records_as_map(s.drop_last()).insert(s.last().0, s.last().1).insert(s[i].0, v));
        assert(records_as_map(s2) =~= records_as_map(s).insert(s[i].0, v));
    }
}

/// Removing an entry removes its key.
proof fn lemma_records_map_remove(s: Seq<(u128, Seq<char>)>, i: int)
    requires
        0 <= i < s.len(),
        forall|a: int, b: int| 0 <= a < b < s.len() ==> (#[trigger] s[a]).0 != (#[trigger] s[b]).0,
    ensures
        records_as_map(s.remove(i)) == records_as_map(s).remove(s[i].0),
    decreases s.len(),
{
    let s2 = s.remove(i);
    if i == s.len() - 1 {
        assert(s2 =~= s.drop_last());
        assert(forall|w: int|
            0 <= w < s.drop_last().len() ==> (#[trigger] s.drop_last()[w]).0 != s[i].0) by {
            assert(forall|w: int|
                0 <= w < s.drop_last().len() ==> s.drop_last()[w] == #[trigger] s[w]);
        }
        lemma_records_map_absent(s.drop_last(), s[i].0);
        assert(records_as_map(s2) =~= records_as_map(s).remove(s[i].0));
    } else {
        assert(s2.drop_last() =~= s.drop_last().remove(i));
        assert(s.drop_last()[i] == s[i]);
        lemma_records_map_remove(s.drop_last(), i);
        assert(s2.last() == s.last());
        assert(s[i].0 != s.last().0);
        assert(records_as_map(s.drop_last()).remove(s[i].0).insert(s.last().0, s.last().1)
            =~= records_as_map(s.drop_last()).insert(s.last().0, s.last().1).remove(s[i].0));
        assert(records_as_map(s2) =~= records_as_map(s).remove(s[i].0));
    }
}

} // verus!
