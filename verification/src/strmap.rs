//! An insertion-ordered mapping from strings to strings, used by the passes
//! for their identifier-to-content output artifacts.

use vstd::prelude::*;

verus! {

/// What a list of entries means as a mapping: later entries win.
pub open spec fn entries_as_map(s: Seq<(Seq<char>, Seq<char>)>) -> Map<Seq<char>, Seq<char>>
    decreases s.len(),
{
    if s.len() == 0 {
        Map::empty()
    } else {
        entries_as_map(s.drop_last()).insert(s.last().0, s.last().1)
    }
}

/// A mapping from identifier strings to content strings, in insertion
/// order, with each key held at most once.
#[derive(Debug)]
pub struct StringMap {
    entries: Vec<(String, String)>,
}

impl View for StringMap {
    type V = Map<Seq<char>, Seq<char>>;

    closed spec fn view(&self) -> Map<Seq<char>, Seq<char>> {
        entries_as_map(self.entries@.map_values(|e: (String, String)| (e.0@, e.1@)))
    }
}

impl StringMap {
    pub closed spec fn spec_entries(&self) -> Seq<(Seq<char>, Seq<char>)> {
        self.entries@.map_values(|e: (String, String)| (e.0@, e.1@))
    }

    /// Each key occurs at most once.
    #[verifier::type_invariant]
    pub closed spec fn wf(&self) -> bool {
        forall|i: int, j: int|
            0 <= i < j < self.spec_entries().len() ==> (#[trigger] self.spec_entries()[i]).0 != (
            #[trigger] self.spec_entries()[j]).0
    }

    /// The empty mapping.
    pub fn new() -> (m: StringMap)
        ensures
            m@ == Map::<Seq<char>, Seq<char>>::empty(),
            m.spec_entries().len() == 0,
    {
        let m = StringMap { entries: Vec::new() };
        proof {
            assert(m.spec_entries() =~= Seq::<(Seq<char>, Seq<char>)>::empty());
        }
        m
    }

    /// The number of entries held.
    pub fn len(&self) -> (n: usize)
        ensures
            n == self.spec_entries().len(),
            n == self@.dom().len(),
    {
        proof {
            use_type_invariant(self);
            lemma_entries_map_len(self.spec_entries());
        }
        self.entries.len()
    }

    /// Is the mapping empty?
    pub fn is_empty(&self) -> (r: bool)
        ensures
            r == (self.spec_entries().len() == 0),
            r == (self@.dom().len() == 0),
    {
        self.len() == 0
    }

    /// Look a key up.
    pub fn get(&self, key: &str) -> (r: Option<&String>)
        ensures
            match r {
                Some(v) => self@.contains_key(key@) && self@[key@] == v@,
                None => !self@.contains_key(key@),
            },
    {
        proof {
            use_type_invariant(self);
        }
        let n = self.entries.len();
        let mut i: usize = 0;
        while i < n
            invariant
                i <= n,
                self.wf(),
                n == self.spec_entries().len(),
                forall|w: int| 0 <= w < i ==> (#[trigger] self.spec_entries()[w]).0 != key@,
            decreases n - i,
        {
            if crate::text::str_eq(self.entries[i].0.as_str(), key) {
                proof {
                    lemma_entries_map_get(self.spec_entries(), i as int);
                }
                return Some(&self.entries[i].1);
            }
            i = i + 1;
        }
        proof {
            lemma_entries_map_absent(self.spec_entries(), key@);
        }
        None
    }

    /// Insert a value for a key: a new entry, or an overwrite in place.
    pub fn insert(&mut self, key: String, value: String)
        ensures
            final(self)@ == old(self)@.insert(key@, value@),
    {
        proof {
            use_type_invariant(&*self);
        }
        let ghost olde = self.spec_entries();
        let mut es: Vec<(String, String)> = Vec::new();
        core::mem::swap(&mut es, &mut self.entries);
        let n = es.len();
        let mut i: usize = 0;
        let mut done = false;
        while i < n && !done
            invariant
                i <= n,
                n == es@.len(),
                !done ==> es@.map_values(|e: (String, String)| (e.0@, e.1@)) == olde,
                !done ==> forall|w: int| 0 <= w < i ==> (#[trigger] olde[w]).0 != key@,
                done ==> i < n && olde[i as int].0 == key@ && es@.map_values(
                    |e: (String, String)| (e.0@, e.1@),
                ) == olde.update(i as int, (olde[i as int].0, value@)),
                forall|a: int, b: int|
                    0 <= a < b < olde.len() ==> (#[trigger] olde[a]).0 != (#[trigger] olde[b]).0,
            decreases n - i + (if done {
                0int
            } else {
                1int
            }),
        {
            if crate::text::str_eq(es[i].0.as_str(), key.as_str()) {
                let nm = es[i].0.clone();
                es[i] = (nm, value.clone());
                proof {
                    assert(es@.map_values(|e: (String, String)| (e.0@, e.1@)) =~= olde.update(
                        i as int,
                        (olde[i as int].0, value@),
                    ));
                }
                done = true;
            } else {
                i = i + 1;
            }
        }
        if !done {
            es.push((key, value));
            proof {
                assert(es@.map_values(|e: (String, String)| (e.0@, e.1@)) =~= olde.push(
                    (key@, value@),
                ));
            }
        }
        core::mem::swap(&mut es, &mut self.entries);
        proof {
            if done {
                let w = choose|w: int|
                    0 <= w < n && olde[w].0 == key@ && self.spec_entries() == olde.update(
                        w,
                        (olde[w].0, value@),
                    ) && (forall|u: int| 0 <= u < w ==> (#[trigger] olde[u]).0 != key@);
                assert(olde[w].0 == key@);
                lemma_entries_map_update(olde, w, value@);
                assert(entries_as_map(olde).insert(olde[w].0, value@) =~= entries_as_map(
                    olde,
                ).insert(key@, value@));
            } else {
                assert(self.spec_entries().drop_last() =~= olde);
            }
        }
    }

    /// Append text to a key's value, starting from empty when absent.
    pub fn append_value(&mut self, key: String, value: &str)
        ensures
            final(self)@ == old(self)@.insert(
                key@,
                (if old(self)@.contains_key(key@) {
                    old(self)@[key@]
                } else {
                    Seq::<char>::empty()
                }) + value@,
            ),
    {
        let prior: String = match self.get(key.as_str()) {
            Some(v) => v.clone(),
            None => String::new(),
        };
        let combined = prior.concat(value);
        self.insert(key, combined);
    }

    /// The entries in insertion order, for rendering or iteration.
    pub fn entries(&self) -> (r: &Vec<(String, String)>)
        ensures
            r@.map_values(|e: (String, String)| (e.0@, e.1@)) == self.spec_entries(),
    {
        &self.entries
    }
}

/// With distinct keys, the map holds exactly the entry list's pairs.
proof fn lemma_entries_map_get(s: Seq<(Seq<char>, Seq<char>)>, i: int)
    requires
        0 <= i < s.len(),
        forall|a: int, b: int| 0 <= a < b < s.len() ==> (#[trigger] s[a]).0 != (#[trigger] s[b]).0,
    ensures
        entries_as_map(s).contains_key(s[i].0),
        entries_as_map(s)[s[i].0] == s[i].1,
    decreases s.len(),
{
    if i == s.len() - 1 {
    } else {
        lemma_entries_map_get(s.drop_last(), i);
        assert(s.drop_last()[i] == s[i]);
        assert(s[i].0 != s.last().0);
    }
}

/// A key on no entry is not in the map.
proof fn lemma_entries_map_absent(s: Seq<(Seq<char>, Seq<char>)>, k: Seq<char>)
    requires
        forall|w: int| 0 <= w < s.len() ==> (#[trigger] s[w]).0 != k,
    ensures
        !entries_as_map(s).contains_key(k),
    decreases s.len(),
{
    if s.len() > 0 {
        lemma_entries_map_absent(s.drop_last(), k);
    }
}

/// Overwriting an entry's value in place is inserting over its key.
proof fn lemma_entries_map_update(s: Seq<(Seq<char>, Seq<char>)>, i: int, v: Seq<char>)
    requires
        0 <= i < s.len(),
        forall|a: int, b: int| 0 <= a < b < s.len() ==> (#[trigger] s[a]).0 != (#[trigger] s[b]).0,
    ensures
        entries_as_map(s.update(i, (s[i].0, v))) == entries_as_map(s).insert(s[i].0, v),
    decreases s.len(),
{
    let s2 = s.update(i, (s[i].0, v));
    if i == s.len() - 1 {
        assert(s2.drop_last() =~= s.drop_last());
        assert(s2.last() == (s[i].0, v));
        assert(entries_as_map(s2) =~= entries_as_map(s).insert(s[i].0, v));
    } else {
        assert(s2.drop_last() =~= s.drop_last().update(i, (s[i].0, v)));
        assert(s.drop_last()[i] == s[i]);
        lemma_entries_map_update(s.drop_last(), i, v);
        assert(s2.last() == s.last());
        assert(s[i].0 != s.last().0);
        assert(entries_as_map(s.drop_last()).insert(s[i].0, v).insert(s.last().0, s.last().1)
            =~= entries_as_map(s.drop_last()).insert(s.last().0, s.last().1).insert(s[i].0, v));
        assert(entries_as_map(s2) =~= entries_as_map(s).insert(s[i].0, v));
    }
}

/// With distinct keys, the map's domain has one key per entry.
proof fn lemma_entries_map_len(s: Seq<(Seq<char>, Seq<char>)>)
    requires
        forall|a: int, b: int| 0 <= a < b < s.len() ==> (#[trigger] s[a]).0 != (#[trigger] s[b]).0,
    ensures
        entries_as_map(s).dom().finite(),
        entries_as_map(s).dom().len() == s.len(),
    decreases s.len(),
{
    if s.len() == 0 {
        assert(entries_as_map(s).dom() =~= Set::<Seq<char>>::empty());
    } else {
        lemma_entries_map_len(s.drop_last());
        lemma_entries_map_absent(s.drop_last(), s.last().0);
        assert(entries_as_map(s).dom() =~= entries_as_map(s.drop_last()).dom().insert(s.last().0));
    }
}

} // verus!
