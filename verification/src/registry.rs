//! A map from names to values, kept as a vector of distinct names.

use vstd::prelude::*;
use crate::parser::str_eq;

verus! {

/// Values stored under text names; storing under a name that is already
/// present replaces its value.
#[derive(Debug)]
pub struct NameMap<V> {
    entries: Vec<(String, V)>,
}

impl<V> NameMap<V> {
    /// No name occurs twice.
    pub closed spec fn wf(&self) -> bool {
        forall|i: int, j: int|
            0 <= i < j < self.entries.len() ==> #[trigger] self.entries@[i].0@
                != #[trigger] self.entries@[j].0@
    }

    spec fn index_of(&self, k: Seq<char>) -> int {
        choose|i: int| 0 <= i < self.entries.len() && #[trigger] self.entries@[i].0@ == k
    }

    /// The stored values by name.
    pub closed spec fn map(&self) -> Map<Seq<char>, V> {
        Map::new(
            |k: Seq<char>| exists|i: int| 0 <= i < self.entries.len() && #[trigger] self.entries@[i].0@ == k,
            |k: Seq<char>| self.entries@[self.index_of(k)].1,
        )
    }

    proof fn lemma_at(&self, i: int)
        requires
            self.wf(),
            0 <= i < self.entries.len(),
        ensures
            self.map().dom().contains(self.entries@[i].0@),
            self.map()[self.entries@[i].0@] == self.entries@[i].1,
    {
        let k = self.entries@[i].0@;
        assert(self.entries@[i].0@ == k);
        let j = self.index_of(k);
        assert(0 <= j < self.entries.len() && self.entries@[j].0@ == k);
        if i != j {
            if i < j {
                assert(self.entries@[i].0@ != self.entries@[j].0@);
            } else {
                assert(self.entries@[j].0@ != self.entries@[i].0@);
            }
        }
    }

    /// The stored names, in the order they were first stored.
    pub closed spec fn keys(&self) -> Seq<Seq<char>> {
        Seq::new(self.entries@.len(), |i: int| self.entries@[i].0@)
    }

    /// The stored names are those of the map, each once.
    pub proof fn lemma_keys(&self)
        requires
            self.wf(),
        ensures
            self.keys().no_duplicates(),
            forall|k: Seq<char>| #[trigger]
                self.map().dom().contains(k) <==> self.keys().contains(k),
            forall|i: int|
                0 <= i < self.keys().len() ==> self.map().dom().contains(#[trigger] self.keys()[i]),
    {
        assert forall|k: Seq<char>| #[trigger]
            self.map().dom().contains(k) implies self.keys().contains(k) by {
            let i = self.index_of(k);
            assert(self.keys()[i] == k);
        }
        assert forall|k: Seq<char>| #[trigger]
            self.keys().contains(k) implies self.map().dom().contains(k) by {
            let i = choose|i: int| 0 <= i < self.keys().len() && self.keys()[i] == k;
            assert(self.entries@[i].0@ == k);
        }
        assert forall|i: int| 0 <= i < self.keys().len() implies self.map().dom().contains(
            #[trigger] self.keys()[i],
        ) by {
            assert(self.entries@[i].0@ == self.keys()[i]);
        }
        assert forall|i: int, j: int|
            0 <= i < self.keys().len() && 0 <= j < self.keys().len() && i != j implies self.keys()[i]
            != self.keys()[j] by {
            if i < j {
                assert(self.entries@[i].0@ != self.entries@[j].0@);
            } else {
                assert(self.entries@[j].0@ != self.entries@[i].0@);
            }
        }
    }

    /// The number of stored names.
    pub fn len(&self) -> (r: usize)
        ensures
            r == self.keys().len(),
    {
        self.entries.len()
    }

    /// The stored name at position `i`.
    pub fn key_at(&self, i: usize) -> (r: &str)
        requires
            i < self.keys().len(),
        ensures
            r@ == self.keys()[i as int],
    {
        self.entries[i].0.as_str()
    }

    /// The value stored under the name at position `i`.
    pub fn value_at(&self, i: usize) -> (r: &V)
        requires
            self.wf(),
            i < self.keys().len(),
        ensures
            self.map().dom().contains(self.keys()[i as int]),
            self.map()[self.keys()[i as int]] == *r,
    {
        proof {
            self.lemma_at(i as int);
        }
        &self.entries[i].1
    }

    pub fn new() -> (r: Self)
        ensures
            r.wf(),
            r.map() == Map::<Seq<char>, V>::empty(),
            r.keys() == Seq::<Seq<char>>::empty(),
    {
        let r = NameMap { entries: Vec::new() };
        assert(r.map() =~= Map::<Seq<char>, V>::empty());
        assert(r.keys() =~= Seq::<Seq<char>>::empty());
        r
    }

    /// The position of `key`, if stored.
    fn find(&self, key: &str) -> (r: Option<usize>)
        requires
            self.wf(),
        ensures
            match r {
                Some(i) => i < self.entries.len() && self.entries@[i as int].0@ == key@,
                None => !self.map().dom().contains(key@),
            },
    {
        let mut i: usize = 0;
        while i < self.entries.len()
            invariant
                i <= self.entries.len(),
                forall|j: int| 0 <= j < i ==> self.entries@[j].0@ != key@,
            decreases self.entries.len() - i,
        {
            if str_eq(self.entries[i].0.as_str(), key) {
                return Some(i);
            }
            i = i + 1;
        }
        None
    }

    /// The value stored under `key`.
    pub fn get(&self, key: &str) -> (r: Option<&V>)
        requires
            self.wf(),
        ensures
            match r {
                Some(v) => self.map().dom().contains(key@) && self.map()[key@] == *v,
                None => !self.map().dom().contains(key@),
            },
    {
        match self.find(key) {
            Some(i) => {
                proof {
                    self.lemma_at(i as int);
                }
                Some(&self.entries[i].1)
            },
            None => None,
        }
    }

    /// Whether a value is stored under `key`.
    pub fn contains(&self, key: &str) -> (r: bool)
        requires
            self.wf(),
        ensures
            r == self.map().dom().contains(key@),
    {
        match self.find(key) {
            Some(i) => {
                proof {
                    self.lemma_at(i as int);
                }
                true
            },
            None => false,
        }
    }

    /// Stores `v` under `key`.
    pub fn insert(&mut self, key: String, v: V)
        requires
            old(self).wf(),
        ensures
            final(self).wf(),
            final(self).map() == old(self).map().insert(key@, v),
            final(self).keys() == if old(self).map().dom().contains(key@) {
                old(self).keys()
            } else {
                old(self).keys().push(key@)
            },
    {
        let ghost old_map = self.map();
        let ghost old_keys = self.keys();
        match self.find(key.as_str()) {
            Some(i) => {
                self.entries.set(i, (key, v));
                proof {
                    assert forall|k: Seq<char>| #[trigger]
                        self.map().dom().contains(k) == old_map.insert(key@, v).dom().contains(
                            k,
                        ) by {
                        if old_map.dom().contains(k) {
                            let j = old(self).index_of(k);
                            assert(self.entries@[j].0@ == k);
                        }
                        if self.map().dom().contains(k) {
                            let j = self.index_of(k);
                            if j != i {
                                assert(old(self).entries@[j].0@ == k);
                            }
                        }
                    }
                    assert forall|k: Seq<char>| #[trigger]
                        old_map.insert(key@, v).dom().contains(k) implies self.map()[k]
                        == old_map.insert(key@, v)[k] by {
                        let j = self.index_of(k);
                        if k == key@ {
                            self.lemma_at(i as int);
                        } else {
                            let jo = old(self).index_of(k);
                            assert(old(self).entries@[jo].0@ == k);
                            assert(self.entries@[jo].0@ == k);
                            self.lemma_at(jo);
                            old(self).lemma_at(jo);
                        }
                    }
                    assert(self.map() =~= old_map.insert(key@, v));
                    self.lemma_at(i as int);
                    assert(self.keys() =~= old_keys);
                }
            },
            None => {
                self.entries.push((key, v));
                proof {
                    let n = self.entries.len() - 1;
                    assert forall|k: Seq<char>| #[trigger]
                        self.map().dom().contains(k) == old_map.insert(key@, v).dom().contains(
                            k,
                        ) by {
                        if old_map.dom().contains(k) {
                            let j = old(self).index_of(k);
                            assert(self.entries@[j].0@ == k);
                        }
                        if self.map().dom().contains(k) && k != key@ {
                            let j = self.index_of(k);
                            assert(old(self).entries@[j].0@ == k);
                        }
                        if k == key@ {
                            assert(self.entries@[n].0@ == k);
                        }
                    }
                    assert forall|k: Seq<char>| #[trigger]
                        old_map.insert(key@, v).dom().contains(k) implies self.map()[k]
                        == old_map.insert(key@, v)[k] by {
                        if k == key@ {
                            self.lemma_at(n);
                        } else {
                            let jo = old(self).index_of(k);
                            assert(old(self).entries@[jo].0@ == k);
                            assert(self.entries@[jo].0@ == k);
                            self.lemma_at(jo);
                            old(self).lemma_at(jo);
                        }
                    }
                    assert(self.map() =~= old_map.insert(key@, v));
                    assert(self.keys() =~= old_keys.push(key@));
                }
            },
        }
    }
}

} // verus!
