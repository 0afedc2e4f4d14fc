//! A small map from strings to values, kept as a vector of distinct keys.
use vstd::prelude::*;

verus! {

/// A map from string keys to values, in insertion order.
pub struct KeyedMap<V> {
    entries: Vec<(String, V)>,
    contents: Ghost<Map<Seq<char>, V>>,
}

impl<V> KeyedMap<V> {
    /// What the map holds.
    pub closed spec fn view(&self) -> Map<Seq<char>, V> {
        self.contents@
    }

    /// The keys, in the order in which the entries are stored.
    pub closed spec fn keys(&self) -> Seq<Seq<char>> {
        self.entries@.map_values(|e: (String, V)| e.0@)
    }

    pub closed spec fn wf(&self) -> bool {
        &&& forall|i: int, j: int|
            0 <= i < j < self.entries@.len() ==> self.entries@[i].0@ != self.entries@[j].0@
        &&& forall|i: int|
            0 <= i < self.entries@.len() ==> #[trigger] self.contents@.contains_key(self.entries@[i].0@)
                && self.contents@[self.entries@[i].0@] == self.entries@[i].1
        &&& forall|k: Seq<char>|
            #[trigger] self.contents@.contains_key(k) ==> exists|i: int|
                0 <= i < self.entries@.len() && self.entries@[i].0@ == k
        &&& self.contents@.dom().finite()
        &&& self.contents@.len() == self.entries@.len()
    }

    /// The stored keys are distinct, and are exactly the keys of the map.
    pub proof fn lemma_keys(&self)
        requires
            self.wf(),
        ensures
            self.keys().no_duplicates(),
            self.keys().len() == self@.len(),
            forall|i: int| 0 <= i < self.keys().len() ==> #[trigger] self@.contains_key(self.keys()[i]),
            forall|k: Seq<char>| #[trigger] self@.contains_key(k) ==> self.keys().contains(k),
    {
        assert forall|i: int| 0 <= i < self.keys().len() implies #[trigger] self@.contains_key(self.keys()[i]) by {
            assert(self.contents@.contains_key(self.entries@[i].0@));
        }
        assert forall|k: Seq<char>| #[trigger] self@.contains_key(k) implies self.keys().contains(k) by {
            let i = choose|i: int| 0 <= i < self.entries@.len() && self.entries@[i].0@ == k;
            assert(self.keys()[i] == k);
        }
    }

    pub fn new() -> (r: KeyedMap<V>)
        ensures
            r.wf(),
            r@ == Map::<Seq<char>, V>::empty(),
    {
        KeyedMap { entries: Vec::new(), contents: Ghost(Map::empty()) }
    }

    /// The number of entries.
    pub fn len(&self) -> (r: usize)
        requires
            self.wf(),
        ensures
            r == self@.len(),
            r == self.keys().len(),
    {
        self.entries.len()
    }

    fn position(&self, key: &String) -> (r: Option<usize>)
        requires
            self.wf(),
        ensures
            r matches Some(i) ==> i < self.entries@.len() && self.entries@[i as int].0@ == key@,
            r is None ==> !self@.contains_key(key@),
    {
        let mut i: usize = 0;
        while i < self.entries.len()
            invariant
                self.wf(),
                i <= self.entries@.len(),
                forall|j: int| 0 <= j < i ==> self.entries@[j].0@ != key@,
            decreases self.entries@.len() - i,
        {
            if self.entries[i].0 == *key {
                return Some(i);
            }
            i = i + 1;
        }
        None
    }

    /// Whether `key` has an entry.
    pub fn contains(&self, key: &String) -> (r: bool)
        requires
            self.wf(),
        ensures
            r == self@.contains_key(key@),
    {
        match self.position(key) {
            Some(i) => {
                assert(self@.contains_key(self.entries@[i as int].0@));
                true
            },
            None => false,
        }
    }

    /// The value under `key`, if any.
    pub fn get(&self, key: &String) -> (r: Option<&V>)
        requires
            self.wf(),
        ensures
            self@.contains_key(key@) ==> r == Some(&self@[key@]),
            !self@.contains_key(key@) ==> r is None,
    {
        match self.position(key) {
            Some(i) => Some(&self.entries[i].1),
            None => None,
        }
    }

    /// The key and value stored at position `i`.
    pub fn entry_at(&self, i: usize) -> (r: (&String, &V))
        requires
            self.wf(),
            i < self.keys().len(),
        ensures
            r.0@ == self.keys()[i as int],
            self@.contains_key(r.0@),
            *r.1 == self@[r.0@],
    {
        let e = &self.entries[i];
        (&e.0, &e.1)
    }

    /// Takes the entry under `key` out of the map.
    pub fn remove(&mut self, key: &String) -> (r: Option<V>)
        requires
            old(self).wf(),
        ensures
            final(self).wf(),
            final(self)@ == old(self)@.remove(key@),
            old(self)@.contains_key(key@) ==> r == Some(old(self)@[key@]),
            !old(self)@.contains_key(key@) ==> r is None,
            forall|k: Seq<char>| #[trigger] final(self).keys().contains(k) ==> old(self).keys().contains(k),
    {
        match self.position(key) {
            None => {
                assert(self@.remove(key@) =~= self@);
                None
            },
            Some(i) => {
                let ghost before = self.entries@;
                let ghost m = self.contents@;
                let e = self.entries.remove(i);
                self.contents = Ghost(m.remove(key@));
                proof {
                    assert(self.entries@ == before.remove(i as int));
                    assert forall|a: int, b: int|
                        0 <= a < b < self.entries@.len() implies self.entries@[a].0@ != self.entries@[b].0@ by {
                        if a < i {
                            if b < i {
                            } else {
                                assert(self.entries@[b] == before[b + 1]);
                            }
                        } else {
                            assert(self.entries@[a] == before[a + 1]);
                            assert(self.entries@[b] == before[b + 1]);
                        }
                    }
                    assert forall|a: int| 0 <= a < self.entries@.len() implies #[trigger] self.contents@.contains_key(self.entries@[a].0@)
                        && self.contents@[self.entries@[a].0@] == self.entries@[a].1 by {
                        if a < i {
                            assert(self.entries@[a] == before[a]);
                            assert(before[a].0@ != before[i as int].0@);
                        } else {
                            assert(self.entries@[a] == before[a + 1]);
                            assert(before[a + 1].0@ != before[i as int].0@);
                        }
                    }
                    assert forall|k: Seq<char>| #[trigger] self.contents@.contains_key(k) implies exists|a: int|
                        0 <= a < self.entries@.len() && self.entries@[a].0@ == k by {
                        let j = choose|j: int| 0 <= j < before.len() && before[j].0@ == k;
                        if j < i {
                            assert(self.entries@[j].0@ == k);
                        } else {
                            assert(j != i);
                            assert(self.entries@[j - 1].0@ == k);
                        }
                    }
                    assert forall|k: Seq<char>| #[trigger] self.keys().contains(k) implies old(self).keys().contains(k) by {
                        let a = choose|a: int| 0 <= a < self.keys().len() && self.keys()[a] == k;
                        if a < i {
                            assert(old(self).keys()[a] == k);
                        } else {
                            assert(old(self).keys()[a + 1] == k);
                        }
                    }
                }
                Some(e.1)
            },
        }
    }

    /// Puts `value` under `key`, replacing any earlier value, and returns
    /// the earlier value.
    pub fn insert(&mut self, key: String, value: V) -> (r: Option<V>)
        requires
            old(self).wf(),
        ensures
            final(self).wf(),
            final(self)@ == old(self)@.insert(key@, value),
            old(self)@.contains_key(key@) ==> r == Some(old(self)@[key@]),
            !old(self)@.contains_key(key@) ==> r is None,
    {
        let ghost k = key@;
        let prior = self.remove(&key);
        let ghost before = self.entries@;
        let ghost m = self.contents@;
        self.entries.push((key, value));
        self.contents = Ghost(m.insert(k, value));
        proof {
            assert(self.entries@ == before.push((key, value)));
            assert(!m.contains_key(k));
            assert forall|a: int, b: int|
                0 <= a < b < self.entries@.len() implies self.entries@[a].0@ != self.entries@[b].0@ by {
                if b == before.len() {
                    assert(m.contains_key(before[a].0@));
                }
            }
            assert forall|a: int| 0 <= a < self.entries@.len() implies #[trigger] self.contents@.contains_key(self.entries@[a].0@)
                && self.contents@[self.entries@[a].0@] == self.entries@[a].1 by {
                if a < before.len() {
                    assert(m.contains_key(before[a].0@));
                }
            }
            assert forall|q: Seq<char>| #[trigger] self.contents@.contains_key(q) implies exists|a: int|
                0 <= a < self.entries@.len() && self.entries@[a].0@ == q by {
                if q == k {
                    assert(self.entries@[before.len() as int].0@ == q);
                } else {
                    assert(m.contains_key(q));
                    let j = choose|j: int| 0 <= j < before.len() && before[j].0@ == q;
                    assert(self.entries@[j].0@ == q);
                }
            }
            assert(old(self)@.remove(k).insert(k, value) =~= old(self)@.insert(k, value));
        }
        prior
    }
}

} // verus!
