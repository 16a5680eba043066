//! The in-memory index from each live key to the place of its latest value.
use vstd::prelude::*;

verus! {

/// Where a value record lives: the immutable log file it is in (`None` for
/// the active log) and the offset of its payload in that file.
pub type Location = (Option<usize>, usize);

/// A map from keys to locations, kept as a vector of distinct keys.
pub struct KeyIndex {
    entries: Vec<(String, Location)>,
    map: Ghost<Map<Seq<char>, Location>>,
    pos: Ghost<Map<Seq<char>, int>>,
}

impl View for KeyIndex {
    type V = Map<Seq<char>, Location>;

    closed spec fn view(&self) -> Map<Seq<char>, Location> {
        self.map@
    }
}

impl KeyIndex {
    /// Each key of the map sits at exactly one place of the vector.
    pub closed spec fn wf(&self) -> bool {
        &&& forall|k: Seq<char>|
            #![trigger self.map@.contains_key(k)]
            self.map@.contains_key(k) ==> {
                &&& self.pos@.contains_key(k)
                &&& 0 <= self.pos@[k] < self.entries@.len()
                &&& self.entries@[self.pos@[k]].0@ == k
            }
        &&& forall|i: int|
            #![trigger self.entries@[i]]
            0 <= i < self.entries@.len() ==> {
                &&& self.map@.contains_key(self.entries@[i].0@)
                &&& self.pos@[self.entries@[i].0@] == i
                &&& self.map@[self.entries@[i].0@] == self.entries@[i].1
            }
        &&& self.map@.dom().finite()
    }

    /// An empty index.
    pub fn new() -> (index: KeyIndex)
        ensures
            index.wf(),
            index@ == Map::<Seq<char>, Location>::empty(),
    {
        KeyIndex { entries: Vec::new(), map: Ghost(Map::empty()), pos: Ghost(Map::empty()) }
    }

    /// The number of keys.
    pub fn len(&self) -> (n: usize)
        requires
            self.wf(),
        ensures
            n == self@.len(),
    {
        proof {
            self.lemma_len();
        }
        self.entries.len()
    }

    proof fn lemma_len(&self)
        requires
            self.wf(),
        ensures
            self.entries@.len() == self@.len(),
    {
        let keys = Seq::new(self.entries@.len(), |i: int| self.entries@[i].0@);
        assert forall|i: int, j: int|
            0 <= i < keys.len() && 0 <= j < keys.len() && i != j implies keys[i] != keys[j] by {
            assert(self.entries@[i] == self.entries@[i]);
            assert(self.entries@[j] == self.entries@[j]);
        }
        assert(keys.no_duplicates());
        assert forall|k: Seq<char>| #[trigger] keys.contains(k) <==> self.map@.dom().contains(k) by {
            if self.map@.contains_key(k) {
                assert(keys[self.pos@[k]] == k);
            }
            if keys.contains(k) {
                let i = choose|i: int| 0 <= i < keys.len() && keys[i] == k;
                assert(self.entries@[i] == self.entries@[i]);
            }
        }
        assert(keys.to_set() =~= self.map@.dom());
        keys.unique_seq_to_set();
    }

    /// The position of `key` in the vector, if it is there.
    fn find(&self, key: &String) -> (found: Option<usize>)
        requires
            self.wf(),
        ensures
            found is None <==> !self@.contains_key(key@),
            found matches Some(i) ==> i < self.entries@.len() && self.entries@[i as int].0@ == key@
                && self.pos@[key@] == i,
    {
        let mut i: usize = 0;
        while i < self.entries.len()
            invariant
                self.wf(),
                i <= self.entries@.len(),
                forall|j: int| 0 <= j < i ==> (#[trigger] self.entries@[j]).0@ != key@,
            decreases self.entries@.len() - i,
        {
            if self.entries[i].0 == *key {
                assert(self.entries@[i as int] == self.entries@[i as int]);
                return Some(i);
            }
            i = i + 1;
        }
        proof {
            if self.map@.contains_key(key@) {
                assert(self.entries@[self.pos@[key@]] == self.entries@[self.pos@[key@]]);
            }
        }
        None
    }

    /// The location of `key`, if it is in the index.
    pub fn get(&self, key: &String) -> (loc: Option<Location>)
        requires
            self.wf(),
        ensures
            loc == (if self@.contains_key(key@) {
                Some(self@[key@])
            } else {
                None
            }),
    {
        match self.find(key) {
            Some(i) => {
                assert(self.entries@[i as int] == self.entries@[i as int]);
                Some(self.entries[i].1)
            },
            None => None,
        }
    }

    /// Whether `key` is in the index.
    pub fn contains_key(&self, key: &String) -> (present: bool)
        requires
            self.wf(),
        ensures
            present == self@.contains_key(key@),
    {
        self.find(key).is_some()
    }

    /// Maps `key` to `loc`, replacing any location it had.
    pub fn insert(&mut self, key: String, loc: Location)
        requires
            old(self).wf(),
        ensures
            final(self).wf(),
            final(self)@ == old(self)@.insert(key@, loc),
    {
        match self.find(&key) {
            Some(i) => {
                let ghost k = key@;
                self.entries.set(i, (key, loc));
                proof {
                    self.map@ = self.map@.insert(k, loc);
                    assert forall|j: int|
                        #![trigger self.entries@[j]]
                        0 <= j < self.entries@.len() implies {
                        &&& self.map@.contains_key(self.entries@[j].0@)
                        &&& self.pos@[self.entries@[j].0@] == j
                        &&& self.map@[self.entries@[j].0@] == self.entries@[j].1
                    } by {
                        if j != i {
                            assert(old(self).entries@[j] == old(self).entries@[j]);
                        }
                    }
                }
            },
            None => {
                let ghost k = key@;
                let ghost n = self.entries@.len() as int;
                self.entries.push((key, loc));
                proof {
                    self.map@ = self.map@.insert(k, loc);
                    self.pos@ = self.pos@.insert(k, n);
                    assert forall|j: int|
                        #![trigger self.entries@[j]]
                        0 <= j < self.entries@.len() implies {
                        &&& self.map@.contains_key(self.entries@[j].0@)
                        &&& self.pos@[self.entries@[j].0@] == j
                        &&& self.map@[self.entries@[j].0@] == self.entries@[j].1
                    } by {
                        if j != n {
                            assert(old(self).entries@[j] == old(self).entries@[j]);
                        }
                    }
                }
            },
        }
    }

    /// Takes `key` out of the index; says whether it was there.
    pub fn remove(&mut self, key: &String) -> (was_present: bool)
        requires
            old(self).wf(),
        ensures
            final(self).wf(),
            final(self)@ == old(self)@.remove(key@),
            was_present == old(self)@.contains_key(key@),
    {
        match self.find(key) {
            Some(i) => {
                let ghost last = self.entries@.len() - 1;
                let ghost last_key = self.entries@[last].0@;
                assert(self.entries@[last] == self.entries@[last]);
                self.entries.swap_remove(i);
                proof {
                    self.map@ = self.map@.remove(key@);
                    if i < last {
                        self.pos@ = self.pos@.insert(last_key, i as int);
                    }
                    assert forall|j: int|
                        #![trigger self.entries@[j]]
                        0 <= j < self.entries@.len() implies {
                        &&& self.map@.contains_key(self.entries@[j].0@)
                        &&& self.pos@[self.entries@[j].0@] == j
                        &&& self.map@[self.entries@[j].0@] == self.entries@[j].1
                    } by {
                        assert(old(self).entries@[j] == old(self).entries@[j]);
                    }
                    assert forall|k: Seq<char>|
                        #![trigger self.map@.contains_key(k)]
                        self.map@.contains_key(k) implies {
                        &&& self.pos@.contains_key(k)
                        &&& 0 <= self.pos@[k] < self.entries@.len()
                        &&& self.entries@[self.pos@[k]].0@ == k
                    } by {
                        assert(old(self).map@.contains_key(k));
                        let p = old(self).pos@[k];
                        assert(old(self).entries@[p] == old(self).entries@[p]);
                    }
                }
                true
            },
            None => {
                assert(self.map@.remove(key@) =~= self.map@);
                false
            },
        }
    }
}

} // verus!
