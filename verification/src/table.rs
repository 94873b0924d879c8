//! A map from strings to values whose entries can be walked.
use vstd::hash_map::StringHashMap;
use vstd::prelude::*;

verus! {

/// A map from strings to values. The entries lie in a list, and an index gives the place of
/// each key in it.
pub struct Table<V> {
    entries: Vec<(String, V)>,
    index: StringHashMap<usize>,
}

impl<V> View for Table<V> {
    type V = Map<Seq<char>, V>;

    closed spec fn view(&self) -> Map<Seq<char>, V> {
        Map::new(
            |k: Seq<char>| self.index@.contains_key(k),
            |k: Seq<char>| self.entries@[self.index@[k] as int].1,
        )
    }
}

impl<V> Table<V> {
    /// The index has exactly the keys of the entries, each with its place.
    pub closed spec fn wf(&self) -> bool {
        &&& forall|i: int|
            0 <= i < self.entries.len() ==> self.index@.contains_key(
                (#[trigger] self.entries@[i]).0@,
            ) && self.index@[self.entries@[i].0@] == i
        &&& forall|k: Seq<char>| #[trigger]
            self.index@.contains_key(k) ==> self.index@[k] < self.entries.len()
                && self.entries@[self.index@[k] as int].0@ == k
    }

    /// The keys in the order in which the entries are walked.
    pub closed spec fn keys(&self) -> Seq<Seq<char>> {
        Seq::new(self.entries@.len(), |i: int| self.entries@[i].0@)
    }

    /// Each key is walked once.
    pub proof fn lemma_keys(&self)
        requires
            self.wf(),
        ensures
            self.keys().no_duplicates(),
            self.keys().to_set() == self@.dom(),
            self@.dom().finite(),
            self.keys().len() == self@.len(),
            forall|k: Seq<char>| #[trigger] self@.contains_key(k) <==> self.keys().contains(k),
    {
        let ks = self.keys();
        assert forall|k: Seq<char>| #[trigger] self@.contains_key(k) implies ks.contains(k) by {
            assert(self.index@.contains_key(k));
            assert(ks[self.index@[k] as int] == k);
        }
        assert forall|k: Seq<char>| ks.contains(k) implies #[trigger] self@.contains_key(k) by {
            let i = choose|i: int| 0 <= i < ks.len() && ks[i] == k;
            assert(self.entries@[i].0@ == k);
        }
        assert forall|i: int, j: int| 0 <= i < ks.len() && 0 <= j < ks.len() && i != j implies ks[i]
            != ks[j] by {
            assert(self.entries@[i].0@ == ks[i]);
            assert(self.entries@[j].0@ == ks[j]);
        }
        assert(ks.to_set() =~= self@.dom());
        ks.unique_seq_to_set();
    }

    /// A table without entries.
    pub fn new() -> (r: Self)
        ensures
            r.wf(),
            r@ == Map::<Seq<char>, V>::empty(),
            r.keys().len() == 0,
    {
        let r = Table { entries: Vec::new(), index: StringHashMap::new() };
        assert(r@ =~= Map::<Seq<char>, V>::empty());
        r
    }

    /// The number of entries.
    pub fn len(&self) -> (r: usize)
        requires
            self.wf(),
        ensures
            r == self@.len(),
            r == self.keys().len(),
    {
        proof {
            self.lemma_keys();
        }
        self.entries.len()
    }

    /// The key of the entry at a place.
    pub fn key_at(&self, i: usize) -> (r: &String)
        requires
            self.wf(),
            i < self.keys().len(),
        ensures
            r@ == self.keys()[i as int],
            self@.contains_key(r@),
    {
        assert(self.entries@[i as int].0@ == self.keys()[i as int]);
        &self.entries[i].0
    }

    /// The value of the entry at a place.
    pub fn value_at(&self, i: usize) -> (r: &V)
        requires
            self.wf(),
            i < self.keys().len(),
        ensures
            self@.contains_key(self.keys()[i as int]),
            *r == self@[self.keys()[i as int]],
    {
        assert(self.entries@[i as int].0@ == self.keys()[i as int]);
        &self.entries[i].1
    }

    /// The value of a key.
    pub fn get(&self, key: &str) -> (r: Option<&V>)
        requires
            self.wf(),
        ensures
            match r {
                Some(v) => self@.contains_key(key@) && *v == self@[key@],
                None => !self@.contains_key(key@),
            },
    {
        match self.index.get(key) {
            Some(i) => {
                assert(self.index@.contains_key(key@));
                Some(&self.entries[*i].1)
            },
            None => None,
        }
    }

    /// Gives a key a value.
    pub fn insert(&mut self, key: String, value: V)
        requires
            old(self).wf(),
        ensures
            final(self).wf(),
            final(self)@ == old(self)@.insert(key@, value),
    {
        let ghost before = *self;
        match self.index.get(&key) {
            Some(at) => {
                let i = *at;
                assert(self.index@.contains_key(key@));
                self.entries.set(i, (key, value));
                assert forall|k: Seq<char>| #[trigger] self.index@.contains_key(k) implies
                    self.entries@[self.index@[k] as int].0@ == k by {
                    assert(before.index@.contains_key(k));
                }
                assert(self@ =~= before@.insert(key@, value)) by {
                    assert forall|k: Seq<char>| #[trigger] self@.contains_key(k) && k != key@ implies
                        self@[k] == before@[k] by {
                        assert(before.index@.contains_key(k));
                        assert(before.index@[k] != i);
                    }
                }
            },
            None => {
                let i = self.entries.len();
                self.index.insert(key.clone(), i);
                self.entries.push((key, value));
                assert forall|k: Seq<char>| #[trigger] self.index@.contains_key(k) implies
                    self.index@[k] < self.entries.len() && self.entries@[self.index@[k] as int].0@
                    == k by {
                    if k != key@ {
                        assert(before.index@.contains_key(k));
                    }
                }
                assert forall|j: int| 0 <= j < self.entries.len() implies self.index@.contains_key(
                    (#[trigger] self.entries@[j]).0@,
                ) && self.index@[self.entries@[j].0@] == j by {
                    if j < i {
                        assert(before.entries@[j] == self.entries@[j]);
                    }
                }
                assert(self@ =~= before@.insert(key@, value)) by {
                    assert forall|k: Seq<char>| #[trigger] self@.contains_key(k) && k != key@ implies
                        self@[k] == before@[k] by {
                        assert(before.index@.contains_key(k));
                    }
                }
            },
        }
    }

    /// Takes a key out.
    pub fn remove(&mut self, key: &str) -> (r: Option<V>)
        requires
            old(self).wf(),
        ensures
            final(self).wf(),
            final(self)@ == old(self)@.remove(key@),
            match r {
                Some(v) => old(self)@.contains_key(key@) && v == old(self)@[key@],
                None => !old(self)@.contains_key(key@),
            },
    {
        let ghost before = *self;
        match self.index.get(key) {
            None => {
                assert(self@ =~= before@.remove(key@));
                None
            },
            Some(at) => {
                let i = *at;
                assert(self.index@.contains_key(key@));
                let entry = self.entries.swap_remove(i);
                self.index.remove(key);
                if i < self.entries.len() {
                    assert(self.entries@[i as int] == before.entries@.last());
                    let moved = self.entries[i].0.clone();
                    assert(before.index@[moved@] == before.entries.len() - 1);
                    self.index.insert(moved, i);
                }
                assert forall|k: Seq<char>| #[trigger] self.index@.contains_key(k) implies
                    self.index@[k] < self.entries.len() && self.entries@[self.index@[k] as int].0@
                    == k by {
                    assert(before.index@.contains_key(k));
                }
                assert forall|j: int| 0 <= j < self.entries.len() implies self.index@.contains_key(
                    (#[trigger] self.entries@[j]).0@,
                ) && self.index@[self.entries@[j].0@] == j by {
                    assert(before.entries@[j].0@ == before.entries@[j].0@);
                    if j != i {
                        assert(before.entries@[j] == self.entries@[j]);
                    }
                }
                assert(self@ =~= before@.remove(key@)) by {
                    assert forall|k: Seq<char>| #[trigger] before@.contains_key(k) && k != key@ implies
                        self@.contains_key(k) && self@[k] == before@[k] by {
                        assert(before.index@.contains_key(k));
                    }
                    assert forall|k: Seq<char>| #[trigger] self@.contains_key(k) implies
                        before@.contains_key(k) && k != key@ by {
                        assert(self.index@.contains_key(k));
                        assert(before.index@.contains_key(k));
                    }
                }
                Some(entry.1)
            },
        }
    }
}

} // verus!
