//! A small keyed collection: string keys, each held once.
use vstd::prelude::*;
use crate::text::str_eq;

verus! {

/// Values under string keys.
pub struct Assoc<V> {
    entries: Vec<(String, V)>,
}

impl<V> Assoc<V> {
    /// No key is held twice.
    pub closed spec fn wf(&self) -> bool {
        forall|i: int, j: int|
            0 <= i < j < self.entries.len() ==> (#[trigger] self.entries[i]).0@ != (
            #[trigger] self.entries[j]).0@
    }

    closed spec fn holds(&self, key: Seq<char>) -> bool {
        exists|i: int| 0 <= i < self.entries.len() && (#[trigger] self.entries[i]).0@ == key
    }

    closed spec fn index_of(&self, key: Seq<char>) -> int {
        choose|i: int| 0 <= i < self.entries.len() && (#[trigger] self.entries[i]).0@ == key
    }

    /// The value under each key.
    pub closed spec fn map(&self) -> Map<Seq<char>, V> {
        Map::new(|k: Seq<char>| self.holds(k), |k: Seq<char>| self.entries[self.index_of(k)].1)
    }

    proof fn lemma_index(&self, i: int)
        requires
            self.wf(),
            0 <= i < self.entries.len(),
        ensures
            self.holds(self.entries[i].0@),
            self.index_of(self.entries[i].0@) == i,
            self.map().contains_key(self.entries[i].0@),
            self.map()[self.entries[i].0@] == self.entries[i].1,
    {
    }

    /// A collection that holds nothing.
    pub fn new() -> (r: Assoc<V>)
        ensures
            r.wf(),
            r.map() == Map::<Seq<char>, V>::empty(),
    {
        let r = Assoc { entries: Vec::new() };
        r
    }

    fn find(&self, key: &str) -> (r: Option<usize>)
        requires
            self.wf(),
        ensures
            r is Some <==> self.map().contains_key(key@),
            r matches Some(i) ==> i < self.entries.len() && self.entries[i as int].0@ == key@
                && self.map()[key@] == self.entries[i as int].1,
    {
        let mut i: usize = 0;
        while i < self.entries.len()
            invariant
                i <= self.entries.len(),
                self.wf(),
                forall|j: int| 0 <= j < i ==> (#[trigger] self.entries[j]).0@ != key@,
            decreases self.entries.len() - i,
        {
            if str_eq(self.entries[i].0.as_str(), key) {
                proof {
                    self.lemma_index(i as int);
                }
                return Some(i);
            }
            i += 1;
        }
        None
    }

    /// Whether a value stands under `key`.
    pub fn contains(&self, key: &str) -> (r: bool)
        requires
            self.wf(),
        ensures
            r == self.map().contains_key(key@),
    {
        self.find(key).is_some()
    }

    /// The value under `key`.
    pub fn get(&self, key: &str) -> (r: Option<&V>)
        requires
            self.wf(),
        ensures
            r is Some <==> self.map().contains_key(key@),
            r matches Some(v) ==> *v == self.map()[key@],
    {
        match self.find(key) {
            Some(i) => Some(&self.entries[i].1),
            None => None,
        }
    }

    /// Puts `value` under `key`, in place of what stood there.
    pub fn put(&mut self, key: &str, value: V)
        requires
            old(self).wf(),
        ensures
            final(self).wf(),
            final(self).map() == old(self).map().insert(key@, value),
    {
        match self.find(key) {
            Some(i) => {
                self.entries[i].1 = value;
                proof {
                    assert forall|k: Seq<char>| #[trigger]
                        self.map().contains_key(k) == old(self).map().insert(
                            key@,
                            value,
                        ).contains_key(k) by {
                        if old(self).holds(k) {
                            let j = old(self).index_of(k);
                            assert(self.entries[j].0@ == k);
                        }
                        if self.holds(k) {
                            let j = self.index_of(k);
                        }
                    }
                    assert forall|k: Seq<char>| #[trigger]
                        self.map().contains_key(k) implies self.map()[k]
                        == old(self).map().insert(key@, value)[k] by {
                        let j = self.index_of(k);
                        self.lemma_index(j);
                        old(self).lemma_index(j);
                    }
                }
            },
            None => {
                self.entries.push((key.to_owned(), value));
                proof {
                    let n = old(self).entries.len() as int;
                    assert forall|a: int, b: int| 0 <= a < b < self.entries.len() implies (
                    #[trigger] self.entries[a]).0@ != (#[trigger] self.entries[b]).0@ by {}
                    assert forall|k: Seq<char>| #[trigger]
                        self.map().contains_key(k) == old(self).map().insert(
                            key@,
                            value,
                        ).contains_key(k) by {
                        if old(self).holds(k) {
                            let j = old(self).index_of(k);
                            assert(self.entries[j].0@ == k);
                        }
                        if self.holds(k) {
                            let j = self.index_of(k);
                        }
                        if k == key@ {
                            assert(self.entries[n].0@ == k);
                        }
                    }
                    assert forall|k: Seq<char>| #[trigger]
                        self.map().contains_key(k) implies self.map()[k]
                        == old(self).map().insert(key@, value)[k] by {
                        let j = self.index_of(k);
                        self.lemma_index(j);
                        if j < n {
                            old(self).lemma_index(j);
                        }
                    }
                }
            },
        }
    }

    /// Takes out what stands under `key`.
    pub fn take(&mut self, key: &str) -> (r: Option<V>)
        requires
            old(self).wf(),
        ensures
            final(self).wf(),
            final(self).map() == old(self).map().remove(key@),
            r is Some <==> old(self).map().contains_key(key@),
            r matches Some(v) ==> v == old(self).map()[key@],
    {
        match self.find(key) {
            Some(i) => {
                let entry = self.entries.remove(i);
                proof {
                    assert forall|a: int, b: int| 0 <= a < b < self.entries.len() implies (
                    #[trigger] self.entries[a]).0@ != (#[trigger] self.entries[b]).0@ by {}
                    assert forall|k: Seq<char>| #[trigger]
                        self.map().contains_key(k) == old(self).map().remove(key@).contains_key(
                            k,
                        ) by {
                        if old(self).holds(k) && k != key@ {
                            let j = old(self).index_of(k);
                            let j1 = if j < i {
                                j
                            } else {
                                j - 1
                            };
                            assert(self.entries[j1].0@ == k);
                        }
                        if self.holds(k) {
                            let j = self.index_of(k);
                            let j0 = if j < i {
                                j
                            } else {
                                j + 1
                            };
                            if k == key@ {
                                old(self).lemma_index(j0);
                                old(self).lemma_index(i as int);
                            }
                        }
                    }
                    assert forall|k: Seq<char>| #[trigger]
                        self.map().contains_key(k) implies self.map()[k]
                        == old(self).map().remove(key@)[k] by {
                        let j = self.index_of(k);
                        self.lemma_index(j);
                        let j0 = if j < i {
                            j
                        } else {
                            j + 1
                        };
                        old(self).lemma_index(j0);
                    }
                }
                Some(entry.1)
            },
            None => {
                None
            },
        }
    }
}

} // verus!
