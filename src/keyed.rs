//! A small map from string keys (board ids) to values, kept as a list of entries with
//! distinct keys.
use vstd::prelude::*;

verus! {

/// Entries with pairwise distinct keys.
pub struct Keyed<V> {
    pub entries: Vec<(String, V)>,
}

impl<V> View for Keyed<V> {
    type V = Map<Seq<char>, V>;

    open spec fn view(&self) -> Map<Seq<char>, V> {
        Map::new(
            |k: Seq<char>| exists|i: int| 0 <= i < self.entries@.len() && #[trigger] self.entries@[i].0@ == k,
            |k: Seq<char>| self.entries@[self.slot(k)].1,
        )
    }
}

impl<V> Keyed<V> {
    /// Index of the entry with key `k` (meaningful when there is one).
    pub open spec fn slot(&self, k: Seq<char>) -> int {
        choose|i: int| 0 <= i < self.entries@.len() && #[trigger] self.entries@[i].0@ == k
    }

    /// No key occurs twice.
    pub open spec fn wf(&self) -> bool {
        forall|i: int, j: int|
            0 <= i < self.entries@.len() && 0 <= j < self.entries@.len() && i != j
                ==> #[trigger] self.entries@[i].0@ != #[trigger] self.entries@[j].0@
    }

    /// The entry at `i` is the one its key maps to.
    pub proof fn lemma_slot(&self, i: int)
        requires
            self.wf(),
            0 <= i < self.entries@.len(),
        ensures
            self@.contains_key(self.entries@[i].0@),
            self.slot(self.entries@[i].0@) == i,
            self@[self.entries@[i].0@] == self.entries@[i].1,
    {
        let k = self.entries@[i].0@;
        assert(self.entries@[i].0@ == k);
        let j = self.slot(k);
        assert(self.entries@[j].0@ == k);
    }

    /// The empty map.
    pub fn new() -> (r: Self)
        ensures
            r.wf(),
            r@ == Map::<Seq<char>, V>::empty(),
    {
        let r = Keyed { entries: Vec::new() };
        assert(r@ =~= Map::<Seq<char>, V>::empty());
        r
    }

    /// Position of key `k`, if present.
    pub fn index_of(&self, k: &String) -> (r: Option<usize>)
        requires
            self.wf(),
        ensures
            match r {
                Some(i) => i < self.entries@.len() && self.entries@[i as int].0@ == k@ && self@.contains_key(k@)
                    && self.slot(k@) == i && self@[k@] == self.entries@[i as int].1,
                None => !self@.contains_key(k@),
            },
    {
        let mut i: usize = 0;
        while i < self.entries.len()
            invariant
                self.wf(),
                i <= self.entries@.len(),
                forall|j: int| 0 <= j < i ==> self.entries@[j].0@ != k@,
            decreases self.entries@.len() - i,
        {
            if self.entries[i].0 == *k {
                proof {
                    self.lemma_slot(i as int);
                }
                return Some(i);
            }
            i += 1;
        }
        None
    }

    /// The value under key `k`, if present.
    pub fn get(&self, k: &String) -> (r: Option<&V>)
        requires
            self.wf(),
        ensures
            match r {
                Some(v) => self@.contains_key(k@) && *v == self@[k@],
                None => !self@.contains_key(k@),
            },
    {
        match self.index_of(k) {
            Some(i) => Some(&self.entries[i].1),
            None => None,
        }
    }

    /// Sets key `k` to `v`, replacing any value it had.
    pub fn insert(&mut self, k: String, v: V)
        requires
            old(self).wf(),
        ensures
            final(self).wf(),
            final(self)@ == old(self)@.insert(k@, v),
    {
        match self.index_of(&k) {
            Some(i) => {
                self.entries.set(i, (k, v));
                proof {
                    let o = old(self);
                    assert forall|a: int, b: int|
                        0 <= a < self.entries@.len() && 0 <= b < self.entries@.len() && a != b
                            implies #[trigger] self.entries@[a].0@ != #[trigger] self.entries@[b].0@ by {
                        assert(self.entries@[a].0@ == o.entries@[a].0@);
                        assert(self.entries@[b].0@ == o.entries@[b].0@);
                    }
                    self.lemma_map_after_set(*o, i as int);
                }
            },
            None => {
                let ghost kv = k@;
                self.entries.push((k, v));
                proof {
                    let o = old(self);
                    let n = o.entries@.len() as int;
                    assert forall|a: int, b: int|
                        0 <= a < self.entries@.len() && 0 <= b < self.entries@.len() && a != b
                            implies #[trigger] self.entries@[a].0@ != #[trigger] self.entries@[b].0@ by {
                        if a < n && b < n {
                            assert(self.entries@[a] == o.entries@[a]);
                            assert(self.entries@[b] == o.entries@[b]);
                        } else if a == n {
                            assert(self.entries@[b] == o.entries@[b]);
                            assert(o.entries@[b].0@ == self.entries@[b].0@);
                        } else {
                            assert(self.entries@[a] == o.entries@[a]);
                            assert(o.entries@[a].0@ == self.entries@[a].0@);
                        }
                    }
                    assert forall|q: Seq<char>| #![auto] self@.contains_key(q) == old(self)@.insert(kv, v).contains_key(q) by {
                        if self@.contains_key(q) {
                            let j = choose|j: int| 0 <= j < self.entries@.len() && #[trigger] self.entries@[j].0@ == q;
                            if j < n {
                                assert(o.entries@[j] == self.entries@[j]);
                            }
                        }
                        if o@.contains_key(q) {
                            let j = choose|j: int| 0 <= j < o.entries@.len() && #[trigger] o.entries@[j].0@ == q;
                            assert(o.entries@[j] == self.entries@[j]);
                        }
                        if q == kv {
                            assert(self.entries@[n].0@ == q);
                        }
                    }
                    assert forall|q: Seq<char>| #[trigger] self@.contains_key(q) implies self@[q] == old(self)@.insert(kv, v)[q] by {
                        let j = self.slot(q);
                        assert(self.entries@[j].0@ == q);
                        if q == kv {
                            self.lemma_slot(n);
                        } else {
                            assert(j < n);
                            assert(o.entries@[j] == self.entries@[j]);
                            o.lemma_slot(j);
                        }
                    }
                    assert(self@ =~= old(self)@.insert(kv, v));
                }
            },
        }
    }

    /// Overwriting the value of entry `i` in place is an insert under its key.
    pub proof fn lemma_map_after_set(&self, o: Self, i: int)
        requires
            o.wf(),
            self.wf(),
            0 <= i < o.entries@.len(),
            self.entries@ == o.entries@.update(i, self.entries@[i]),
            self.entries@[i].0@ == o.entries@[i].0@,
        ensures
            self@ == o@.insert(self.entries@[i].0@, self.entries@[i].1),
    {
        let k = self.entries@[i].0@;
        let v = self.entries@[i].1;
        assert forall|q: Seq<char>| #![auto] self@.contains_key(q) == o@.insert(k, v).contains_key(q) by {
            if self@.contains_key(q) {
                let j = choose|j: int| 0 <= j < self.entries@.len() && #[trigger] self.entries@[j].0@ == q;
                assert(o.entries@[j].0@ == q);
            }
            if o@.contains_key(q) {
                let j = choose|j: int| 0 <= j < o.entries@.len() && #[trigger] o.entries@[j].0@ == q;
                assert(self.entries@[j].0@ == q);
            }
        }
        assert forall|q: Seq<char>| #[trigger] self@.contains_key(q) implies self@[q] == o@.insert(k, v)[q] by {
            let j = self.slot(q);
            assert(self.entries@[j].0@ == q);
            self.lemma_slot(j);
            if j != i {
                assert(o.entries@[j] == self.entries@[j]);
                o.lemma_slot(j);
            }
        }
        assert(self@ =~= o@.insert(k, v));
    }

    /// Removes key `k`, returning its value if it had one.
    pub fn remove(&mut self, k: &String) -> (r: Option<V>)
        requires
            old(self).wf(),
        ensures
            final(self).wf(),
            final(self)@ == old(self)@.remove(k@),
            r is None ==> *final(self) == *old(self),
            match r {
                Some(v) => old(self)@.contains_key(k@) && v == old(self)@[k@],
                None => !old(self)@.contains_key(k@),
            },
    {
        match self.index_of(k) {
            Some(i) => {
                let (_key, v) = self.entries.remove(i);
                proof {
                    let o = old(self);
                    let n = self.entries@.len() as int;
                    assert forall|a: int, b: int|
                        0 <= a < n && 0 <= b < n && a != b
                            implies #[trigger] self.entries@[a].0@ != #[trigger] self.entries@[b].0@ by {
                        let a2 = if a < i { a } else { a + 1 };
                        let b2 = if b < i { b } else { b + 1 };
                        assert(self.entries@[a] == o.entries@[a2]);
                        assert(self.entries@[b] == o.entries@[b2]);
                    }
                    assert forall|q: Seq<char>| #![auto] self@.contains_key(q) == o@.remove(k@).contains_key(q) by {
                        if self@.contains_key(q) {
                            let j = choose|j: int| 0 <= j < n && #[trigger] self.entries@[j].0@ == q;
                            let j2 = if j < i { j } else { j + 1 };
                            assert(self.entries@[j] == o.entries@[j2]);
                            assert(o.entries@[j2].0@ != o.entries@[i as int].0@);
                        }
                        if o@.remove(k@).contains_key(q) {
                            let j2 = choose|j: int| 0 <= j < o.entries@.len() && #[trigger] o.entries@[j].0@ == q;
                            assert(j2 != i);
                            let j = if j2 < i { j2 } else { j2 - 1 };
                            assert(self.entries@[j] == o.entries@[j2]);
                        }
                    }
                    assert forall|q: Seq<char>| #[trigger] self@.contains_key(q) implies self@[q] == o@.remove(k@)[q] by {
                        let j = self.slot(q);
                        assert(self.entries@[j].0@ == q);
                        self.lemma_slot(j);
                        let j2 = if j < i { j } else { j + 1 };
                        assert(self.entries@[j] == o.entries@[j2]);
                        o.lemma_slot(j2);
                    }
                    assert(self@ =~= o@.remove(k@));
                }
                Some(v)
            },
            None => {
                assert(self@ =~= old(self)@.remove(k@));
                None
            },
        }
    }
}

} // verus!
