//! A small keyed table: text keys, at most one row per key, rows kept in
//! the order in which their keys first appeared.

use vstd::prelude::*;

verus! {

/// Rows keyed by text. Its view is the map from key to the value's view.
pub struct Table<V> {
    rows: Vec<(String, V)>,
}

impl<V> Table<V> {
    /// The keys of the rows, in row order.
    pub closed spec fn keys(&self) -> Seq<Seq<char>> {
        Seq::new(self.rows@.len(), |i: int| self.rows@[i].0@)
    }

    #[verifier::type_invariant]
    spec fn distinct_keys(&self) -> bool {
        self.keys().no_duplicates()
    }
}

impl<V: DeepView> Table<V> {
    /// The values of the rows, in row order.
    pub closed spec fn values(&self) -> Seq<V::V> {
        Seq::new(self.rows@.len(), |i: int| self.rows@[i].1.deep_view())
    }

    /// The table as a map.
    pub closed spec fn model(&self) -> Map<Seq<char>, V::V> {
        Map::new(
            |k: Seq<char>| self.keys().contains(k),
            |k: Seq<char>| self.values()[self.keys().index_of(k)],
        )
    }

    pub fn new() -> (t: Self)
        ensures
            t.model() == Map::<Seq<char>, V::V>::empty(),
            t.keys().len() == 0,
    {
        let t = Table { rows: Vec::new() };
        assert(t.model() =~= Map::<Seq<char>, V::V>::empty());
        t
    }

    /// Number of rows.
    pub fn len(&self) -> (n: usize)
        ensures
            n == self.keys().len(),
            n == self.model().dom().len(),
            self.model().dom().finite(),
            self.keys().no_duplicates(),
            self.keys().len() == self.values().len(),
            forall|i: int|
                0 <= i < self.keys().len() ==> self.model().contains_key(#[trigger] self.keys()[i])
                    && self.model()[self.keys()[i]] == self.values()[i],
            forall|k: Seq<char>| self.model().contains_key(k) ==> self.keys().contains(k),
    {
        proof {
            use_type_invariant(self);
            self.lemma_model();
        }
        self.rows.len()
    }

    /// The row order and the map agree, and no key occurs twice.
    pub proof fn lemma_model(&self)
        requires
            self.keys().no_duplicates(),
        ensures
            self.keys().len() == self.values().len(),
            self.model().dom() == self.keys().to_set(),
            self.model().dom().finite(),
            self.model().dom().len() == self.keys().len(),
            forall|i: int|
                0 <= i < self.keys().len() ==> self.model().contains_key(#[trigger] self.keys()[i])
                    && self.model()[self.keys()[i]] == self.values()[i],
    {
        let keys = self.keys();
        assert(self.model().dom() =~= keys.to_set());
        keys.unique_seq_to_set();
        assert forall|i: int| 0 <= i < keys.len() implies self.model().contains_key(
            #[trigger] keys[i],
        ) && self.model()[keys[i]] == self.values()[i] by {
            assert(keys.contains(keys[i]));
            let j = keys.index_of(keys[i]);
            assert(0 <= j < keys.len() && keys[j] == keys[i]);
        }
    }

    /// Index of the row with `key`.
    fn position(&self, key: &String) -> (r: Option<usize>)
        ensures
            match r {
                Some(i) => i < self.keys().len() && self.keys()[i as int] == key@,
                None => !self.keys().contains(key@),
            },
    {
        let mut i: usize = 0;
        while i < self.rows.len()
            invariant
                i <= self.rows.len(),
                forall|j: int| 0 <= j < i ==> self.keys()[j] != key@,
            decreases self.rows.len() - i,
        {
            if self.rows[i].0 == *key {
                return Some(i);
            }
            i = i + 1;
        }
        None
    }

    /// Whether a row with `key` exists.
    pub fn contains_key(&self, key: &str) -> (b: bool)
        ensures
            b == self.model().contains_key(key@),
    {
        let k = key.to_owned();
        self.position(&k).is_some()
    }

    /// The value stored under `key`.
    pub fn get(&self, key: &str) -> (r: Option<&V>)
        ensures
            match r {
                Some(v) => self.model().contains_key(key@) && self.model()[key@] == v.deep_view(),
                None => !self.model().contains_key(key@),
            },
    {
        proof {
            use_type_invariant(self);
            self.lemma_model();
        }
        let k = key.to_owned();
        match self.position(&k) {
            Some(i) => Some(&self.rows[i].1),
            None => None,
        }
    }

    /// Stores `value` under `key`, replacing what was there.
    pub fn insert(&mut self, key: String, value: V)
        ensures
            final(self).model() == old(self).model().insert(key@, value.deep_view()),
            old(self).model().contains_key(key@) ==> final(self).keys() == old(self).keys(),
            !old(self).model().contains_key(key@) ==> final(self).keys() == old(self).keys().push(
                key@,
            ),
    {
        proof {
            use_type_invariant(&*self);
            self.lemma_model();
        }
        let found = self.position(&key);
        let ghost before = *self;
        let mut rows: Vec<(String, V)> = Vec::new();
        std::mem::swap(&mut rows, &mut self.rows);
        match found {
            Some(i) => {
                rows.set(i, (key, value));
            },
            None => {
                rows.push((key, value));
            },
        }
        let ghost keys_after = Seq::new(rows@.len(), |i: int| rows@[i].0@);
        proof {
            match found {
                Some(i) => {
                    assert(keys_after =~= before.keys());
                },
                None => {
                    assert(keys_after =~= before.keys().push(key@));
                    assert forall|a: int, b: int|
                        0 <= a < keys_after.len() && 0 <= b < keys_after.len() && a
                            != b implies keys_after[a] != keys_after[b] by {
                        if a < before.keys().len() {
                            assert(before.keys().contains(keys_after[a]));
                        }
                        if b < before.keys().len() {
                            assert(before.keys().contains(keys_after[b]));
                        }
                    }
                },
            }
        }
        self.rows = rows;
        proof {
            assert(self.keys() =~= keys_after);
            self.lemma_model();
            before.lemma_model();
            let want = before.model().insert(key@, value.deep_view());
            assert forall|q: Seq<char>| #[trigger]
                self.model().contains_key(q) == want.contains_key(q) by {
                let old_keys = before.keys();
                match found {
                    Some(i) => {
                        assert(old_keys[i as int] == key@);
                        assert(old_keys.contains(key@));
                    },
                    None => {
                        assert(self.keys()[old_keys.len() as int] == key@);
                        if old_keys.contains(q) {
                            let j = old_keys.index_of(q);
                            assert(self.keys()[j] == q);
                        }
                        if self.keys().contains(q) {
                            let j = self.keys().index_of(q);
                            if j < old_keys.len() {
                                assert(old_keys[j] == q);
                            }
                        }
                    },
                }
            }
            assert forall|q: Seq<char>| self.model().contains_key(q) implies #[trigger]
                self.model()[q] == want[q] by {
                let j = self.keys().index_of(q);
                assert(self.model()[self.keys()[j]] == self.values()[j]);
                if q != key@ {
                    assert(before.keys()[j] == q);
                    assert(before.model()[before.keys()[j]] == before.values()[j]);
                }
            }
            assert(self.model() =~= want);
        }
    }

    /// Key of row `i`.
    pub fn key_at(&self, i: usize) -> (k: &String)
        requires
            i < self.keys().len(),
        ensures
            k@ == self.keys()[i as int],
    {
        &self.rows[i].0
    }

    /// Value of row `i`.
    pub fn value_at(&self, i: usize) -> (v: &V)
        requires
            i < self.keys().len(),
        ensures
            v.deep_view() == self.values()[i as int],
    {
        &self.rows[i].1
    }
}

} // verus!
