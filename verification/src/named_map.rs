//! A map from names to values that keeps its entries in the order in which
//! their names were first inserted.

use vstd::prelude::*;

verus! {

/// The index of the first entry of `m` named `k`.
pub open spec fn key_index<K, V>(m: Seq<(K, V)>, k: K) -> Option<int>
    decreases m.len(),
{
    if m.len() == 0 {
        None
    } else {
        match key_index(m.drop_last(), k) {
            Some(i) => Some(i),
            None => if m.last().0 == k {
                Some(m.len() - 1)
            } else {
                None
            },
        }
    }
}

/// The value of the entry of `m` named `k`.
pub open spec fn lookup<K, V>(m: Seq<(K, V)>, k: K) -> Option<V> {
    match key_index(m, k) {
        Some(i) => Some(m[i].1),
        None => None,
    }
}

/// `m` with the value named `k` set to `v`: the entry named `k` changes in
/// place, or a new entry is added at the end.
pub open spec fn assoc_insert<K, V>(m: Seq<(K, V)>, k: K, v: V) -> Seq<(K, V)> {
    match key_index(m, k) {
        Some(i) => m.update(i, (k, v)),
        None => m.push((k, v)),
    }
}

/// Whether no two entries of `m` have the same name.
pub open spec fn distinct_keys<K, V>(m: Seq<(K, V)>) -> bool {
    forall|i: int, j: int| 0 <= i < j < m.len() ==> #[trigger] m[i].0 != #[trigger] m[j].0
}

/// `key_index` finds the first entry with the name, and only such an entry.
pub proof fn lemma_key_index<K, V>(m: Seq<(K, V)>, k: K)
    ensures
        match key_index(m, k) {
            Some(i) => 0 <= i < m.len() && m[i].0 == k && forall|j: int|
                0 <= j < i ==> #[trigger] m[j].0 != k,
            None => forall|j: int| 0 <= j < m.len() ==> #[trigger] m[j].0 != k,
        },
    decreases m.len(),
{
    if m.len() > 0 {
        let d = m.drop_last();
        lemma_key_index(d, k);
        assert forall|j: int| 0 <= j < m.len() - 1 implies m[j] == #[trigger] d[j] by {}
        match key_index(d, k) {
            Some(i) => {
                assert forall|j: int| 0 <= j < i implies #[trigger] m[j].0 != k by {
                    assert(m[j] == d[j]);
                }
            },
            None => {
                assert forall|j: int| 0 <= j < m.len() - 1 implies #[trigger] m[j].0 != k by {
                    assert(m[j] == d[j]);
                }
            },
        }
    }
}

/// After setting `k` to `v`, looking up `k` gives `v`, and looking up any
/// other key gives what it gave before.
pub proof fn lemma_lookup_after_insert<K, V>(m: Seq<(K, V)>, k: K, v: V, other: K)
    ensures
        lookup(assoc_insert(m, k, v), k) == Some(v),
        other != k ==> lookup(assoc_insert(m, k, v), other) == lookup(m, other),
{
    let m2 = assoc_insert(m, k, v);
    lemma_key_index(m, k);
    lemma_key_index(m2, k);
    lemma_key_index(m, other);
    lemma_key_index(m2, other);
    match key_index(m, k) {
        Some(i) => {
            assert(m2[i].0 == k);
            assert forall|j: int| 0 <= j < i implies #[trigger] m2[j].0 != k by {
                assert(m2[j] == m[j]);
            }
            if other != k {
                assert forall|j: int| 0 <= j < m2.len() implies (#[trigger] m2[j]).0 == m[j].0 by {
                    if j != i {
                        assert(m2[j] == m[j]);
                    }
                }
                match key_index(m, other) {
                    Some(x) => {
                        assert(m2[x].0 == other);
                        assert(x != i);
                        assert(m2[x] == m[x]);
                        match key_index(m2, other) {
                            Some(y) => {
                                assert(m2[y].0 == m[y].0);
                                if y < x {
                                    assert(m[y].0 != other);
                                }
                            },
                            None => {
                                assert(m2[x].0 != other);
                            },
                        }
                    },
                    None => {
                        match key_index(m2, other) {
                            Some(y) => {
                                assert(m2[y].0 == m[y].0);
                            },
                            None => {},
                        }
                    },
                }
            }
        },
        None => {
            assert(m2[m.len() as int].0 == k);
            assert forall|j: int| 0 <= j < m.len() implies #[trigger] m2[j] == m[j] by {}
            if other != k {
                match key_index(m, other) {
                    Some(x) => {
                        assert(m2[x] == m[x]);
                        match key_index(m2, other) {
                            Some(y) => {
                                if y < x {
                                    assert(m2[y] == m[y]);
                                }
                            },
                            None => {},
                        }
                    },
                    None => {
                        match key_index(m2, other) {
                            Some(y) => {
                                if y < m.len() {
                                    assert(m2[y] == m[y]);
                                }
                            },
                            None => {},
                        }
                    },
                }
            }
        },
    }
}

/// Setting a value keeps the names of the entries distinct, and adds an
/// entry only for a new name.
pub proof fn lemma_insert_keeps_keys_distinct<K, V>(m: Seq<(K, V)>, k: K, v: V)
    requires
        distinct_keys(m),
    ensures
        distinct_keys(assoc_insert(m, k, v)),
        assoc_insert(m, k, v).len() == m.len() + (if key_index(m, k) is Some {
            0int
        } else {
            1int
        }),
{
    lemma_key_index(m, k);
    let m2 = assoc_insert(m, k, v);
    match key_index(m, k) {
        Some(i) => {
            assert forall|a: int, b: int| 0 <= a < b < m2.len() implies #[trigger] m2[a].0
                != #[trigger] m2[b].0 by {
                assert(m2[a].0 == m[a].0 && m2[b].0 == m[b].0);
            }
        },
        None => {
            assert forall|a: int, b: int| 0 <= a < b < m2.len() implies #[trigger] m2[a].0
                != #[trigger] m2[b].0 by {
                if b == m.len() {
                    assert(m2[a] == m[a]);
                } else {
                    assert(m2[a] == m[a] && m2[b] == m[b]);
                }
            }
        },
    }
}

/// A map from names to values, in the order in which the names were first
/// inserted; no two entries share a name.
pub struct NamedMap<T: View> {
    entries: Vec<(String, T)>,
}

impl<T: View> View for NamedMap<T> {
    type V = Seq<(Seq<char>, T::V)>;

    closed spec fn view(&self) -> Seq<(Seq<char>, T::V)> {
        self.entries@.map_values(|e: (String, T)| (e.0@, e.1@))
    }
}

impl<T: View> NamedMap<T> {
    /// No two entries have the same name.
    #[verifier::type_invariant]
    spec fn names_distinct(&self) -> bool {
        distinct_keys(self@)
    }

    /// An empty map.
    pub fn new() -> (res: Self)
        ensures
            res@ == Seq::<(Seq<char>, T::V)>::empty(),
            distinct_keys(res@),
    {
        let res = NamedMap { entries: Vec::new() };
        assert(res@ =~= Seq::<(Seq<char>, T::V)>::empty());
        res
    }

    /// The number of entries.
    pub fn len(&self) -> (res: usize)
        ensures
            res == self@.len(),
    {
        self.entries.len()
    }

    /// The index of the entry named `key`, if there is one.
    pub fn index_of(&self, key: &str) -> (res: Option<usize>)
        ensures
            match res {
                Some(i) => key_index(self@, key@) == Some(i as int),
                None => key_index(self@, key@) is None,
            },
    {
        proof {
            lemma_key_index(self@, key@);
        }
        let target = String::from_str(key);
        let mut i: usize = 0;
        while i < self.entries.len()
            invariant
                self@.len() == self.entries@.len(),
                i <= self.entries@.len(),
                target@ == key@,
                forall|j: int| 0 <= j < i ==> #[trigger] self@[j].0 != key@,
                match key_index(self@, key@) {
                    Some(x) => 0 <= x < self@.len() && self@[x].0 == key@ && forall|j: int|
                        0 <= j < x ==> #[trigger] self@[j].0 != key@,
                    None => forall|j: int| 0 <= j < self@.len() ==> #[trigger] self@[j].0 != key@,
                },
            decreases self.entries@.len() - i,
        {
            if self.entries[i].0 == target {
                assert(self@[i as int].0 == key@);
                return Some(i);
            }
            assert(self@[i as int].0 != key@);
            i += 1;
        }
        None
    }

    /// Whether an entry is named `key`.
    pub fn contains_key(&self, key: &str) -> (res: bool)
        ensures
            res == (key_index(self@, key@) is Some),
    {
        self.index_of(key).is_some()
    }

    /// The value named `key`, if any.
    pub fn get(&self, key: &str) -> (res: Option<&T>)
        ensures
            match lookup(self@, key@) {
                Some(v) => res matches Some(r) && r@ == v,
                None => res is None,
            },
    {
        proof {
            lemma_key_index(self@, key@);
        }
        match self.index_of(key) {
            Some(i) => {
                assert(self@[i as int] == (self.entries@[i as int].0@, self.entries@[i as int].1@));
                Some(&self.entries[i].1)
            },
            None => None,
        }
    }

    /// The name of entry `i`.
    pub fn key_at(&self, i: usize) -> (res: &String)
        requires
            i < self@.len(),
        ensures
            res@ == self@[i as int].0,
    {
        &self.entries[i].0
    }

    /// The value of entry `i`.
    pub fn value_at(&self, i: usize) -> (res: &T)
        requires
            i < self@.len(),
        ensures
            res@ == self@[i as int].1,
    {
        &self.entries[i].1
    }

    /// Sets the value named `key` to `value`: an existing entry changes in
    /// place, otherwise the entry is added at the end.
    pub fn insert(&mut self, key: String, value: T)
        ensures
            final(self)@ == assoc_insert(old(self)@, key@, value@),
            distinct_keys(final(self)@),
    {
        let ghost before = self@;
        let ghost k = key@;
        let ghost v = value@;
        proof {
            use_type_invariant(&*self);
            lemma_key_index(before, k);
            lemma_insert_keeps_keys_distinct(before, k, v);
        }
        let found = self.index_of(key.as_str());
        let mut entries: Vec<(String, T)> = Vec::new();
        std::mem::swap(&mut entries, &mut self.entries);
        assert(entries@.map_values(|e: (String, T)| (e.0@, e.1@)) == before);
        match found {
            Some(i) => {
                let mut e = (key, value);
                entries.set_and_swap(i, &mut e);
            },
            None => {
                entries.push((key, value));
            },
        }
        assert(entries@.map_values(|e: (String, T)| (e.0@, e.1@)) =~= assoc_insert(before, k, v));
        self.entries = entries;
    }

    /// Exchanges the value of entry `i` with `value`.
    pub fn swap_value(&mut self, i: usize, value: &mut T)
        requires
            i < old(self)@.len(),
        ensures
            final(self)@ == old(self)@.update(i as int, (old(self)@[i as int].0, old(value)@)),
            final(value)@ == old(self)@[i as int].1,
            distinct_keys(final(self)@),
    {
        let ghost before = self@;
        proof {
            use_type_invariant(&*self);
        }
        let mut entries: Vec<(String, T)> = Vec::new();
        std::mem::swap(&mut entries, &mut self.entries);
        assert(entries@.map_values(|e: (String, T)| (e.0@, e.1@)) == before);
        let e = &mut entries[i];
        std::mem::swap(&mut e.1, value);
        assert(entries@.map_values(|e: (String, T)| (e.0@, e.1@)) =~= before.update(
            i as int,
            (before[i as int].0, old(value)@),
        ));
        self.entries = entries;
        proof {
            use_type_invariant(&*self);
        }
    }
}

} // verus!
