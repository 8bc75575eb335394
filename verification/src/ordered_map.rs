use vstd::prelude::*;
use crate::keys::{clone_is_copy, eq_is_identity, lemma_eq_is_identity};

verus! {

/// A map that remembers the order in which its keys were inserted.
///
/// Keys and values are held side by side: the value of `keys[i]` is
/// `values[i]`, and no key occurs twice.
///
/// The keys are generic.  vstd specifies std's `HashMap` only for key types
/// whose `Hash` and `Eq` obey its key model (`obeys_key_model`), which
/// nothing can establish for a generic key type, so a `HashMap` here (or in
/// the data center and the file wrapper, which use this map) would have no
/// usable specification.  Looking keys up with `==` needs only that `==` is
/// spec equality, which the callers state.
pub struct OrderedMap<Key, Value> {
    keys: Vec<Key>,
    values: Vec<Value>,
}

impl<Key, Value> OrderedMap<Key, Value> {
    /// The keys, in their order.
    pub closed spec fn keys_view(&self) -> Seq<Key> {
        self.keys@
    }

    /// The values, each at the position of its key.
    pub closed spec fn values_view(&self) -> Seq<Value> {
        self.values@
    }

    /// Keys and values line up and no key occurs twice.
    pub closed spec fn wf(&self) -> bool {
        &&& self.keys@.len() == self.values@.len()
        &&& self.keys@.no_duplicates()
    }

    /// The map from each key to its value.
    pub open spec fn view(&self) -> Map<Key, Value> {
        Map::new(
            |k: Key| self.keys_view().contains(k),
            |k: Key| self.values_view()[self.keys_view().index_of(k)],
        )
    }

    pub broadcast proof fn lemma_wf_lengths(&self)
        requires
            #[trigger] self.wf(),
        ensures
            self.keys_view().len() == self.values_view().len(),
            self.keys_view().no_duplicates(),
    {
    }

    /// The value at position `i` belongs to the key at position `i`.
    pub proof fn lemma_view_at(&self, i: int)
        requires
            self.wf(),
            0 <= i < self.keys_view().len(),
        ensures
            self@.contains_key(self.keys_view()[i]),
            self@[self.keys_view()[i]] == self.values_view()[i],
            self.keys_view().index_of(self.keys_view()[i]) == i,
    {
        let k = self.keys_view()[i];
        assert(self.keys_view().contains(k));
        let j = self.keys_view().index_of(k);
        assert(self.keys_view()[j] == k);
    }

    pub fn new() -> (r: Self)
        ensures
            r.wf(),
            r.keys_view() == Seq::<Key>::empty(),
            r.values_view() == Seq::<Value>::empty(),
    {
        OrderedMap { keys: Vec::new(), values: Vec::new() }
    }

    /// The number of keys.
    pub fn len(&self) -> (r: usize)
        requires
            self.wf(),
        ensures
            r == self.keys_view().len(),
    {
        self.keys.len()
    }

    /// The position of `key` in the order, if it is present.
    pub fn position(&self, key: &Key) -> (r: Option<usize>)
        where Key: PartialEq
        requires
            self.wf(),
            eq_is_identity::<Key>(),
        ensures
            match r {
                Some(i) => i < self.keys_view().len() && self.keys_view()[i as int] == *key,
                None => !self.keys_view().contains(*key),
            },
    {
        proof { lemma_eq_is_identity::<Key>(); }
        let mut i: usize = 0;
        while i < self.keys.len()
            invariant
                i <= self.keys@.len(),
                eq_is_identity::<Key>(),
                forall|j: int| 0 <= j < i ==> self.keys@[j] != *key,
            decreases self.keys@.len() - i,
        {
            proof { lemma_eq_is_identity::<Key>(); }
            if self.keys[i] == *key {
                return Some(i);
            }
            i = i + 1;
        }
        None
    }

    /// Inserts `value` under `key`.  A new key goes to the end of the order;
    /// an existing key keeps its place, and its previous value is returned.
    pub fn insert(&mut self, key: Key, value: Value) -> (r: Option<Value>)
        where Key: PartialEq + Clone
        requires
            old(self).wf(),
            eq_is_identity::<Key>(),
        ensures
            final(self).wf(),
            final(self)@ == old(self)@.insert(key, value),
            old(self)@.contains_key(key) ==> r == Some(old(self)@[key]) && final(self).keys_view()
                == old(self).keys_view(),
            !old(self)@.contains_key(key) ==> r is None && final(self).keys_view() == old(
                self,
            ).keys_view().push(key),
    {
        let ghost old_map = self@;
        let ghost old_keys = self.keys@;
        let ghost old_values = self.values@;
        let ghost v0 = value;
        match self.position(&key) {
            Some(i) => {
                let mut value = value;
                std::mem::swap(&mut self.values[i], &mut value);
                proof {
                    assert(self.values@ == old_values.update(i as int, v0));
                    self.lemma_view_at(i as int);
                    assert forall|k: Key| #[trigger] self@.contains_key(k) implies self@[k]
                        == old_map.insert(key, v0)[k] by {
                        let j = self.keys@.index_of(k);
                        self.lemma_view_at(j);
                        if k != key {
                            assert(j != i);
                        }
                    }
                    assert(self@ =~= old_map.insert(key, v0));
                    assert(old_map[key] == old_values[i as int]);
                }
                Some(value)
            },
            None => {
                self.keys.push(key);
                self.values.push(value);
                proof {
                    assert(self.keys@.no_duplicates()) by {
                        assert forall|a: int, b: int| 0 <= a < b < self.keys@.len() implies self.keys@[a]
                            != self.keys@[b] by {
                            if b == old_keys.len() {
                                assert(old_keys.contains(self.keys@[a]) || a >= old_keys.len());
                            }
                        }
                    }
                    assert forall|k: Key| #[trigger] self@.contains_key(k) implies self@[k]
                        == old_map.insert(key, v0)[k] by {
                        let j = self.keys@.index_of(k);
                        self.lemma_view_at(j);
                        if k != key {
                            assert(old_keys.contains(k)) by {
                                assert(old_keys[j] == k);
                            }
                            let j0 = old_keys.index_of(k);
                            assert(old_keys[j0] == k);
                            assert(self.keys@[j0] == k);
                        } else {
                            assert(self.keys@[old_keys.len() as int] == key);
                        }
                    }
                    assert forall|k: Key| #[trigger] self@.contains_key(k) == old_map.insert(key, v0).contains_key(k) by {
                        if old_keys.contains(k) {
                            let j = old_keys.index_of(k);
                            assert(self.keys@[j] == k);
                        }
                        if k == key {
                            assert(self.keys@[old_keys.len() as int] == key);
                        }
                        if self.keys@.contains(k) {
                            let j = self.keys@.index_of(k);
                            if j < old_keys.len() {
                                assert(old_keys[j] == k);
                            }
                        }
                    }
                    assert(self@ =~= old_map.insert(key, v0));
                }
                None
            },
        }
    }

    /// Removes `key` and returns its value; the other keys keep their order.
    pub fn remove(&mut self, key: &Key) -> (r: Option<Value>)
        where Key: PartialEq
        requires
            old(self).wf(),
            eq_is_identity::<Key>(),
        ensures
            final(self).wf(),
            final(self)@ == old(self)@.remove(*key),
            old(self)@.contains_key(*key) ==> r == Some(old(self)@[*key]) && final(self).keys_view()
                == old(self).keys_view().remove(old(self).keys_view().index_of(*key)),
            !old(self)@.contains_key(*key) ==> r is None && final(self).keys_view() == old(
                self,
            ).keys_view(),
    {
        let ghost old_map = self@;
        match self.position(key) {
            Some(i) => {
                proof { self.lemma_view_at(i as int); }
                let (_k, v) = self.remove_at(i);
                Some(v)
            },
            None => {
                proof {
                    assert(self@ =~= old_map.remove(*key));
                }
                None
            },
        }
    }

    /// Removes the entry at position `i`; the other keys keep their order.
    pub fn remove_at(&mut self, i: usize) -> (r: (Key, Value))
        requires
            old(self).wf(),
            i < old(self).keys_view().len(),
        ensures
            final(self).wf(),
            r.0 == old(self).keys_view()[i as int],
            r.1 == old(self).values_view()[i as int],
            final(self).keys_view() == old(self).keys_view().remove(i as int),
            final(self).values_view() == old(self).values_view().remove(i as int),
            final(self)@ == old(self)@.remove(r.0),
    {
        let ghost old_map = self@;
        let ghost old_keys = self.keys@;
        let ghost old_values = self.values@;
        proof { self.lemma_view_at(i as int); }
        let k = self.keys.remove(i);
        let v = self.values.remove(i);
        proof {
            assert(self.keys@.no_duplicates()) by {
                assert forall|a: int, b: int| 0 <= a < b < self.keys@.len() implies self.keys@[a]
                    != self.keys@[b] by {
                    let a0 = if a < i { a } else { a + 1 };
                    let b0 = if b < i { b } else { b + 1 };
                    assert(self.keys@[a] == old_keys[a0]);
                    assert(self.keys@[b] == old_keys[b0]);
                }
            }
            assert forall|x: Key| #[trigger] self@.contains_key(x) == old_map.remove(k).contains_key(x) by {
                if self.keys@.contains(x) {
                    let j = self.keys@.index_of(x);
                    let j0 = if j < i { j } else { j + 1 };
                    assert(old_keys[j0] == x);
                    assert(j0 != i);
                }
                if old_keys.contains(x) && x != k {
                    let j0 = old_keys.index_of(x);
                    assert(j0 != i);
                    let j = if j0 < i { j0 } else { j0 - 1 };
                    assert(self.keys@[j] == x);
                }
            }
            assert forall|x: Key| #[trigger] self@.contains_key(x) implies self@[x]
                == old_map.remove(k)[x] by {
                let j = self.keys@.index_of(x);
                self.lemma_view_at(j);
                let j0 = if j < i { j } else { j + 1 };
                assert(old_keys[j0] == x);
                assert(old_values[j0] == self.values@[j]);
                assert(old_keys.index_of(x) == j0) by {
                    let t = old_keys.index_of(x);
                    assert(old_keys.contains(x));
                    assert(old_keys[t] == x);
                }
            }
            assert(self@ =~= old_map.remove(k));
        }
        (k, v)
    }

    /// The value under `key`, if present.
    pub fn get(&self, key: &Key) -> (r: Option<&Value>)
        where Key: PartialEq
        requires
            self.wf(),
            eq_is_identity::<Key>(),
        ensures
            match r {
                Some(v) => self@.contains_key(*key) && *v == self@[*key],
                None => !self@.contains_key(*key),
            },
    {
        match self.position(key) {
            Some(i) => {
                proof { self.lemma_view_at(i as int); }
                Some(&self.values[i])
            },
            None => None,
        }
    }

    /// The value under `key` for changing in place, if present.
    pub fn get_mut(&mut self, key: &Key) -> (r: Option<&mut Value>)
        where Key: PartialEq
        requires
            old(self).wf(),
            eq_is_identity::<Key>(),
        ensures
            r is Some <==> old(self)@.contains_key(*key),
            r matches Some(v) ==> *v == old(self)@[*key],
            r matches Some(v) ==> final(self)@ == old(self)@.insert(*key, *final(v)),
            final(self).wf(),
            final(self).keys_view() == old(self).keys_view(),
            r is None ==> final(self)@ == old(self)@,
    {
        match self.position(key) {
            Some(i) => {
                proof { self.lemma_view_at(i as int); }
                Some(&mut self.values[i])
            },
            None => None,
        }
    }

    /// Swaps the places of `k1` and `k2` in the order, if both are present.
    pub fn swap(&mut self, k1: &Key, k2: &Key)
        where Key: PartialEq
        requires
            old(self).wf(),
            eq_is_identity::<Key>(),
        ensures
            final(self).wf(),
            final(self)@ == old(self)@,
            old(self)@.contains_key(*k1) && old(self)@.contains_key(*k2) ==> final(self).keys_view()
                == old(self).keys_view().update(old(self).keys_view().index_of(*k1), *k2).update(
                old(self).keys_view().index_of(*k2),
                *k1,
            ),
            !(old(self)@.contains_key(*k1) && old(self)@.contains_key(*k2)) ==> final(self).keys_view()
                == old(self).keys_view(),
    {
        let ghost old_map = self@;
        let ghost old_keys = self.keys@;
        let ghost old_values = self.values@;
        let i1 = self.position(k1);
        let i2 = self.position(k2);
        if let (Some(i1), Some(i2)) = (i1, i2) {
            proof {
                self.lemma_view_at(i1 as int);
                self.lemma_view_at(i2 as int);
            }
            if i1 != i2 {
                let (a, b) = if i1 < i2 { (i1, i2) } else { (i2, i1) };
                self.swap_at(a, b);
                proof {
                    Self::lemma_swapped_view(old(self), self, a as int, b as int);
                    assert(self.keys@ =~= old_keys.update(i1 as int, *k2).update(i2 as int, *k1));
                }
            } else {
                proof {
                    assert(old_keys.update(i1 as int, *k2).update(i2 as int, *k1) =~= old_keys);
                }
            }
        }
    }

    /// Exchanges the entries at positions `a` and `b`.
    fn swap_at(&mut self, a: usize, b: usize)
        requires
            old(self).wf(),
            a < b < old(self).keys_view().len(),
        ensures
            final(self).keys_view() == old(self).keys_view().update(a as int, old(self).keys_view()[b as int]).update(
                b as int,
                old(self).keys_view()[a as int],
            ),
            final(self).values_view() == old(self).values_view().update(a as int, old(self).values_view()[b as int]).update(
                b as int,
                old(self).values_view()[a as int],
            ),
    {
        let ghost old_keys = self.keys@;
        let ghost old_values = self.values@;
        let kb = self.keys.remove(b);
        let ka = self.keys.remove(a);
        self.keys.insert(a, kb);
        self.keys.insert(b, ka);
        let vb = self.values.remove(b);
        let va = self.values.remove(a);
        self.values.insert(a, vb);
        self.values.insert(b, va);
        assert(self.keys@ =~= old_keys.update(a as int, old_keys[b as int]).update(b as int, old_keys[a as int]));
        assert(self.values@ =~= old_values.update(a as int, old_values[b as int]).update(b as int, old_values[a as int]));
    }

    /// Exchanging two entries keeps the map and its well-formedness.
    proof fn lemma_swapped_view(pre: &Self, post: &Self, a: int, b: int)
        requires
            pre.wf(),
            0 <= a < b < pre.keys_view().len(),
            post.keys_view() == pre.keys_view().update(a, pre.keys_view()[b]).update(b, pre.keys_view()[a]),
            post.values_view() == pre.values_view().update(a, pre.values_view()[b]).update(b, pre.values_view()[a]),
        ensures
            post.wf(),
            post@ == pre@,
    {
        let old_keys = pre.keys_view();
        let old_values = pre.values_view();
        let new_keys = post.keys_view();
        assert(new_keys.no_duplicates()) by {
            assert forall|x: int, y: int| 0 <= x < y < new_keys.len() implies new_keys[x] != new_keys[y] by {
                let x0 = if x == a { b } else if x == b { a } else { x };
                let y0 = if y == a { b } else if y == b { a } else { y };
                assert(new_keys[x] == old_keys[x0]);
                assert(new_keys[y] == old_keys[y0]);
            }
        }
        assert forall|k: Key| #[trigger] post@.contains_key(k) == pre@.contains_key(k) by {
            if new_keys.contains(k) {
                let j = new_keys.index_of(k);
                let j0 = if j == a { b } else if j == b { a } else { j };
                assert(old_keys[j0] == k);
            }
            if old_keys.contains(k) {
                let j0 = old_keys.index_of(k);
                let j = if j0 == a { b } else if j0 == b { a } else { j0 };
                assert(new_keys[j] == k);
            }
        }
        assert forall|k: Key| #[trigger] post@.contains_key(k) implies post@[k] == pre@[k] by {
            let j = new_keys.index_of(k);
            post.lemma_view_at(j);
            let j0 = if j == a { b } else if j == b { a } else { j };
            assert(old_keys[j0] == k);
            pre.lemma_view_at(j0);
        }
        assert(post@ =~= pre@);
    }

    /// The key at position `i` and its value for changing in place.
    pub fn get_index_mut(&mut self, i: usize) -> (r: (&Key, &mut Value))
        requires
            old(self).wf(),
            i < old(self).keys_view().len(),
        ensures
            *r.0 == old(self).keys_view()[i as int],
            *r.1 == old(self).values_view()[i as int],
            final(self).keys_view() == old(self).keys_view(),
            final(self).values_view() == old(self).values_view().update(i as int, *final(r.1)),
            final(self).wf(),
    {
        (&self.keys[i], &mut self.values[i])
    }

    /// The value at position `i`, for changing in place.
    pub fn value_at_mut(&mut self, i: usize) -> (r: &mut Value)
        requires
            old(self).wf(),
            i < old(self).keys_view().len(),
        ensures
            *r == old(self).values_view()[i as int],
            final(self).keys_view() == old(self).keys_view(),
            final(self).values_view() == old(self).values_view().update(i as int, *final(r)),
            final(self).wf(),
    {
        &mut self.values[i]
    }

    /// The keys, and the values for changing in place, side by side in the
    /// order of the keys.
    pub fn iter_mut(&mut self) -> (r: (&[Key], &mut [Value]))
        requires
            old(self).wf(),
        ensures
            r.0@ == old(self).keys_view(),
            r.1@ == old(self).values_view(),
            final(self).keys_view() == old(self).keys_view(),
            final(self).values_view() == final(r.1)@,
            final(r.1)@.len() == r.1@.len() ==> final(self).wf(),
    {
        (self.keys.as_slice(), self.values.as_mut_slice())
    }

    /// The keys and the values, side by side in the order of the keys.
    pub fn iter(&self) -> (r: (&[Key], &[Value]))
        requires
            self.wf(),
        ensures
            r.0@ == self.keys_view(),
            r.1@ == self.values_view(),
    {
        (self.keys.as_slice(), self.values.as_slice())
    }
}

/// Reading a key right after inserting it gives the inserted value.
pub proof fn law_get_after_insert<Key, Value>(
    before: Map<Key, Value>,
    after: Map<Key, Value>,
    key: Key,
    value: Value,
)
    requires
        after == before.insert(key, value),
    ensures
        after.contains_key(key),
        after[key] == value,
        forall|k: Key| k != key ==> (#[trigger] after.contains_key(k) == before.contains_key(k)),
        forall|k: Key| k != key && before.contains_key(k) ==> #[trigger] after[k] == before[k],
{
}

/// Removing a key that was just inserted as a new key restores both the
/// map and the order of its keys.
pub proof fn law_remove_undoes_insert<Key, Value>(
    m0: OrderedMap<Key, Value>,
    m1: OrderedMap<Key, Value>,
    m2: OrderedMap<Key, Value>,
    key: Key,
    value: Value,
)
    requires
        m0.wf(),
        !m0@.contains_key(key),
        m1@ == m0@.insert(key, value),
        m1.keys_view() == m0.keys_view().push(key),
        m2@ == m1@.remove(key),
        m2.keys_view() == m1.keys_view().remove(m1.keys_view().index_of(key)),
    ensures
        m2@ == m0@,
        m2.keys_view() == m0.keys_view(),
{
    let keys1 = m1.keys_view();
    let n = m0.keys_view().len() as int;
    assert(keys1[n] == key);
    assert(keys1.index_of(key) == n) by {
        let t = keys1.index_of(key);
        assert(keys1.contains(key));
        assert(keys1[t] == key);
        if t < n {
            assert(m0.keys_view()[t] == key);
            assert(m0.keys_view().contains(key));
        }
    }
    assert(m2.keys_view() =~= m0.keys_view());
    assert(m2@ =~= m0@);
}

/// Swapping the same two keys twice restores the order.
pub proof fn law_swap_twice<Key>(keys: Seq<Key>, k1: Key, k2: Key)
    requires
        keys.no_duplicates(),
        keys.contains(k1),
        keys.contains(k2),
    ensures
        ({
            let once = keys.update(keys.index_of(k1), k2).update(keys.index_of(k2), k1);
            once.update(once.index_of(k1), k2).update(once.index_of(k2), k1) == keys
        }),
{
    let i1 = keys.index_of(k1);
    let i2 = keys.index_of(k2);
    assert(keys[i1] == k1);
    assert(keys[i2] == k2);
    let once = keys.update(i1, k2).update(i2, k1);
    if i1 == i2 {
        assert(once =~= keys);
        assert(once.index_of(k1) == i1) by {
            let t = once.index_of(k1);
            assert(once.contains(k1));
        }
        assert(once.update(once.index_of(k1), k2).update(once.index_of(k2), k1) =~= keys);
    } else {
        assert(once[i2] == k1);
        assert(once[i1] == k2);
        assert(once.index_of(k1) == i2) by {
            assert(once.contains(k1));
            let t = once.index_of(k1);
            assert(once[t] == k1);
            if t != i2 {
                if t == i1 {
                } else {
                    assert(keys[t] == k1);
                }
            }
        }
        assert(once.index_of(k2) == i1) by {
            assert(once.contains(k2));
            let t = once.index_of(k2);
            assert(once[t] == k2);
            if t != i1 {
                if t == i2 {
                } else {
                    assert(keys[t] == k2);
                }
            }
        }
        assert(once.update(i2, k2).update(i1, k1) =~= keys);
    }
}

impl<Key, Value> Default for OrderedMap<Key, Value> {
    fn default() -> (r: Self)
        ensures
            r.wf(),
            r.keys_view() == Seq::<Key>::empty(),
            r.values_view() == Seq::<Value>::empty(),
    {
        OrderedMap::new()
    }
}

} // verus!
