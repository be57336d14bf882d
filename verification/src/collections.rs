//! A small map keyed by strings, kept as two parallel vectors in which no
//! key stands twice.

use crate::text::str_eq;
use vstd::prelude::*;

verus! {

/// A map from strings to values of type `T`.
pub struct StringMap<T> {
    keys: Vec<String>,
    values: Vec<T>,
}

impl<T> View for StringMap<T> {
    type V = Map<Seq<char>, T>;

    closed spec fn view(&self) -> Map<Seq<char>, T> {
        Map::new(
            |k: Seq<char>| self.order().contains(k),
            |k: Seq<char>| self.values@[self.order().index_of(k)],
        )
    }
}

impl<T> StringMap<T> {
    /// The keys in the order in which the map holds them.
    pub closed spec fn order(&self) -> Seq<Seq<char>> {
        Seq::new(self.keys@.len(), |i: int| self.keys@[i]@)
    }

    /// The values, each at the position of its key in `order`.
    pub closed spec fn items(&self) -> Seq<T> {
        self.values@
    }

    /// The map's invariant: a value for each key, and no key twice.
    pub closed spec fn wf(&self) -> bool {
        &&& self.keys@.len() == self.values@.len()
        &&& self.order().no_duplicates()
    }

    /// How the order, the items and the view belong together.
    pub proof fn lemma_view(&self)
        requires
            self.wf(),
        ensures
            self.order().len() == self.items().len(),
            self.order().no_duplicates(),
            self@.dom().finite(),
            self@.dom().len() == self.order().len(),
            forall|k: Seq<char>| self@.contains_key(k) <==> self.order().contains(k),
            forall|i: int|
                0 <= i < self.order().len() ==> self@.contains_key(#[trigger] self.order()[i])
                    && self@[self.order()[i]] == self.items()[i],
    {
        let o = self.order();
        assert forall|i: int| 0 <= i < o.len() implies self@.contains_key(#[trigger] o[i])
            && self@[o[i]] == self.items()[i] by {
            assert(o.contains(o[i]));
            o.index_of_first_ensures(o[i]);
        }
        assert(self@.dom() =~= o.to_set());
        o.unique_seq_to_set();
    }

    /// An empty map.
    pub fn new() -> (r: Self)
        ensures
            r.wf(),
            r@ == Map::<Seq<char>, T>::empty(),
            r.order().len() == 0,
    {
        let r = StringMap { keys: Vec::new(), values: Vec::new() };
        assert(r@ =~= Map::<Seq<char>, T>::empty());
        r
    }

    /// The number of keys.
    pub fn len(&self) -> (r: usize)
        requires
            self.wf(),
        ensures
            r == self.order().len(),
            r == self@.dom().len(),
    {
        proof {
            self.lemma_view();
        }
        self.keys.len()
    }

    /// Where `key` stands in the order, if the map holds it.
    pub fn position(&self, key: &str) -> (r: Option<usize>)
        requires
            self.wf(),
        ensures
            match r {
                Some(i) => i < self.order().len() && self.order()[i as int] == key@,
                None => !self@.contains_key(key@),
            },
    {
        let mut i: usize = 0;
        while i < self.keys.len()
            invariant
                i <= self.keys.len(),
                forall|j: int| 0 <= j < i ==> self.order()[j] != key@,
            decreases self.keys.len() - i,
        {
            if str_eq(self.keys[i].as_str(), key) {
                return Some(i);
            }
            i = i + 1;
        }
        proof {
            self.lemma_view();
        }
        None
    }

    /// Whether the map holds `key`.
    pub fn contains_key(&self, key: &str) -> (r: bool)
        requires
            self.wf(),
        ensures
            r == self@.contains_key(key@),
    {
        proof {
            self.lemma_view();
        }
        self.position(key).is_some()
    }

    /// The value at `key`.
    pub fn get(&self, key: &str) -> (r: Option<&T>)
        requires
            self.wf(),
        ensures
            match r {
                Some(v) => self@.contains_key(key@) && self@[key@] == *v,
                None => !self@.contains_key(key@),
            },
    {
        proof {
            self.lemma_view();
        }
        match self.position(key) {
            Some(i) => Some(&self.values[i]),
            None => None,
        }
    }

    /// The key at position `i` of the order.
    pub fn key_at(&self, i: usize) -> (r: &String)
        requires
            self.wf(),
            i < self.order().len(),
        ensures
            r@ == self.order()[i as int],
    {
        &self.keys[i]
    }

    /// The value at position `i` of the order.
    pub fn value_at(&self, i: usize) -> (r: &T)
        requires
            self.wf(),
            i < self.order().len(),
        ensures
            *r == self.items()[i as int],
            self@.contains_key(self.order()[i as int]),
            *r == self@[self.order()[i as int]],
    {
        proof {
            self.lemma_view();
        }
        &self.values[i]
    }

    /// Puts `value` at `key` and returns what stood there before. A key that
    /// the map held keeps its place in the order; a new key goes to the end.
    pub fn insert(&mut self, key: String, value: T) -> (r: Option<T>)
        requires
            old(self).wf(),
        ensures
            final(self).wf(),
            final(self)@ == old(self)@.insert(key@, value),
            match r {
                Some(v) => old(self)@.contains_key(key@) && old(self)@[key@] == v && final(self).order() == old(self).order(),
                None => !old(self)@.contains_key(key@) && final(self).order() == old(self).order().push(key@),
            },
    {
        proof {
            self.lemma_view();
        }
        let ghost before = *self;
        match self.position(key.as_str()) {
            Some(i) => {
                self.values.push(value);
                let previous = self.values.swap_remove(i);
                proof {
                    assert(self.order() =~= before.order());
                    self.lemma_view();
                    assert forall|k: Seq<char>| self@.contains_key(k) implies #[trigger] self@[k]
                        == before@.insert(key@, value)[k] by {
                        let j = self.order().index_of(k);
                        self.order().index_of_first_ensures(k);
                        before.order().index_of_first_ensures(k);
                    }
                    assert(self@ =~= before@.insert(key@, value));
                }
                Some(previous)
            },
            None => {
                self.keys.push(key);
                self.values.push(value);
                proof {
                    assert(self.order() =~= before.order().push(key@));
                    assert(self.order().no_duplicates()) by {
                        assert forall|a: int, b: int|
                            0 <= a < self.order().len() && 0 <= b < self.order().len() && a
                                != b implies self.order()[a] != self.order()[b] by {
                            if a < before.order().len() {
                                assert(before.order().contains(before.order()[a]));
                            }
                            if b < before.order().len() {
                                assert(before.order().contains(before.order()[b]));
                            }
                        }
                    }
                    self.lemma_view();
                    assert forall|k: Seq<char>|
                        self@.contains_key(k) <==> before@.insert(key@, value).contains_key(
                            k,
                        ) by {
                        if self.order().contains(k) {
                            let j = self.order().index_of(k);
                            self.order().index_of_first_ensures(k);
                            if j < before.order().len() {
                                assert(before.order()[j] == k);
                            }
                        }
                        if before.order().contains(k) {
                            let j = before.order().index_of(k);
                            before.order().index_of_first_ensures(k);
                            assert(self.order()[j] == k);
                        }
                        if k == key@ {
                            assert(self.order()[before.order().len() as int] == k);
                        }
                    }
                    assert forall|k: Seq<char>| self@.contains_key(k) implies #[trigger] self@[k]
                        == before@.insert(key@, value)[k] by {
                        let j = self.order().index_of(k);
                        self.order().index_of_first_ensures(k);
                        if j < before.order().len() {
                            assert(before.order()[j] == k);
                            assert(before.order().contains(k));
                            before.order().index_of_first_ensures(k);
                        }
                    }
                    assert(self@ =~= before@.insert(key@, value));
                }
                None
            },
        }
    }

    /// Takes `key` out of the map and returns its value. The other keys keep
    /// their order.
    pub fn remove(&mut self, key: &str) -> (r: Option<T>)
        requires
            old(self).wf(),
        ensures
            final(self).wf(),
            final(self)@ == old(self)@.remove(key@),
            match r {
                Some(v) => old(self)@.contains_key(key@) && old(self)@[key@] == v,
                None => !old(self)@.contains_key(key@) && final(self).order() == old(self).order(),
            },
    {
        proof {
            self.lemma_view();
        }
        let ghost before = *self;
        match self.position(key) {
            Some(i) => {
                let _ = self.keys.remove(i);
                let value = self.values.remove(i);
                proof {
                    let bo = before.order();
                    assert(self.order() =~= bo.remove(i as int));
                    assert(self.order().no_duplicates()) by {
                        assert forall|a: int, b: int|
                            0 <= a < self.order().len() && 0 <= b < self.order().len() && a
                                != b implies self.order()[a] != self.order()[b] by {
                            let a0 = if a < i { a } else { a + 1 };
                            let b0 = if b < i { b } else { b + 1 };
                            assert(self.order()[a] == bo[a0]);
                            assert(self.order()[b] == bo[b0]);
                        }
                    }
                    self.lemma_view();
                    assert forall|k: Seq<char>|
                        self@.contains_key(k) <==> before@.remove(key@).contains_key(k) by {
                        if self.order().contains(k) {
                            let j = self.order().index_of(k);
                            self.order().index_of_first_ensures(k);
                            let j0 = if j < i { j } else { j + 1 };
                            assert(bo[j0] == k);
                            assert(bo.contains(k));
                        }
                        if bo.contains(k) && k != key@ {
                            let j = bo.index_of(k);
                            bo.index_of_first_ensures(k);
                            let j1 = if j < i { j } else { j - 1 };
                            assert(self.order()[j1] == k);
                        }
                    }
                    assert forall|k: Seq<char>| self@.contains_key(k) implies #[trigger] self@[k]
                        == before@.remove(key@)[k] by {
                        let j = self.order().index_of(k);
                        self.order().index_of_first_ensures(k);
                        let j0 = if j < i { j } else { j + 1 };
                        assert(bo[j0] == k);
                        assert(bo.contains(k));
                        bo.index_of_first_ensures(k);
                    }
                    assert(self@ =~= before@.remove(key@));
                }
                Some(value)
            },
            None => {
                assert(self@ =~= before@.remove(key@));
                None
            },
        }
    }
}

} // verus!
