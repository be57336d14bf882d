//! The in-memory table: an ordered map from key to a value or a tombstone.

use crate::text::{
    compare_str, lemma_bytes_lt_irreflexive, lemma_bytes_lt_transitive, str_lt, Order,
};
use vstd::prelude::*;
use vstd::utf8::encode_utf8;

verus! {

/// What the table holds for a key: a value, or the mark of a deletion.
#[derive(Clone, Debug)]
pub enum Entry {
    Put(Vec<u8>),
    Delete,
}

impl Entry {
    /// The entry as a plain value: `Some(bytes)` for a value, `None` for a
    /// tombstone.
    pub open spec fn model(&self) -> Option<Seq<u8>> {
        match self {
            Entry::Put(v) => Some(v@),
            Entry::Delete => None,
        }
    }

    /// A copy of the entry.
    pub fn duplicate(&self) -> (r: Entry)
        ensures
            r.model() == self.model(),
    {
        match self {
            Entry::Put(v) => Entry::Put(v.clone()),
            Entry::Delete => Entry::Delete,
        }
    }
}

/// Keys strictly increase along `s`.
pub open spec fn keys_sorted(s: Seq<(Seq<char>, Option<Seq<u8>>)>) -> bool {
    forall|i: int, j: int| 0 <= i < j < s.len() ==> str_lt(#[trigger] s[i].0, #[trigger] s[j].0)
}

/// Whether some item of `s` has key `k`.
pub open spec fn has_key(s: Seq<(Seq<char>, Option<Seq<u8>>)>, k: Seq<char>) -> bool {
    exists|i: int| 0 <= i < s.len() && (#[trigger] s[i]).0 == k
}

/// The position of an item of `s` with key `k`.
pub open spec fn index_of_key(s: Seq<(Seq<char>, Option<Seq<u8>>)>, k: Seq<char>) -> int {
    choose|i: int| 0 <= i < s.len() && (#[trigger] s[i]).0 == k
}

/// The map that a sequence of keyed entries stands for.
pub open spec fn map_of(s: Seq<(Seq<char>, Option<Seq<u8>>)>) -> Map<Seq<char>, Option<Seq<u8>>> {
    Map::new(|k: Seq<char>| has_key(s, k), |k: Seq<char>| s[index_of_key(s, k)].1)
}

/// The order of the keys is transitive.
pub proof fn lemma_str_lt_transitive(a: Seq<char>, b: Seq<char>, c: Seq<char>)
    requires
        str_lt(a, b),
        str_lt(b, c),
    ensures
        str_lt(a, c),
{
    lemma_bytes_lt_transitive(encode_utf8(a), encode_utf8(b), encode_utf8(c));
}

/// No key comes before itself.
pub proof fn lemma_str_lt_irreflexive(a: Seq<char>)
    ensures
        !str_lt(a, a),
{
    lemma_bytes_lt_irreflexive(encode_utf8(a));
}

/// In a sorted sequence a key stands at one position only.
pub proof fn lemma_sorted_keys_distinct(s: Seq<(Seq<char>, Option<Seq<u8>>)>, i: int, j: int)
    requires
        keys_sorted(s),
        0 <= i < s.len(),
        0 <= j < s.len(),
        s[i].0 == s[j].0,
    ensures
        i == j,
{
    lemma_str_lt_irreflexive(s[i].0);
}

/// The map of a sorted sequence gives each item's entry at its key.
pub proof fn lemma_map_of_at(s: Seq<(Seq<char>, Option<Seq<u8>>)>, i: int)
    requires
        keys_sorted(s),
        0 <= i < s.len(),
    ensures
        map_of(s).contains_key(s[i].0),
        map_of(s)[s[i].0] == s[i].1,
{
    assert(has_key(s, s[i].0));
    lemma_sorted_keys_distinct(s, i, index_of_key(s, s[i].0));
}

/// Replacing the entry at a key's position is an insert into the map.
pub proof fn lemma_map_of_update(
    s: Seq<(Seq<char>, Option<Seq<u8>>)>,
    p: int,
    e: Option<Seq<u8>>,
)
    requires
        keys_sorted(s),
        0 <= p < s.len(),
    ensures
        keys_sorted(s.update(p, (s[p].0, e))),
        map_of(s.update(p, (s[p].0, e))) == map_of(s).insert(s[p].0, e),
{
    let k = s[p].0;
    let t = s.update(p, (k, e));
    assert(keys_sorted(t)) by {
        assert forall|i: int, j: int| 0 <= i < j < t.len() implies str_lt(
            #[trigger] t[i].0,
            #[trigger] t[j].0,
        ) by {
            assert(t[i].0 == s[i].0 && t[j].0 == s[j].0);
        }
    }
    assert forall|k2: Seq<char>| has_key(t, k2) == (has_key(s, k2) || k2 == k) by {
        if has_key(t, k2) {
            let i = index_of_key(t, k2);
            assert(s[i].0 == k2);
        }
        if has_key(s, k2) {
            let i = index_of_key(s, k2);
            assert(t[i].0 == k2);
        }
        if k2 == k {
            assert(t[p].0 == k2);
        }
    }
    assert forall|k2: Seq<char>| has_key(t, k2) implies #[trigger] map_of(t)[k2] == map_of(
        s,
    ).insert(k, e)[k2] by {
        let i = index_of_key(t, k2);
        lemma_map_of_at(t, i);
        if k2 == k {
            lemma_sorted_keys_distinct(t, i, p);
        } else {
            assert(s[i].0 == k2);
            lemma_map_of_at(s, i);
        }
    }
    assert(map_of(t) =~= map_of(s).insert(k, e));
}

/// Inserting a new key at its place in the order is an insert into the map.
pub proof fn lemma_map_of_insert(
    s: Seq<(Seq<char>, Option<Seq<u8>>)>,
    p: int,
    k: Seq<char>,
    e: Option<Seq<u8>>,
)
    requires
        keys_sorted(s),
        0 <= p <= s.len(),
        forall|i: int| 0 <= i < p ==> str_lt((#[trigger] s[i]).0, k),
        forall|i: int| p <= i < s.len() ==> str_lt(k, (#[trigger] s[i]).0),
    ensures
        keys_sorted(s.insert(p, (k, e))),
        map_of(s.insert(p, (k, e))) == map_of(s).insert(k, e),
{
    let t = s.insert(p, (k, e));
    assert(keys_sorted(t)) by {
        assert forall|i: int, j: int| 0 <= i < j < t.len() implies str_lt(
            #[trigger] t[i].0,
            #[trigger] t[j].0,
        ) by {
            if j < p {
                assert(t[i] == s[i] && t[j] == s[j]);
            } else if j == p {
                assert(t[i] == s[i]);
            } else if i < p {
                assert(t[i] == s[i] && t[j] == s[j - 1]);
                lemma_str_lt_transitive(s[i].0, k, s[j - 1].0);
            } else if i == p {
                assert(t[j] == s[j - 1]);
            } else {
                assert(t[i] == s[i - 1] && t[j] == s[j - 1]);
            }
        }
    }
    assert forall|k2: Seq<char>| has_key(t, k2) == (has_key(s, k2) || k2 == k) by {
        if has_key(t, k2) {
            let i = index_of_key(t, k2);
            if i < p {
                assert(s[i].0 == k2);
            } else if i > p {
                assert(s[i - 1].0 == k2);
            }
        }
        if has_key(s, k2) {
            let i = index_of_key(s, k2);
            if i < p {
                assert(t[i].0 == k2);
            } else {
                assert(t[i + 1].0 == k2);
            }
        }
        if k2 == k {
            assert(t[p].0 == k2);
        }
    }
    assert forall|k2: Seq<char>| has_key(t, k2) implies #[trigger] map_of(t)[k2] == map_of(
        s,
    ).insert(k, e)[k2] by {
        let i = index_of_key(t, k2);
        lemma_map_of_at(t, i);
        if i == p {
        } else if i < p {
            assert(s[i].0 == k2);
            lemma_str_lt_irreflexive(k);
            lemma_map_of_at(s, i);
        } else {
            assert(s[i - 1].0 == k2);
            lemma_str_lt_irreflexive(k);
            lemma_map_of_at(s, i - 1);
        }
    }
    assert(map_of(t) =~= map_of(s).insert(k, e));
}

/// A key that is absent from a sorted sequence is absent from its map.
pub proof fn lemma_map_of_absent(s: Seq<(Seq<char>, Option<Seq<u8>>)>, p: int, k: Seq<char>)
    requires
        keys_sorted(s),
        0 <= p <= s.len(),
        forall|i: int| 0 <= i < p ==> str_lt((#[trigger] s[i]).0, k),
        forall|i: int| p <= i < s.len() ==> str_lt(k, (#[trigger] s[i]).0),
    ensures
        !map_of(s).contains_key(k),
{
    if has_key(s, k) {
        let i = index_of_key(s, k);
        lemma_str_lt_irreflexive(k);
    }
}

/// A running total of bytes after `n` more: it stops at `usize::MAX`.
pub open spec fn grown(size: nat, n: nat) -> nat {
    if size + n > usize::MAX {
        usize::MAX as nat
    } else {
        size + n
    }
}

struct Slot {
    key: String,
    entry: Entry,
}

/// An ordered in-memory map from key to value or tombstone.
pub struct Memtable {
    slots: Vec<Slot>,
    size_approx: usize,
}

impl View for Memtable {
    type V = Map<Seq<char>, Option<Seq<u8>>>;

    /// The table as a map: `Some(bytes)` where a value is held, `None` where a
    /// tombstone is.
    closed spec fn view(&self) -> Map<Seq<char>, Option<Seq<u8>>> {
        map_of(self.entries())
    }
}

impl Memtable {
    /// The table's items in key order.
    pub closed spec fn entries(&self) -> Seq<(Seq<char>, Option<Seq<u8>>)> {
        Seq::new(self.slots@.len(), |i: int| (self.slots@[i].key@, self.slots@[i].entry.model()))
    }

    /// The running total of the bytes handed to `put` and `delete`.
    pub closed spec fn size(&self) -> nat {
        self.size_approx as nat
    }

    /// The table's invariant: its items are sorted by key, and so no key
    /// stands twice.
    pub closed spec fn wf(&self) -> bool {
        keys_sorted(self.entries())
    }

    /// A table's items are sorted by key, and its view is their map.
    pub proof fn lemma_entries(&self)
        requires
            self.wf(),
        ensures
            keys_sorted(self.entries()),
            self@ == map_of(self.entries()),
    {
    }

    /// An empty table.
    pub fn new() -> (r: Self)
        ensures
            r.wf(),
            r@ == Map::<Seq<char>, Option<Seq<u8>>>::empty(),
            r.entries().len() == 0,
            r.size() == 0,
    {
        let r = Memtable { slots: Vec::new(), size_approx: 0 };
        assert(r@ =~= Map::<Seq<char>, Option<Seq<u8>>>::empty());
        r
    }

    /// The first position whose key is not below `key`, and whether `key`
    /// stands there.
    fn locate(&self, key: &str) -> (r: (usize, bool))
        requires
            self.wf(),
        ensures
            r.0 <= self.entries().len(),
            forall|i: int| 0 <= i < r.0 ==> str_lt((#[trigger] self.entries()[i]).0, key@),
            r.1 ==> r.0 < self.entries().len() && self.entries()[r.0 as int].0 == key@,
            !r.1 ==> forall|i: int|
                r.0 <= i < self.entries().len() ==> str_lt(key@, (#[trigger] self.entries()[i]).0),
    {
        let ghost s = self.entries();
        let mut lo: usize = 0;
        let mut hi: usize = self.slots.len();
        while lo < hi
            invariant
                lo <= hi <= self.slots.len(),
                s == self.entries(),
                keys_sorted(s),
                forall|i: int| 0 <= i < lo ==> str_lt((#[trigger] s[i]).0, key@),
                forall|i: int| hi <= i < s.len() ==> str_lt(key@, (#[trigger] s[i]).0),
            decreases hi - lo,
        {
            let mid = lo + (hi - lo) / 2;
            match compare_str(self.slots[mid].key.as_str(), key) {
                Order::Less => {
                    proof {
                        assert forall|i: int| 0 <= i < mid + 1 implies str_lt(
                            (#[trigger] s[i]).0,
                            key@,
                        ) by {
                            if i < mid {
                                lemma_str_lt_transitive(s[i].0, s[mid as int].0, key@);
                            }
                        }
                    }
                    lo = mid + 1;
                },
                Order::Equal => {
                    proof {
                        assert forall|i: int| 0 <= i < mid implies str_lt(
                            (#[trigger] s[i]).0,
                            key@,
                        ) by {
                            assert(str_lt(s[i].0, s[mid as int].0));
                        }
                    }
                    return (mid, true);
                },
                Order::Greater => {
                    proof {
                        assert forall|i: int| mid <= i < s.len() implies str_lt(
                            key@,
                            (#[trigger] s[i]).0,
                        ) by {
                            if i > mid {
                                lemma_str_lt_transitive(key@, s[mid as int].0, s[i].0);
                            }
                        }
                    }
                    hi = mid;
                },
            }
        }
        (lo, false)
    }

    /// Sets what the table holds for `key`.
    fn store(&mut self, key: String, entry: Entry)
        requires
            old(self).wf(),
        ensures
            final(self).wf(),
            final(self)@ == old(self)@.insert(key@, entry.model()),
            final(self).size() == old(self).size(),
    {
        let ghost s = self.entries();
        let ghost k = key@;
        let ghost e = entry.model();
        let (p, found) = self.locate(key.as_str());
        if found {
            proof {
                lemma_map_of_update(s, p as int, e);
                assert(s.update(p as int, (k, e)) =~= Seq::new(
                    s.len(),
                    |i: int|
                        if i == p {
                            (k, e)
                        } else {
                            s[i]
                        },
                ));
            }
            self.slots.set(p, Slot { key, entry });
            assert(self.entries() =~= s.update(p as int, (k, e)));
        } else {
            proof {
                lemma_map_of_insert(s, p as int, k, e);
            }
            self.slots.insert(p, Slot { key, entry });
            assert(self.entries() =~= s.insert(p as int, (k, e)));
        }
    }

    /// Adds `n` to the running byte total, stopping at the largest `usize`.
    fn grow(&mut self, n: usize)
        requires
            old(self).wf(),
        ensures
            final(self).wf(),
            final(self)@ == old(self)@,
            final(self).entries() == old(self).entries(),
            final(self).size() == grown(old(self).size(), n as nat),
    {
        if n > usize::MAX - self.size_approx {
            self.size_approx = usize::MAX;
        } else {
            self.size_approx = self.size_approx + n;
        }
    }

    /// Stores `value` under `key`, over whatever was there.
    pub fn put(&mut self, key: String, value: Vec<u8>)
        requires
            old(self).wf(),
        ensures
            final(self).wf(),
            final(self)@ == old(self)@.insert(key@, Some(value@)),
            final(self).size() == grown(
                old(self).size(),
                vstd::utf8::encode_utf8(key@).len() + value@.len(),
            ),
    {
        let n = key.as_str().as_bytes().len();
        self.grow(n);
        self.grow(value.len());
        self.store(key, Entry::Put(value));
    }

    /// Marks `key` as deleted with a tombstone.
    pub fn delete(&mut self, key: String)
        requires
            old(self).wf(),
        ensures
            final(self).wf(),
            final(self)@ == old(self)@.insert(key@, None),
            final(self).size() == grown(old(self).size(), vstd::utf8::encode_utf8(key@).len()),
    {
        let n = key.as_str().as_bytes().len();
        self.grow(n);
        self.store(key, Entry::Delete);
    }

    /// What the table holds for `key`: a value, a tombstone, or nothing.
    pub fn entry(&self, key: &str) -> (r: Option<&Entry>)
        requires
            self.wf(),
        ensures
            match r {
                Some(e) => self@.contains_key(key@) && self@[key@] == e.model(),
                None => !self@.contains_key(key@),
            },
    {
        let (p, found) = self.locate(key);
        if found {
            proof {
                lemma_map_of_at(self.entries(), p as int);
            }
            Some(&self.slots[p].entry)
        } else {
            proof {
                lemma_map_of_absent(self.entries(), p as int, key@);
            }
            None
        }
    }

    /// The value stored under `key`; `None` where the table holds a
    /// tombstone or nothing.
    pub fn get(&self, key: &str) -> (r: Option<&[u8]>)
        requires
            self.wf(),
        ensures
            match r {
                Some(v) => self@.contains_key(key@) && self@[key@] == Some(v@),
                None => !self@.contains_key(key@) || self@[key@] is None,
            },
    {
        match self.entry(key) {
            Some(Entry::Put(v)) => Some(v.as_slice()),
            _ => None,
        }
    }

    /// The number of keys, tombstones included.
    pub fn len(&self) -> (r: usize)
        requires
            self.wf(),
        ensures
            r == self.entries().len(),
            r == self@.dom().len(),
    {
        proof {
            lemma_map_of_len(self.entries());
        }
        self.slots.len()
    }

    /// Whether the table holds no key at all.
    pub fn is_empty(&self) -> (r: bool)
        requires
            self.wf(),
        ensures
            r == (self.entries().len() == 0),
            r == (self@ == Map::<Seq<char>, Option<Seq<u8>>>::empty()),
    {
        proof {
            if self.entries().len() == 0 {
                assert(self@ =~= Map::<Seq<char>, Option<Seq<u8>>>::empty());
            } else {
                lemma_map_of_at(self.entries(), 0);
            }
        }
        self.slots.len() == 0
    }

    /// The key at position `i` of the key order.
    pub fn key_at(&self, i: usize) -> (r: &String)
        requires
            i < self.entries().len(),
        ensures
            r@ == self.entries()[i as int].0,
    {
        &self.slots[i].key
    }

    /// The entry at position `i` of the key order.
    pub fn entry_at(&self, i: usize) -> (r: &Entry)
        requires
            i < self.entries().len(),
        ensures
            r.model() == self.entries()[i as int].1,
    {
        &self.slots[i].entry
    }

    /// Every key with its entry, in key order.
    pub fn iter(&self) -> (r: Vec<(&String, &Entry)>)
        requires
            self.wf(),
        ensures
            r@.len() == self.entries().len(),
            forall|i: int|
                0 <= i < r@.len() ==> (#[trigger] r@[i]).0@ == self.entries()[i].0
                    && r@[i].1.model() == self.entries()[i].1,
            keys_sorted(self.entries()),
            self@ == map_of(self.entries()),
    {
        let mut out: Vec<(&String, &Entry)> = Vec::new();
        let mut i: usize = 0;
        while i < self.slots.len()
            invariant
                i <= self.slots.len(),
                out@.len() == i,
                forall|j: int|
                    0 <= j < i ==> (#[trigger] out@[j]).0@ == self.entries()[j].0
                        && out@[j].1.model() == self.entries()[j].1,
            decreases self.slots.len() - i,
        {
            out.push((&self.slots[i].key, &self.slots[i].entry));
            i = i + 1;
        }
        out
    }

    /// The running total of the bytes handed to `put` and `delete`: an
    /// estimate of the table's size.
    pub fn approximate_size(&self) -> (r: usize)
        ensures
            r == self.size(),
    {
        self.size_approx
    }
}

/// A sorted sequence has as many items as its map has keys.
pub proof fn lemma_map_of_len(s: Seq<(Seq<char>, Option<Seq<u8>>)>)
    requires
        keys_sorted(s),
    ensures
        map_of(s).dom().finite(),
        map_of(s).dom().len() == s.len(),
    decreases s.len(),
{
    if s.len() == 0 {
        assert(map_of(s).dom() =~= Set::<Seq<char>>::empty());
    } else {
        let t = s.drop_last();
        let last = s.last();
        assert(keys_sorted(t)) by {
            assert forall|i: int, j: int| 0 <= i < j < t.len() implies str_lt(
                #[trigger] t[i].0,
                #[trigger] t[j].0,
            ) by {
                assert(t[i] == s[i] && t[j] == s[j]);
            }
        }
        lemma_map_of_len(t);
        assert forall|i: int| 0 <= i < t.len() implies str_lt((#[trigger] t[i]).0, last.0) by {
            assert(t[i] == s[i]);
            assert(s[s.len() - 1] == last);
        }
        lemma_map_of_insert(t, t.len() as int, last.0, last.1);
        assert(t.insert(t.len() as int, last) =~= s);
        lemma_map_of_absent(t, t.len() as int, last.0);
        assert(map_of(s).dom() =~= map_of(t).dom().insert(last.0));
    }
}

} // verus!
