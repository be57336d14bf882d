//! An index over several fields at once: the paths of the documents that
//! hold a given combination of values.

use crate::model::{find_member, member, member_models, Document};
use crate::text::{same_texts, str_eq, texts};
use vstd::prelude::*;

verus! {

/// The values that a document with the given members holds in `fields`,
/// each as its JSON text, `null` for a field that it lacks.
pub open spec fn key_of(fields: Seq<Seq<char>>, members: Seq<(Seq<char>, Seq<char>)>) -> Seq<
    Seq<char>,
> {
    Seq::new(
        fields.len(),
        |i: int|
            match member(members, fields[i]) {
                Some(text) => text,
                None => "null"@,
            },
    )
}

/// The combination of values that `conditions` ask for: for each of
/// `fields` the value of the first condition on it; `None` where a field has
/// no condition.
pub open spec fn query_key(
    fields: Seq<Seq<char>>,
    conditions: Seq<(Seq<char>, Seq<char>)>,
) -> Option<Seq<Seq<char>>> {
    if forall|i: int| 0 <= i < fields.len() ==> member(conditions, #[trigger] fields[i]) is Some {
        Some(Seq::new(fields.len(), |i: int| member(conditions, fields[i])->Some_0))
    } else {
        None
    }
}

/// The paths that stand in `entries` under `key`, in the order of the
/// entries.
pub open spec fn paths_with(
    entries: Seq<(Seq<Seq<char>>, Seq<char>)>,
    key: Seq<Seq<char>>,
) -> Seq<Seq<char>>
    decreases entries.len(),
{
    if entries.len() == 0 {
        Seq::empty()
    } else {
        let before = paths_with(entries.drop_last(), key);
        if entries.last().0 == key {
            before.push(entries.last().1)
        } else {
            before
        }
    }
}

/// A path stands in `paths_with(entries, key)` exactly where the entry of
/// the key and the path stands in `entries`.
pub proof fn lemma_paths_with(
    entries: Seq<(Seq<Seq<char>>, Seq<char>)>,
    key: Seq<Seq<char>>,
    path: Seq<char>,
)
    ensures
        paths_with(entries, key).contains(path) <==> entries.contains((key, path)),
    decreases entries.len(),
{
    if entries.len() > 0 {
        let rest = entries.drop_last();
        lemma_paths_with(rest, key, path);
        let before = paths_with(rest, key);
        if entries.contains((key, path)) {
            let i = choose|i: int| 0 <= i < entries.len() && entries[i] == (key, path);
            if i < entries.len() - 1 {
                assert(rest[i] == (key, path));
                let k = choose|k: int| 0 <= k < before.len() && before[k] == path;
                assert(paths_with(entries, key)[k] == path);
            } else {
                assert(paths_with(entries, key) == before.push(path));
                assert(before.push(path)[before.len() as int] == path);
            }
        }
        if paths_with(entries, key).contains(path) {
            let k = choose|k: int|
                0 <= k < paths_with(entries, key).len() && paths_with(entries, key)[k] == path;
            if k < before.len() {
                assert(before[k] == path);
                let i = choose|i: int| 0 <= i < rest.len() && rest[i] == (key, path);
                assert(entries[i] == (key, path));
            } else {
                assert(entries[entries.len() - 1] == (key, path));
            }
        }
    }
}

/// Whether every comparison of a row came out right.
pub open spec fn all_within(row: Seq<(bool, bool)>) -> bool {
    forall|j: int| 0 <= j < row.len() ==> (#[trigger] row[j]).0 && row[j].1
}

/// Rows of comparisons as plain values.
pub open spec fn rows_of(compared: Seq<Vec<(bool, bool)>>) -> Seq<Seq<(bool, bool)>> {
    Seq::new(compared.len(), |i: int| compared[i]@)
}

/// Whether the entry at `i` lies in a range of `start_len` and `end_len`
/// values, given the rows of comparisons.
pub open spec fn lies_within(
    entries: Seq<(Seq<Seq<char>>, Seq<char>)>,
    start_len: nat,
    end_len: nat,
    rows: Seq<Seq<(bool, bool)>>,
    i: int,
) -> bool {
    &&& entries[i].0.len() == start_len
    &&& entries[i].0.len() == end_len
    &&& i < rows.len()
    &&& rows[i].len() == entries[i].0.len()
    &&& all_within(rows[i])
}

/// The paths of the first `n` entries that lie in the range, each once, in
/// the order of the entries.
pub open spec fn paths_within(
    entries: Seq<(Seq<Seq<char>>, Seq<char>)>,
    start_len: nat,
    end_len: nat,
    rows: Seq<Seq<(bool, bool)>>,
    n: nat,
) -> Seq<Seq<char>>
    decreases n,
{
    if n == 0 || n > entries.len() {
        Seq::empty()
    } else {
        let before = paths_within(entries, start_len, end_len, rows, (n - 1) as nat);
        if lies_within(entries, start_len, end_len, rows, n - 1) && !before.contains(
            entries[n - 1].1,
        ) {
            before.push(entries[n - 1].1)
        } else {
            before
        }
    }
}

/// Whether one of `items` is the text `x`.
fn holds_text(items: &Vec<String>, x: &str) -> (r: bool)
    ensures
        r == texts(items@).contains(x@),
{
    let mut i: usize = 0;
    while i < items.len()
        invariant
            i <= items.len(),
            forall|k: int| 0 <= k < i ==> texts(items@)[k] != x@,
        decreases items.len() - i,
    {
        if str_eq(items[i].as_str(), x) {
            assert(texts(items@)[i as int] == x@);
            return true;
        }
        i = i + 1;
    }
    false
}

/// An index over a list of fields: for each combination of values of these
/// fields, the paths of the documents that hold it.
pub struct CompositeIndex {
    fields: Vec<String>,
    entries: Vec<(Vec<String>, String)>,
}

impl CompositeIndex {
    /// The fields of the index.
    pub closed spec fn fields(&self) -> Seq<Seq<char>> {
        texts(self.fields@)
    }

    /// The entries of the index, each a combination of values and a path,
    /// in the order in which they came.
    pub closed spec fn entries(&self) -> Seq<(Seq<Seq<char>>, Seq<char>)> {
        Seq::new(
            self.entries@.len(),
            |i: int| (texts(self.entries@[i].0@), self.entries@[i].1@),
        )
    }

    /// The index's invariant: no entry stands twice.
    pub open spec fn wf(&self) -> bool {
        self.entries().no_duplicates()
    }

    /// An empty index over `fields`.
    pub fn new(fields: Vec<String>) -> (r: Self)
        ensures
            r.wf(),
            r.fields() == texts(fields@),
            r.entries().len() == 0,
    {
        CompositeIndex { fields, entries: Vec::new() }
    }

    /// The number of entries.
    pub fn len(&self) -> (r: usize)
        ensures
            r == self.entries().len(),
    {
        self.entries.len()
    }

    /// The entry at `i`: a combination of values and a path.
    pub fn entry_at(&self, i: usize) -> (r: (&Vec<String>, &String))
        requires
            i < self.entries().len(),
        ensures
            (texts(r.0@), r.1@) == self.entries()[i as int],
    {
        (&self.entries[i].0, &self.entries[i].1)
    }

    /// The combination of values that `doc` holds in the fields of the
    /// index.
    fn key_for(&self, doc: &Document) -> (r: Vec<String>)
        ensures
            texts(r@) == key_of(self.fields(), member_models(doc.fields@)),
    {
        let mut key: Vec<String> = Vec::new();
        let mut i: usize = 0;
        while i < self.fields.len()
            invariant
                i <= self.fields.len(),
                key@.len() == i,
                forall|k: int|
                    0 <= k < i ==> key@[k]@ == #[trigger] key_of(
                        self.fields(),
                        member_models(doc.fields@),
                    )[k],
            decreases self.fields.len() - i,
        {
            let text = match find_member(&doc.fields, self.fields[i].as_str()) {
                Some(text) => text.clone(),
                None => "null".to_owned(),
            };
            assert(self.fields()[i as int] == self.fields@[i as int]@);
            key.push(text);
            i = i + 1;
        }
        assert(texts(key@) =~= key_of(self.fields(), member_models(doc.fields@)));
        key
    }

    /// The place of the entry of `key` and `path`, if it stands in the
    /// index.
    fn find(&self, key: &Vec<String>, path: &str) -> (r: Option<usize>)
        ensures
            match r {
                Some(i) => i < self.entries().len() && self.entries()[i as int] == (
                    texts(key@),
                    path@,
                ),
                None => !self.entries().contains((texts(key@), path@)),
            },
    {
        let mut i: usize = 0;
        while i < self.entries.len()
            invariant
                i <= self.entries.len(),
                forall|k: int| 0 <= k < i ==> self.entries()[k] != (texts(key@), path@),
            decreases self.entries.len() - i,
        {
            if str_eq(self.entries[i].1.as_str(), path) && same_texts(&self.entries[i].0, key) {
                return Some(i);
            }
            i = i + 1;
        }
        None
    }

    /// Takes `doc` into the index, under the combination of values that it
    /// holds in the fields of the index. A document that stands there
    /// already is not entered again.
    pub fn add(&mut self, doc: &Document)
        requires
            old(self).wf(),
        ensures
            final(self).wf(),
            final(self).fields() == old(self).fields(),
            final(self).entries() == (if old(self).entries().contains(
                (key_of(old(self).fields(), member_models(doc.fields@)), doc.path@),
            ) {
                old(self).entries()
            } else {
                old(self).entries().push(
                    (key_of(old(self).fields(), member_models(doc.fields@)), doc.path@),
                )
            }),
    {
        let key = self.key_for(doc);
        if self.find(&key, doc.path.as_str()).is_none() {
            let ghost before = self.entries();
            self.entries.push((key, doc.path.clone()));
            assert(self.entries() =~= before.push((texts(key@), doc.path@)));
        }
    }

    /// Takes `doc` out of the index, from under the combination of values
    /// that it holds in the fields of the index.
    pub fn remove(&mut self, doc: &Document)
        requires
            old(self).wf(),
        ensures
            final(self).wf(),
            final(self).fields() == old(self).fields(),
            !final(self).entries().contains(
                (key_of(old(self).fields(), member_models(doc.fields@)), doc.path@),
            ),
            final(self).entries() == (if old(self).entries().contains(
                (key_of(old(self).fields(), member_models(doc.fields@)), doc.path@),
            ) {
                old(self).entries().remove(
                    old(self).entries().index_of(
                        (key_of(old(self).fields(), member_models(doc.fields@)), doc.path@),
                    ),
                )
            } else {
                old(self).entries()
            }),
    {
        let key = self.key_for(doc);
        match self.find(&key, doc.path.as_str()) {
            Some(i) => {
                let ghost before = self.entries();
                let ghost entry = (texts(key@), doc.path@);
                let _ = self.entries.remove(i);
                proof {
                    assert(before.contains(entry));
                    let at = before.index_of(entry);
                    assert(before[at] == entry);
                    assert(at == i);
                    assert(self.entries() =~= before.remove(i as int));
                    assert forall|a: int, b: int|
                        0 <= a < self.entries().len() && 0 <= b < self.entries().len() && a
                            != b implies self.entries()[a] != self.entries()[b] by {
                        let from_a = if a < i { a } else { a + 1 };
                        let from_b = if b < i { b } else { b + 1 };
                        assert(self.entries()[a] == before[from_a]);
                        assert(self.entries()[b] == before[from_b]);
                    }
                    assert forall|a: int| 0 <= a < self.entries().len() implies self.entries()[a]
                        != entry by {
                        let from_a = if a < i { a } else { a + 1 };
                        assert(self.entries()[a] == before[from_a]);
                    }
                }
            },
            None => {},
        }
    }

    /// The combination of values that `conditions` ask for.
    fn key_from(&self, conditions: &Vec<(String, String)>) -> (r: Option<Vec<String>>)
        ensures
            match r {
                Some(key) => query_key(self.fields(), member_models(conditions@)) == Some(
                    texts(key@),
                ),
                None => query_key(self.fields(), member_models(conditions@)) is None,
            },
    {
        let ghost wanted = member_models(conditions@);
        let mut key: Vec<String> = Vec::new();
        let mut i: usize = 0;
        while i < self.fields.len()
            invariant
                i <= self.fields.len(),
                key@.len() == i,
                wanted == member_models(conditions@),
                forall|k: int|
                    0 <= k < i ==> member(wanted, #[trigger] self.fields()[k]) == Some(key@[k]@),
            decreases self.fields.len() - i,
        {
            assert(self.fields()[i as int] == self.fields@[i as int]@);
            match find_member(conditions, self.fields[i].as_str()) {
                Some(text) => {
                    key.push(text.clone());
                },
                None => {
                    return None;
                },
            }
            i = i + 1;
        }
        assert(texts(key@) =~= query_key(self.fields(), wanted)->Some_0);
        Some(key)
    }

    /// The paths of the documents that hold, in the fields of the index,
    /// the values that `conditions` ask for, in the order in which the
    /// documents came; none where a field of the index has no condition.
    pub fn query(&self, conditions: &Vec<(String, String)>) -> (r: Vec<String>)
        ensures
            texts(r@) == match query_key(self.fields(), member_models(conditions@)) {
                Some(key) => paths_with(self.entries(), key),
                None => Seq::empty(),
            },
    {
        let key = match self.key_from(conditions) {
            Some(key) => key,
            None => {
                let none: Vec<String> = Vec::new();
                assert(texts(none@) =~= Seq::<Seq<char>>::empty());
                return none;
            },
        };
        let mut out: Vec<String> = Vec::new();
        let mut i: usize = 0;
        assert(self.entries().take(0) =~= Seq::<(Seq<Seq<char>>, Seq<char>)>::empty());
        assert(texts(out@) =~= Seq::<Seq<char>>::empty());
        while i < self.entries.len()
            invariant
                i <= self.entries.len(),
                texts(out@) == paths_with(self.entries().take(i as int), texts(key@)),
            decreases self.entries.len() - i,
        {
            let ghost all = self.entries();
            assert(all.take(i + 1).drop_last() =~= all.take(i as int));
            assert(all.take(i + 1).last() == all[i as int]);
            if same_texts(&self.entries[i].0, &key) {
                let ghost before = texts(out@);
                out.push(self.entries[i].1.clone());
                assert(texts(out@) =~= before.push(self.entries@[i as int].1@));
            }
            i = i + 1;
        }
        assert(self.entries().take(self.entries@.len() as int) =~= self.entries());
        out
    }

    /// Whether every comparison of `row` came out right: the value is at
    /// least the start of the range and at most its end.
    fn row_fits(row: &Vec<(bool, bool)>) -> (r: bool)
        ensures
            r == all_within(row@),
    {
        let mut j: usize = 0;
        while j < row.len()
            invariant
                j <= row.len(),
                forall|k: int| 0 <= k < j ==> (#[trigger] row@[k]).0 && row@[k].1,
            decreases row.len() - j,
        {
            if !(row[j].0 && row[j].1) {
                return false;
            }
            j = j + 1;
        }
        true
    }

    /// The paths of the entries whose values lie in a range, each path
    /// once, in the order of the entries. The range has `start_len` values
    /// at its start and `end_len` at its end, and only an entry with as
    /// many values as both can lie in it. How the values compare is given:
    /// `compared[i][j]` says of the `j`-th value of the entry at `i`
    /// whether it is at least the start's and whether it is at most the
    /// end's. An entry without a row of its length in `compared` does not
    /// lie in the range.
    pub fn range_query(&self, start_len: usize, end_len: usize, compared: &Vec<Vec<(bool, bool)>>) -> (r:
        Vec<String>)
        ensures
            texts(r@) == paths_within(
                self.entries(),
                start_len as nat,
                end_len as nat,
                rows_of(compared@),
                self.entries().len(),
            ),
    {
        let ghost rows = rows_of(compared@);
        let mut out: Vec<String> = Vec::new();
        let mut i: usize = 0;
        assert(texts(out@) =~= Seq::<Seq<char>>::empty());
        while i < self.entries.len()
            invariant
                i <= self.entries.len(),
                rows == rows_of(compared@),
                texts(out@) == paths_within(
                    self.entries(),
                    start_len as nat,
                    end_len as nat,
                    rows,
                    i as nat,
                ),
            decreases self.entries.len() - i,
        {
            let width = self.entries[i].0.len();
            assert(self.entries()[i as int].0.len() == width);
            let mut fits = false;
            if width == start_len && width == end_len && i < compared.len() {
                assert(rows[i as int] == compared@[i as int]@);
                if compared[i].len() == width {
                    fits = Self::row_fits(&compared[i]);
                }
            }
            if fits && !holds_text(&out, self.entries[i].1.as_str()) {
                let ghost before = texts(out@);
                out.push(self.entries[i].1.clone());
                assert(texts(out@) =~= before.push(self.entries@[i as int].1@));
            }
            i = i + 1;
        }
        out
    }
}

} // verus!
