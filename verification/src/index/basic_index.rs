//! The inverted index: for a collection, a field and the key of a value,
//! the paths of the documents that hold that value in that field.

use crate::index::{IndexProvider, QueryAst, QueryOperator};
use crate::model::{
    canonical_json, json_canonical, json_string, parse_json_string, Document,
};
use crate::text::{chars_of, str_eq, string_of};
use vstd::prelude::*;

verus! {

/// One entry of the index: the document at `path`, which is in
/// `collection`, holds a value with the key `key` in `field`.
pub struct Posting {
    pub collection: Seq<char>,
    pub field: Seq<char>,
    pub key: Seq<char>,
    pub path: Seq<char>,
}

/// The key under which a value is indexed: a string stands as its content,
/// every other JSON value as its compact JSON text, and a text that is not
/// JSON as itself.
pub open spec fn value_key(text: Seq<char>) -> Seq<char> {
    match json_canonical(text) {
        None => text,
        Some(compact) => match json_string(compact) {
            Some(s) => s,
            None => compact,
        },
    }
}

/// The position of the first slash in `s` at or after `i`, or the end.
pub open spec fn first_slash(s: Seq<char>, i: int) -> int
    decreases s.len() - i,
{
    if 0 <= i < s.len() && s[i] != '/' {
        first_slash(s, i + 1)
    } else {
        i
    }
}

/// The collection of a document: the first segment of its path.
pub open spec fn collection_of(path: Seq<char>) -> Seq<char> {
    path.take(first_slash(path, 0))
}

/// The entries that a document at `path` with the given fields brings to
/// the index: one for each field.
pub open spec fn doc_postings(path: Seq<char>, fields: Seq<(Seq<char>, Seq<char>)>) -> Set<
    Posting,
> {
    Set::new(
        |p: Posting|
            p.collection == collection_of(path) && p.path == path && exists|i: int|
                0 <= i < fields.len() && (#[trigger] fields[i]).0 == p.field && value_key(
                    fields[i].1,
                ) == p.key,
    )
}

/// The key under which a value is indexed.
pub fn value_to_key(text: &str) -> (r: String)
    ensures
        r@ == value_key(text@),
{
    match canonical_json(text) {
        None => text.to_owned(),
        Some(compact) => match parse_json_string(compact.as_str()) {
            Some(s) => s,
            None => compact,
        },
    }
}

/// The collection of a document: the first segment of its path.
pub fn collection_name(path: &str) -> (r: String)
    ensures
        r@ == collection_of(path@),
{
    let chars = chars_of(path);
    let mut out: Vec<char> = Vec::new();
    let mut i: usize = 0;
    while i < chars.len() && chars[i] != '/'
        invariant
            i <= chars.len(),
            out@ == chars@.take(i as int),
            first_slash(chars@, 0) == first_slash(chars@, i as int),
        decreases chars.len() - i,
    {
        out.push(chars[i]);
        assert(chars@.take(i + 1) =~= chars@.take(i as int).push(chars@[i as int]));
        i = i + 1;
    }
    string_of(out.as_slice())
}

struct Entry {
    collection: String,
    field: String,
    key: String,
    path: String,
}

impl Entry {
    spec fn posting(&self) -> Posting {
        Posting {
            collection: self.collection@,
            field: self.field@,
            key: self.key@,
            path: self.path@,
        }
    }

    fn is(&self, collection: &str, field: &str, key: &str, path: &str) -> (r: bool)
        ensures
            r == (self.posting() == Posting {
                collection: collection@,
                field: field@,
                key: key@,
                path: path@,
            }),
    {
        str_eq(self.path.as_str(), path) && str_eq(self.key.as_str(), key) && str_eq(
            self.field.as_str(),
            field,
        ) && str_eq(self.collection.as_str(), collection)
    }
}

/// An index that is kept in memory.
pub struct BasicIndexProvider {
    entries: Vec<Entry>,
}

impl View for BasicIndexProvider {
    type V = Set<Posting>;

    closed spec fn view(&self) -> Set<Posting> {
        Set::new(|p: Posting| exists|i: int| 0 <= i < self.entries@.len() && self.at(i) == p)
    }
}

impl BasicIndexProvider {
    spec fn at(&self, i: int) -> Posting {
        self.entries@[i].posting()
    }

    /// The index's invariant: no entry stands twice.
    pub closed spec fn wf(&self) -> bool {
        forall|i: int, j: int|
            0 <= i < j < self.entries@.len() ==> #[trigger] self.at(i) != #[trigger] self.at(j)
    }

    /// An empty index.
    pub fn new() -> (r: Self)
        ensures
            r.wf(),
            r@ == Set::<Posting>::empty(),
    {
        let r = BasicIndexProvider { entries: Vec::new() };
        assert(r@ =~= Set::<Posting>::empty());
        r
    }

    /// Whether the index holds the given entry.
    fn holds(&self, collection: &str, field: &str, key: &str, path: &str) -> (r: bool)
        ensures
            r == self@.contains(
                Posting { collection: collection@, field: field@, key: key@, path: path@ },
            ),
    {
        let mut i: usize = 0;
        while i < self.entries.len()
            invariant
                i <= self.entries.len(),
                forall|j: int|
                    0 <= j < i ==> self.at(j) != (Posting {
                        collection: collection@,
                        field: field@,
                        key: key@,
                        path: path@,
                    }),
            decreases self.entries.len() - i,
        {
            if self.entries[i].is(collection, field, key, path) {
                assert(self.at(i as int) == Posting {
                    collection: collection@,
                    field: field@,
                    key: key@,
                    path: path@,
                });
                return true;
            }
            i = i + 1;
        }
        false
    }

    /// Brings the document at `doc_path` into the index: the entries that
    /// the index holds for the path are taken out, and one entry for each of
    /// the document's fields is put in.
    pub fn on_put(&mut self, doc_path: &str, doc: &Document)
        requires
            old(self).wf(),
        ensures
            final(self).wf(),
            final(self)@ == old(self)@.filter(|p: Posting| p.path != doc_path@) + doc_postings(
                doc_path@,
                doc@.fields,
            ),
    {
        self.on_delete(doc_path);
        self.add_postings(doc_path, doc);
    }

    /// Adds one entry for each field of the document at `doc_path`.
    fn add_postings(&mut self, doc_path: &str, doc: &Document)
        requires
            old(self).wf(),
        ensures
            final(self).wf(),
            final(self)@ == old(self)@ + doc_postings(doc_path@, doc@.fields),
    {
        let collection = collection_name(doc_path);
        let ghost fields = doc@.fields;
        let mut i: usize = 0;
        assert(self@ =~= old(self)@ + doc_postings(doc_path@, fields.take(0)));
        while i < doc.fields.len()
            invariant
                i <= doc.fields.len(),
                self.wf(),
                fields == doc@.fields,
                collection@ == collection_of(doc_path@),
                self@ == old(self)@ + doc_postings(doc_path@, fields.take(i as int)),
            decreases doc.fields.len() - i,
        {
            let field = doc.fields[i].0.as_str();
            let key = value_to_key(doc.fields[i].1.as_str());
            let ghost before = self@;
            let ghost added = Posting {
                collection: collection@,
                field: field@,
                key: key@,
                path: doc_path@,
            };
            if !self.holds(collection.as_str(), field, key.as_str(), doc_path) {
                let ghost prior = *self;
                self.entries.push(
                    Entry {
                        collection: collection.clone(),
                        field: field.to_owned(),
                        key,
                        path: doc_path.to_owned(),
                    },
                );
                proof {
                    assert forall|a: int, b: int| 0 <= a < b < self.entries@.len() implies
                        #[trigger] self.at(a) != #[trigger] self.at(b) by {
                        assert(self.at(a) == prior.at(a));
                        if b < prior.entries@.len() {
                            assert(self.at(b) == prior.at(b));
                        }
                    }
                    assert forall|p: Posting| self@.contains(p) <==> before.insert(added).contains(
                        p,
                    ) by {
                        if self@.contains(p) {
                            let j = choose|j: int| 0 <= j < self.entries@.len() && self.at(j) == p;
                            if j < prior.entries@.len() {
                                assert(prior.at(j) == p);
                            }
                        }
                        if before.contains(p) {
                            let j = choose|j: int| 0 <= j < prior.entries@.len() && prior.at(j) == p;
                            assert(self.at(j) == p);
                        }
                        if p == added {
                            assert(self.at(prior.entries@.len() as int) == p);
                        }
                    }
                    assert(self@ =~= before.insert(added));
                }
            }
            proof {
                let next = fields.take(i + 1);
                let prev = fields.take(i as int);
                assert(before.insert(added) =~= self@);
                assert forall|p: Posting|
                    doc_postings(doc_path@, next).contains(p) <==> doc_postings(
                        doc_path@,
                        prev,
                    ).insert(added).contains(p) by {
                    if doc_postings(doc_path@, next).contains(p) {
                        let j = choose|j: int|
                            0 <= j < next.len() && (#[trigger] next[j]).0 == p.field && value_key(
                                next[j].1,
                            ) == p.key;
                        if j < i {
                            assert(prev[j] == next[j]);
                        }
                    }
                    if doc_postings(doc_path@, prev).contains(p) {
                        let j = choose|j: int|
                            0 <= j < prev.len() && (#[trigger] prev[j]).0 == p.field && value_key(
                                prev[j].1,
                            ) == p.key;
                        assert(next[j] == prev[j]);
                    }
                    if p == added {
                        assert(next[i as int].0 == p.field);
                    }
                }
                assert(doc_postings(doc_path@, next) =~= doc_postings(doc_path@, prev).insert(added));
                assert(self@ =~= old(self)@ + doc_postings(doc_path@, next));
            }
            i = i + 1;
        }
        assert(fields.take(doc.fields.len() as int) =~= fields);
    }

    /// Takes every entry for the document at `doc_path` out of the index.
    pub fn on_delete(&mut self, doc_path: &str)
        requires
            old(self).wf(),
        ensures
            final(self).wf(),
            final(self)@ == old(self)@.filter(|p: Posting| p.path != doc_path@),
    {
        let ghost before = *self;
        let mut kept: Vec<Entry> = Vec::new();
        let ghost mut origin: Seq<int> = Seq::empty();
        while self.entries.len() > 0
            invariant
                kept@.len() == origin.len(),
                self.entries@.len() <= before.entries@.len(),
                forall|k: int|
                    0 <= k < origin.len() ==> 0 <= #[trigger] origin[k] < before.entries@.len()
                        && kept@[k].posting() == before.at(origin[k]) && kept@[k].path@
                        != doc_path@,
                forall|a: int, b: int| 0 <= a < b < origin.len() ==> origin[a] != origin[b],
                self.entries@ == before.entries@.take(self.entries@.len() as int),
                forall|j: int|
                    self.entries@.len() <= j < before.entries@.len() && before.at(j).path
                        != doc_path@ ==> exists|k: int| 0 <= k < origin.len() && #[trigger] origin[k] == j,
                forall|k: int| 0 <= k < origin.len() ==> origin[k] >= self.entries@.len(),
            decreases self.entries@.len(),
        {
            let ghost n = self.entries@.len();
            let entry = self.entries.pop().unwrap();
            assert(self.entries@ =~= before.entries@.take(n - 1));
            assert(entry == before.entries@[n - 1]);
            if !str_eq(entry.path.as_str(), doc_path) {
                proof {
                    let grown = origin.push(n - 1);
                    assert forall|j: int|
                        n - 1 <= j < before.entries@.len() && before.at(j).path
                            != doc_path@ implies exists|k: int|
                        0 <= k < grown.len() && #[trigger] grown[k] == j by {
                        if j == n - 1 {
                            assert(grown[origin.len() as int] == j);
                        } else {
                            let k = choose|k: int| 0 <= k < origin.len() && #[trigger] origin[k] == j;
                            assert(grown[k] == j);
                        }
                    }
                    origin = grown;
                }
                kept.push(entry);
            }
        }
        self.entries = kept;
        proof {
            assert forall|a: int, b: int| 0 <= a < b < self.entries@.len() implies #[trigger] self.at(
                a,
            ) != #[trigger] self.at(b) by {
                assert(self.at(a) == before.at(origin[a]));
                assert(self.at(b) == before.at(origin[b]));
                if origin[a] < origin[b] {
                    assert(before.at(origin[a]) != before.at(origin[b]));
                } else {
                    assert(before.at(origin[b]) != before.at(origin[a]));
                }
            }
            let target = before@.filter(|p: Posting| p.path != doc_path@);
            assert forall|p: Posting| self@.contains(p) <==> target.contains(p) by {
                if self@.contains(p) {
                    let k = choose|k: int| 0 <= k < self.entries@.len() && self.at(k) == p;
                    assert(before.at(origin[k]) == p);
                }
                if target.contains(p) {
                    let j = choose|j: int| 0 <= j < before.entries@.len() && before.at(j) == p;
                    let k = choose|k: int| 0 <= k < origin.len() && #[trigger] origin[k] == j;
                    assert(self.at(k) == p);
                }
            }
            assert(self@ =~= target);
        }
    }

    /// The paths of the documents in `collection` whose `field` holds a
    /// value with the key of `value`, each once, in no particular order.
    pub fn query_equal(&self, collection: &str, field: &str, value: &str) -> (r: Vec<String>)
        requires
            self.wf(),
        ensures
            forall|i: int, j: int| 0 <= i < j < r@.len() ==> #[trigger] r@[i]@ != #[trigger] r@[j]@,
            forall|path: Seq<char>|
                (exists|i: int| 0 <= i < r@.len() && #[trigger] r@[i]@ == path) <==> self@.contains(
                    Posting {
                        collection: collection@,
                        field: field@,
                        key: value_key(value@),
                        path,
                    },
                ),
    {
        let key = value_to_key(value);
        let mut out: Vec<String> = Vec::new();
        let ghost mut origin: Seq<int> = Seq::empty();
        let mut i: usize = 0;
        while i < self.entries.len()
            invariant
                i <= self.entries.len(),
                self.wf(),
                key@ == value_key(value@),
                out@.len() == origin.len(),
                forall|k: int|
                    0 <= k < origin.len() ==> 0 <= #[trigger] origin[k] < i && self.at(origin[k])
                        == (Posting {
                        collection: collection@,
                        field: field@,
                        key: key@,
                        path: out@[k]@,
                    }),
                forall|a: int, b: int| 0 <= a < b < origin.len() ==> origin[a] < origin[b],
                forall|j: int|
                    0 <= j < i && self.at(j).collection == collection@ && self.at(j).field == field@
                        && self.at(j).key == key@ ==> exists|k: int|
                        0 <= k < origin.len() && #[trigger] origin[k] == j,
            decreases self.entries.len() - i,
        {
            let e = &self.entries[i];
            if str_eq(e.key.as_str(), key.as_str()) && str_eq(e.field.as_str(), field) && str_eq(
                e.collection.as_str(),
                collection,
            ) {
                proof {
                    let grown = origin.push(i as int);
                    assert forall|j: int|
                        0 <= j < i + 1 && self.at(j).collection == collection@ && self.at(j).field
                            == field@ && self.at(j).key == key@ implies exists|k: int|
                        0 <= k < grown.len() && #[trigger] grown[k] == j by {
                        if j == i {
                            assert(grown[origin.len() as int] == j);
                        } else {
                            let k = choose|k: int| 0 <= k < origin.len() && #[trigger] origin[k] == j;
                            assert(grown[k] == j);
                        }
                    }
                    origin = grown;
                }
                out.push(e.path.clone());
            }
            i = i + 1;
        }
        proof {
            assert forall|a: int, b: int| 0 <= a < b < out@.len() implies #[trigger] out@[a]@
                != #[trigger] out@[b]@ by {
                assert(self.at(origin[a]) != self.at(origin[b]));
            }
            assert forall|path: Seq<char>|
                (exists|i: int| 0 <= i < out@.len() && #[trigger] out@[i]@ == path)
                    <==> self@.contains(
                    Posting {
                        collection: collection@,
                        field: field@,
                        key: value_key(value@),
                        path,
                    },
                ) by {
                let wanted = Posting {
                    collection: collection@,
                    field: field@,
                    key: value_key(value@),
                    path,
                };
                if exists|i: int| 0 <= i < out@.len() && #[trigger] out@[i]@ == path {
                    let k = choose|k: int| 0 <= k < out@.len() && #[trigger] out@[k]@ == path;
                    assert(self.at(origin[k]) == wanted);
                }
                if self@.contains(wanted) {
                    let j = choose|j: int| 0 <= j < self.entries@.len() && self.at(j) == wanted;
                    let k = choose|k: int| 0 <= k < origin.len() && #[trigger] origin[k] == j;
                    assert(out@[k]@ == path);
                }
            }
        }
        out
    }

    /// Answers a query: for equality, the paths that `query_equal` gives for
    /// the query's collection (`default` where it names none), field and
    /// value; for every other operator, nothing.
    pub fn query(&self, query: &QueryAst) -> (r: Vec<String>)
        requires
            self.wf(),
        ensures
            forall|i: int, j: int| 0 <= i < j < r@.len() ==> #[trigger] r@[i]@ != #[trigger] r@[j]@,
            match query.equality() {
                Some(q) => forall|path: Seq<char>|
                    (exists|i: int| 0 <= i < r@.len() && #[trigger] r@[i]@ == path)
                        <==> self@.contains(
                        Posting {
                            collection: q.collection,
                            field: q.field,
                            key: value_key(q.value),
                            path,
                        },
                    ),
                None => r@.len() == 0,
            },
    {
        match &query.operator {
            QueryOperator::Equal(value) => {
                let collection = match &query.collection {
                    Some(c) => c.as_str(),
                    None => "default",
                };
                self.query_equal(collection, query.field.as_str(), value.as_str())
            },
            _ => Vec::new(),
        }
    }
}

/// Once a document was put at a path, the path answers an equality query
/// exactly if the query is about the path's collection and the document
/// holds, in the query's field, a value with the key of the query's value.
pub proof fn lemma_query_after_put(
    index: Set<Posting>,
    path: Seq<char>,
    fields: Seq<(Seq<char>, Seq<char>)>,
    collection: Seq<char>,
    field: Seq<char>,
    value: Seq<char>,
)
    ensures
        (index.filter(|p: Posting| p.path != path) + doc_postings(path, fields)).contains(
            Posting { collection, field, key: value_key(value), path },
        ) <==> collection == collection_of(path) && exists|i: int|
            0 <= i < fields.len() && (#[trigger] fields[i]).0 == field && value_key(fields[i].1)
                == value_key(value),
{
}

/// Putting or deleting a document leaves the entries of every other path
/// as they were.
pub proof fn lemma_other_paths_untouched(
    index: Set<Posting>,
    path: Seq<char>,
    fields: Seq<(Seq<char>, Seq<char>)>,
    other: Posting,
)
    requires
        other.path != path,
    ensures
        (index + doc_postings(path, fields)).contains(other) == index.contains(other),
        index.filter(|p: Posting| p.path != path).contains(other) == index.contains(other),
{
}

impl IndexProvider for BasicIndexProvider {
    open spec fn ready(&self) -> bool {
        self.wf()
    }

    open spec fn postings(&self) -> Set<Posting> {
        self@
    }

    fn on_put(&mut self, doc_path: &str, doc: &Document) {
        BasicIndexProvider::on_put(self, doc_path, doc)
    }

    fn on_delete(&mut self, doc_path: &str) {
        BasicIndexProvider::on_delete(self, doc_path)
    }

    fn query(&self, query: &QueryAst) -> (r: Vec<String>) {
        BasicIndexProvider::query(self, query)
    }
}

} // verus!
