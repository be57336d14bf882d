//! Queries, and the inverted index that answers them.

pub mod basic_index;
pub mod composite;

use crate::index::basic_index::{doc_postings, value_key, Posting};
use crate::model::{
    contains_value, holds, json_array, json_equal, json_same, parse_json_array, Document,
};
use crate::text::texts;
use vstd::prelude::*;

verus! {

/// What a query asks of a field's value. A JSON value is given as its text.
#[derive(Debug)]
pub enum QueryOperator {
    /// Equal to the value.
    Equal(String),
    /// One of the values.
    In(Vec<String>),
    /// None of the values.
    NotIn(Vec<String>),
    /// An array that holds the value.
    ArrayContains(String),
    /// An array that holds one of the values.
    ArrayContainsAny(Vec<String>),
    /// Less than the value.
    LessThan(String),
    /// Less than or equal to the value.
    LessThanOrEqual(String),
    /// Greater than the value.
    GreaterThan(String),
    /// Greater than or equal to the value.
    GreaterThanOrEqual(String),
}

/// Whether `items` holds one of `values`.
fn holds_any(items: &Vec<String>, values: &Vec<String>) -> (r: bool)
    ensures
        r == exists|i: int| 0 <= i < values@.len() && holds(texts(items@), #[trigger] values@[i]@),
{
    let mut i: usize = 0;
    while i < values.len()
        invariant
            i <= values.len(),
            forall|k: int| 0 <= k < i ==> !holds(texts(items@), #[trigger] values@[k]@),
        decreases values.len() - i,
    {
        if contains_value(items, values[i].as_str()) {
            assert(holds(texts(items@), values@[i as int]@));
            return true;
        }
        i = i + 1;
    }
    false
}

impl QueryOperator {
    /// Whether the value with the JSON text `value` stands in the relation
    /// that the operator asks for: it is the operator's value; it is, or is
    /// not, among the operator's values; it is an array that holds the
    /// operator's value, or one of the operator's values. Two values are
    /// the same where `serde_json` finds them equal. An operator that asks
    /// for an order goes by `compared`, which is negative, zero or positive
    /// as the value comes before, with or after the operator's value.
    pub open spec fn accepts(self, value: Seq<char>, compared: int) -> bool {
        match self {
            QueryOperator::Equal(v) => json_same(value, v@),
            QueryOperator::In(values) => holds(texts(values@), value),
            QueryOperator::NotIn(values) => !holds(texts(values@), value),
            QueryOperator::ArrayContains(v) => match json_array(value) {
                Some(items) => holds(items, v@),
                None => false,
            },
            QueryOperator::ArrayContainsAny(values) => match json_array(value) {
                Some(items) => exists|i: int|
                    0 <= i < values@.len() && holds(items, #[trigger] values@[i]@),
                None => false,
            },
            QueryOperator::LessThan(_) => compared < 0,
            QueryOperator::LessThanOrEqual(_) => compared <= 0,
            QueryOperator::GreaterThan(_) => compared > 0,
            QueryOperator::GreaterThanOrEqual(_) => compared >= 0,
        }
    }

    /// Whether the operator asks for an order of two values.
    pub fn is_ordering(&self) -> (r: bool)
        ensures
            r == (self is LessThan || self is LessThanOrEqual || self is GreaterThan
                || self is GreaterThanOrEqual),
    {
        match self {
            QueryOperator::LessThan(_) => true,
            QueryOperator::LessThanOrEqual(_) => true,
            QueryOperator::GreaterThan(_) => true,
            QueryOperator::GreaterThanOrEqual(_) => true,
            _ => false,
        }
    }

    /// Whether the value with the JSON text `value` matches the operator,
    /// where `compared` says how the value compares with the operator's
    /// value.
    pub fn matches(&self, value: &str, compared: i32) -> (r: bool)
        ensures
            r == self.accepts(value@, compared as int),
    {
        match self {
            QueryOperator::Equal(v) => json_equal(value, v.as_str()),
            QueryOperator::In(values) => contains_value(values, value),
            QueryOperator::NotIn(values) => !contains_value(values, value),
            QueryOperator::ArrayContains(v) => match parse_json_array(value) {
                Some(items) => contains_value(&items, v.as_str()),
                None => false,
            },
            QueryOperator::ArrayContainsAny(values) => match parse_json_array(value) {
                Some(items) => holds_any(&items, values),
                None => false,
            },
            QueryOperator::LessThan(_) => compared < 0,
            QueryOperator::LessThanOrEqual(_) => compared <= 0,
            QueryOperator::GreaterThan(_) => compared > 0,
            QueryOperator::GreaterThanOrEqual(_) => compared >= 0,
        }
    }
}

/// An index that is told of every document that is put or deleted and that
/// gives the paths of the documents that a query asks for.
pub trait IndexProvider {
    /// The invariant of the index.
    open spec fn ready(&self) -> bool {
        arbitrary()
    }

    /// What the index holds: for each document that it was told of, one
    /// entry for each of its fields.
    open spec fn postings(&self) -> Set<Posting> {
        arbitrary()
    }

    /// Brings the document at `doc_path` into the index, in the place of
    /// what the index holds for the path.
    fn on_put(&mut self, doc_path: &str, doc: &Document)
        requires
            old(self).ready(),
        ensures
            final(self).ready(),
            final(self).postings() == old(self).postings().filter(
                |p: Posting| p.path != doc_path@,
            ) + doc_postings(doc_path@, doc@.fields),
    ;

    /// Takes every entry for the document at `doc_path` out of the index.
    fn on_delete(&mut self, doc_path: &str)
        requires
            old(self).ready(),
        ensures
            final(self).ready(),
            final(self).postings() == old(self).postings().filter(
                |p: Posting| p.path != doc_path@,
            ),
    ;

    /// The paths of the documents that `query` asks for, each once: for
    /// equality, those of the entries of the query's collection, field and
    /// value; nothing for any other operator.
    fn query(&self, query: &QueryAst) -> (r: Vec<String>)
        requires
            self.ready(),
        ensures
            forall|i: int, j: int| 0 <= i < j < r@.len() ==> #[trigger] r@[i]@ != #[trigger] r@[j]@,
            match query.equality() {
                Some(q) => forall|path: Seq<char>|
                    (exists|i: int| 0 <= i < r@.len() && #[trigger] r@[i]@ == path)
                        <==> self.postings().contains(
                        Posting {
                            collection: q.collection,
                            field: q.field,
                            key: value_key(q.value),
                            path,
                        },
                    ),
                None => r@.len() == 0,
            },
    ;
}

/// A query: the documents of a collection whose field stands in the given
/// relation to a value.
#[derive(Debug)]
pub struct QueryAst {
    pub collection: Option<String>,
    pub field: String,
    pub operator: QueryOperator,
}

/// A query as plain values, where it asks for equality: the collection, the
/// field and the text of the value.
pub struct EqualQuery {
    pub collection: Seq<char>,
    pub field: Seq<char>,
    pub value: Seq<char>,
}

impl QueryAst {
    /// The collection that the query is about: `default` where none is
    /// named.
    pub open spec fn collection_name(&self) -> Seq<char> {
        match self.collection {
            Some(c) => c@,
            None => "default"@,
        }
    }

    /// The query as plain values where it asks for equality, and `None`
    /// where it asks for something else.
    pub open spec fn equality(&self) -> Option<EqualQuery> {
        match self.operator {
            QueryOperator::Equal(v) => Some(
                EqualQuery { collection: self.collection_name(), field: self.field@, value: v@ },
            ),
            _ => None,
        }
    }

    /// A copy of the query.
    pub fn duplicate(&self) -> (r: QueryAst)
        ensures
            r.equality() == self.equality(),
            r.collection_name() == self.collection_name(),
            r.field@ == self.field@,
    {
        let collection = match &self.collection {
            Some(c) => Some(c.clone()),
            None => None,
        };
        let operator = match &self.operator {
            QueryOperator::Equal(v) => QueryOperator::Equal(v.clone()),
            QueryOperator::In(v) => QueryOperator::In(v.clone()),
            QueryOperator::NotIn(v) => QueryOperator::NotIn(v.clone()),
            QueryOperator::ArrayContains(v) => QueryOperator::ArrayContains(v.clone()),
            QueryOperator::ArrayContainsAny(v) => QueryOperator::ArrayContainsAny(v.clone()),
            QueryOperator::LessThan(v) => QueryOperator::LessThan(v.clone()),
            QueryOperator::LessThanOrEqual(v) => QueryOperator::LessThanOrEqual(v.clone()),
            QueryOperator::GreaterThan(v) => QueryOperator::GreaterThan(v.clone()),
            QueryOperator::GreaterThanOrEqual(v) => QueryOperator::GreaterThanOrEqual(v.clone()),
        };
        QueryAst { collection, field: self.field.clone(), operator }
    }
}

} // verus!
