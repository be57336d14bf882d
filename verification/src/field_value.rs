//! Changes of a field that are worked out when a document is written: the
//! time of the write, a number raised by an amount, an array that gains or
//! loses elements, a field that is taken out.
//!
//! A JSON value is held as its text. Numbers, arrays and the equality of two
//! values are `serde_json`'s; the functions that call it are named below.

use crate::model::{
    contains_value, find_member, holds, json_array, json_array_text, json_i64, member,
    member_models, parse_json_array, parse_json_i64, render_json_array, render_json_i64,
    signed_decimal, text_model,
};
use crate::store::io::now_nanos;
use crate::text::texts;
use vstd::prelude::*;

verus! {

/// The text that a field holds, as a plain value.
pub open spec fn held_text(existing: Option<&str>) -> Option<Seq<char>> {
    match existing {
        Some(text) => Some(text@),
        None => None,
    }
}

/// The fields that a document had, as plain values.
pub open spec fn held_members(existing: Option<&Vec<(String, String)>>) -> Option<
    Seq<(Seq<char>, Seq<char>)>,
> {
    match existing {
        Some(members) => Some(member_models(members@)),
        None => None,
    }
}

/// `base` followed by the elements of `more`, in their order, each left out
/// where an element before it is the same JSON value.
pub open spec fn union(base: Seq<Seq<char>>, more: Seq<Seq<char>>) -> Seq<Seq<char>>
    decreases more.len(),
{
    if more.len() == 0 {
        base
    } else {
        let before = union(base, more.drop_last());
        if holds(before, more.last()) {
            before
        } else {
            before.push(more.last())
        }
    }
}

/// `base` without the elements that are the same JSON value as an element
/// of `gone`.
pub open spec fn without(base: Seq<Seq<char>>, gone: Seq<Seq<char>>) -> Seq<Seq<char>>
    decreases base.len(),
{
    if base.len() == 0 {
        Seq::empty()
    } else {
        let before = without(base.drop_last(), gone);
        if holds(gone, base.last()) {
            before
        } else {
            before.push(base.last())
        }
    }
}

/// The elements of the array that a field holds: none where the field is
/// absent or holds no array.
pub open spec fn base_items(existing: Option<Seq<char>>) -> Seq<Seq<char>> {
    match existing {
        Some(text) => match json_array(text) {
            Some(items) => items,
            None => Seq::empty(),
        },
        None => Seq::empty(),
    }
}

/// The number that a field holds: 0 where the field is absent or holds no
/// integer.
pub open spec fn base_number(existing: Option<Seq<char>>) -> i64 {
    match existing {
        Some(text) => match json_i64(text) {
            Some(n) => n,
            None => 0,
        },
        None => 0,
    }
}

/// A change of a field that is worked out when the document is written.
/// The elements of an array are JSON texts.
#[derive(Debug, Clone, PartialEq, Eq)]
pub enum FieldValue {
    /// The field becomes the time of the write.
    ServerTimestamp,
    /// The number in the field is raised by the amount.
    Increment(i64),
    /// The array in the field gains the elements that it does not hold.
    ArrayUnion(Vec<String>),
    /// The array in the field loses the elements.
    ArrayRemove(Vec<String>),
    /// The field is taken out.
    Delete,
}

impl FieldValue {
    /// The change that sets a field to the time of the write.
    pub fn server_timestamp() -> (r: Self)
        ensures
            r == FieldValue::ServerTimestamp,
    {
        FieldValue::ServerTimestamp
    }

    /// The change that raises a number by `n`.
    pub fn increment(n: i64) -> (r: Self)
        ensures
            r == FieldValue::Increment(n),
    {
        FieldValue::Increment(n)
    }

    /// The change that adds `elements` to an array.
    pub fn array_union(elements: Vec<String>) -> (r: Self)
        ensures
            r == FieldValue::ArrayUnion(elements),
    {
        FieldValue::ArrayUnion(elements)
    }

    /// The change that takes `elements` out of an array.
    pub fn array_remove(elements: Vec<String>) -> (r: Self)
        ensures
            r == FieldValue::ArrayRemove(elements),
    {
        FieldValue::ArrayRemove(elements)
    }

    /// The change that takes a field out.
    pub fn delete() -> (r: Self)
        ensures
            r == FieldValue::Delete,
    {
        FieldValue::Delete
    }

    /// The JSON text of the field after the change, where `existing` is the
    /// text that the field holds and `now` the time in milliseconds:
    /// - the time;
    /// - the number that the field holds, or 0, raised by the amount, with
    ///   wrap-around at the bounds of `i64`;
    /// - the array that the field holds, or the empty one, followed by the
    ///   new elements that it does not hold yet;
    /// - the array that the field holds, or the empty one, without the
    ///   elements that are to go;
    /// - `None` for a field that is taken out.
    /// An array with an element that is not JSON has no text.
    pub open spec fn applied(self, existing: Option<Seq<char>>, now: i64) -> Option<Seq<char>> {
        match self {
            FieldValue::ServerTimestamp => Some(signed_decimal(now as int)),
            FieldValue::Increment(delta) => Some(
                signed_decimal(base_number(existing).wrapping_add(delta) as int),
            ),
            FieldValue::ArrayUnion(elements) => json_array_text(
                union(base_items(existing), texts(elements@)),
            ),
            FieldValue::ArrayRemove(elements) => json_array_text(
                without(base_items(existing), texts(elements@)),
            ),
            FieldValue::Delete => None,
        }
    }

    /// Applies the change to what a field holds, at the time `now`, in
    /// milliseconds since the Unix epoch.
    pub fn apply_at(&self, existing: Option<&str>, now: i64) -> (r: Option<String>)
        ensures
            text_model(r) == self.applied(
                held_text(existing),
                now,
            ),
    {
        match self {
            FieldValue::ServerTimestamp => Some(render_json_i64(now)),
            FieldValue::Increment(delta) => {
                let current: i64 = match existing {
                    Some(text) => match parse_json_i64(text) {
                        Some(n) => n,
                        None => 0,
                    },
                    None => 0,
                };
                Some(render_json_i64(current.wrapping_add(*delta)))
            },
            FieldValue::ArrayUnion(elements) => {
                let mut result = existing_items(existing);
                let ghost base = texts(result@);
                let mut i: usize = 0;
                assert(texts(elements@).take(0) =~= Seq::<Seq<char>>::empty());
                while i < elements.len()
                    invariant
                        i <= elements.len(),
                        texts(result@) == union(base, texts(elements@).take(i as int)),
                    decreases elements.len() - i,
                {
                    let ghost all = texts(elements@);
                    assert(all.take(i + 1).drop_last() =~= all.take(i as int));
                    assert(all.take(i + 1).last() == elements@[i as int]@);
                    if !contains_value(&result, elements[i].as_str()) {
                        let ghost before = texts(result@);
                        result.push(elements[i].clone());
                        assert(texts(result@) =~= before.push(elements@[i as int]@));
                    }
                    i = i + 1;
                }
                assert(texts(elements@).take(elements@.len() as int) =~= texts(elements@));
                render_json_array(&result)
            },
            FieldValue::ArrayRemove(elements) => {
                let base = existing_items(existing);
                let mut result: Vec<String> = Vec::new();
                let mut i: usize = 0;
                assert(texts(base@).take(0) =~= Seq::<Seq<char>>::empty());
                assert(texts(result@) =~= Seq::<Seq<char>>::empty());
                while i < base.len()
                    invariant
                        i <= base.len(),
                        texts(result@) == without(
                            texts(base@).take(i as int),
                            texts(elements@),
                        ),
                    decreases base.len() - i,
                {
                    let ghost all = texts(base@);
                    assert(all.take(i + 1).drop_last() =~= all.take(i as int));
                    assert(all.take(i + 1).last() == base@[i as int]@);
                    if !contains_value(elements, base[i].as_str()) {
                        let ghost before = texts(result@);
                        result.push(base[i].clone());
                        assert(texts(result@) =~= before.push(base@[i as int]@));
                    }
                    i = i + 1;
                }
                assert(texts(base@).take(base@.len() as int) =~= texts(base@));
                render_json_array(&result)
            },
            FieldValue::Delete => None,
        }
    }

    /// Applies the change to what a field holds, at the time of the
    /// machine's clock.
    pub fn apply(&self, existing: Option<&str>) -> (r: Option<String>)
        ensures
            exists|now: i64|
                text_model(r) == #[trigger] self.applied(
                    held_text(existing),
                    now,
                ),
    {
        let now = now_millis();
        self.apply_at(existing, now)
    }
}

/// The time of the machine's clock in milliseconds since the Unix epoch:
/// its nanoseconds, divided by a million.
pub fn now_millis() -> (r: i64)
    ensures
        r >= 0,
        exists|nanos: u64| r == #[trigger] millis_of(nanos),
{
    let nanos = now_nanos();
    let millis: u64 = nanos / 1000000;
    assert(millis as i64 == millis_of(nanos));
    millis as i64
}

/// The milliseconds in a number of nanoseconds.
pub open spec fn millis_of(nanos: u64) -> i64 {
    (nanos / 1000000) as i64
}

/// The elements of the array that a field holds: none where the field is
/// absent or holds no array.
fn existing_items(existing: Option<&str>) -> (r: Vec<String>)
    ensures
        texts(r@) == base_items(
            held_text(existing),
        ),
{
    let items = match existing {
        Some(text) => match parse_json_array(text) {
            Some(items) => items,
            None => Vec::new(),
        },
        None => Vec::new(),
    };
    assert(texts(items@) =~= base_items(
        held_text(existing),
    ));
    items
}

/// A field of a document that is being written: its JSON text, or a change
/// that is still to be worked out.
#[derive(Debug, Clone, PartialEq, Eq)]
pub enum FieldEntry {
    /// The JSON text of the field.
    Plain(String),
    /// The change that gives the field.
    Change(FieldValue),
}

/// What a document holds under `name`, where there is a document.
pub open spec fn existing_member(
    existing: Option<Seq<(Seq<char>, Seq<char>)>>,
    name: Seq<char>,
) -> Option<Seq<char>> {
    match existing {
        Some(members) => member(members, name),
        None => None,
    }
}

/// The fields of a document once the changes among them are worked out
/// against the fields that the document had: a plain field stays, a change
/// gives its field the text that it works out, and the field goes where the
/// change gives none.
pub open spec fn processed(
    data: Seq<(String, FieldEntry)>,
    existing: Option<Seq<(Seq<char>, Seq<char>)>>,
    now: i64,
) -> Seq<(Seq<char>, Seq<char>)>
    decreases data.len(),
{
    if data.len() == 0 {
        Seq::empty()
    } else {
        let before = processed(data.drop_last(), existing, now);
        let name = data.last().0@;
        match data.last().1 {
            FieldEntry::Plain(text) => before.push((name, text@)),
            FieldEntry::Change(change) => match change.applied(
                existing_member(existing, name),
                now,
            ) {
                Some(text) => before.push((name, text)),
                None => before,
            },
        }
    }
}

/// Works out the changes among the fields `data` of a document against the
/// fields `existing_data` that the document had, at the time `now` in
/// milliseconds since the Unix epoch.
pub fn process_field_values_at(
    data: &Vec<(String, FieldEntry)>,
    existing_data: Option<&Vec<(String, String)>>,
    now: i64,
) -> (r: Vec<(String, String)>)
    ensures
        member_models(r@) == processed(
            data@,
            held_members(existing_data),
            now,
        ),
{
    let ghost existing = held_members(existing_data);
    let mut out: Vec<(String, String)> = Vec::new();
    let mut i: usize = 0;
    assert(data@.take(0) =~= Seq::<(String, FieldEntry)>::empty());
    assert(member_models(out@) =~= Seq::<(Seq<char>, Seq<char>)>::empty());
    while i < data.len()
        invariant
            i <= data.len(),
            existing == held_members(existing_data),
            member_models(out@) == processed(data@.take(i as int), existing, now),
        decreases data.len() - i,
    {
        assert(data@.take(i + 1).drop_last() =~= data@.take(i as int));
        assert(data@.take(i + 1).last() == data@[i as int]);
        let name = &data[i].0;
        let ghost before = member_models(out@);
        match &data[i].1 {
            FieldEntry::Plain(text) => {
                out.push((name.clone(), text.clone()));
                assert(member_models(out@) =~= before.push((name@, text@)));
            },
            FieldEntry::Change(change) => {
                let held: Option<&str> = match existing_data {
                    Some(members) => match find_member(members, name.as_str()) {
                        Some(text) => Some(text.as_str()),
                        None => None,
                    },
                    None => None,
                };
                match change.apply_at(held, now) {
                    Some(text) => {
                        out.push((name.clone(), text));
                        assert(member_models(out@) =~= before.push((name@, text@)));
                    },
                    None => {},
                }
            },
        }
        i = i + 1;
    }
    assert(data@.take(data@.len() as int) =~= data@);
    out
}

/// Works out the changes among the fields `data` of a document against the
/// fields `existing_data` that the document had, at the time of the
/// machine's clock.
pub fn process_field_values(
    data: &Vec<(String, FieldEntry)>,
    existing_data: Option<&Vec<(String, String)>>,
) -> (r: Vec<(String, String)>)
    ensures
        exists|now: i64|
            member_models(r@) == #[trigger] processed(
                data@,
                held_members(existing_data),
                now,
            ),
{
    let now = now_millis();
    process_field_values_at(data, existing_data, now)
}

} // verus!
