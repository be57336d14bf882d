//! Documents, and the JSON text that they are read from and written as.
//!
//! A JSON value is held as its text. What a text means as JSON is decided by
//! `serde_json`; the functions that call it are named below, and what they
//! return is named by spec functions without a body.

use crate::text::{decimal, decimal_chars, str_eq, string_of, texts};
use vstd::prelude::*;

verus! {

/// The members of the JSON object that `text` is, each as its name and the
/// compact JSON text of its value, in `serde_json`'s order of the names;
/// `None` where `text` is not a JSON object.
pub uninterp spec fn json_object(text: Seq<char>) -> Option<Seq<(Seq<char>, Seq<char>)>>;

/// The string that `text` is as JSON; `None` where it is not a JSON string.
pub uninterp spec fn json_string(text: Seq<char>) -> Option<Seq<char>>;

/// The number that `text` is as JSON, where it is an integer that a `u64`
/// holds; `None` otherwise.
pub uninterp spec fn json_u64(text: Seq<char>) -> Option<u64>;

/// The compact JSON text of the value that `text` is as JSON; `None` where
/// `text` is not JSON.
pub uninterp spec fn json_canonical(text: Seq<char>) -> Option<Seq<char>>;

/// Whether `text` is JSON.
pub uninterp spec fn json_valid(text: Seq<char>) -> bool;

/// The compact JSON text of the object with the given members, each a name
/// and the JSON text of its value; `None` where a value is not JSON.
pub uninterp spec fn json_object_text(members: Seq<(Seq<char>, Seq<char>)>) -> Option<Seq<char>>;

/// The JSON text of a string.
pub uninterp spec fn json_string_text(s: Seq<char>) -> Seq<char>;

/// A list of names and texts as plain values.
pub open spec fn member_models(members: Seq<(String, String)>) -> Seq<(Seq<char>, Seq<char>)> {
    Seq::new(members.len(), |i: int| (members[i].0@, members[i].1@))
}

/// `serde_json::from_str` into a `serde_json::Map`, each value rendered with
/// its `Display`: the members of a JSON object.
#[verifier::external_body]
pub(crate) fn parse_json_object(text: &str) -> (r: Option<Vec<(String, String)>>)
    ensures
        match r {
            Some(members) => json_object(text@) == Some(member_models(members@)),
            None => json_object(text@) is None,
        },
{
    let parsed = serde_json::from_str::<serde_json::Map<String, serde_json::Value>>(text);
    parsed.ok().map(|m| m.into_iter().map(|(k, v)| (k, v.to_string())).collect())
}

/// `serde_json::from_str` into a `String`: the content of a JSON string.
#[verifier::external_body]
pub(crate) fn parse_json_string(text: &str) -> (r: Option<String>)
    ensures
        match r {
            Some(s) => json_string(text@) == Some(s@),
            None => json_string(text@) is None,
        },
{
    serde_json::from_str::<String>(text).ok()
}

/// `serde_json::from_str` into a `u64`.
#[verifier::external_body]
pub(crate) fn parse_json_u64(text: &str) -> (r: Option<u64>)
    ensures
        r == json_u64(text@),
{
    serde_json::from_str::<u64>(text).ok()
}

/// `serde_json::from_str` into a `serde_json::Value`, rendered with its
/// `Display`: the compact text of a JSON value.
#[verifier::external_body]
pub(crate) fn canonical_json(text: &str) -> (r: Option<String>)
    ensures
        match r {
            Some(s) => json_canonical(text@) == Some(s@),
            None => json_canonical(text@) is None,
        },
{
    serde_json::from_str::<serde_json::Value>(text).ok().map(|v| v.to_string())
}

/// `serde_json::from_str` into `serde::de::IgnoredAny`: whether a text is
/// JSON.
#[verifier::external_body]
pub(crate) fn is_json(text: &str) -> (r: bool)
    ensures
        r == json_valid(text@),
{
    serde_json::from_str::<serde::de::IgnoredAny>(text).is_ok()
}

/// Renders, with `serde_json`'s `Display`, the object that
/// `serde_json::Map::insert` builds from the members, each value read with
/// `serde_json::from_str`.
#[verifier::external_body]
pub(crate) fn render_json_object(members: &Vec<(String, String)>) -> (r: Option<String>)
    ensures
        match r {
            Some(s) => json_object_text(member_models(members@)) == Some(s@),
            None => json_object_text(member_models(members@)) is None,
        },
{
    let mut map = serde_json::Map::new();
    for (name, text) in members {
        map.insert(name.clone(), serde_json::from_str::<serde_json::Value>(text).ok()?);
    }
    Some(serde_json::Value::Object(map).to_string())
}

/// Renders a string as JSON, with `serde_json`'s `Display` for
/// `Value::String`.
#[verifier::external_body]
pub(crate) fn render_json_string(s: &str) -> (r: String)
    ensures
        r@ == json_string_text(s@),
{
    serde_json::Value::String(s.to_owned()).to_string()
}

/// The number that `text` is as JSON, where it is an integer that an `i64`
/// holds; `None` otherwise.
pub uninterp spec fn json_i64(text: Seq<char>) -> Option<i64>;

/// The elements of the JSON array that `text` is, each as its compact JSON
/// text; `None` where `text` is not a JSON array.
pub uninterp spec fn json_array(text: Seq<char>) -> Option<Seq<Seq<char>>>;

/// The compact JSON text of the array with the given elements, each a JSON
/// text; `None` where an element is not JSON.
pub uninterp spec fn json_array_text(items: Seq<Seq<char>>) -> Option<Seq<char>>;

/// Whether `a` and `b` are both JSON and the same value.
pub uninterp spec fn json_same(a: Seq<char>, b: Seq<char>) -> bool;

/// The decimal digits of an integer, after a minus sign where it is
/// negative.
pub open spec fn signed_decimal(n: int) -> Seq<char> {
    if n < 0 {
        seq!['-'] + decimal((-n) as nat)
    } else {
        decimal(n as nat)
    }
}

/// A text that may be absent, as a plain value.
pub open spec fn text_model(text: Option<String>) -> Option<Seq<char>> {
    match text {
        Some(s) => Some(s@),
        None => None,
    }
}

/// `serde_json::from_str` into a `serde_json::Value`, then
/// `serde_json::Value::as_i64`.
#[verifier::external_body]
pub(crate) fn parse_json_i64(text: &str) -> (r: Option<i64>)
    ensures
        r == json_i64(text@),
{
    match serde_json::from_str::<serde_json::Value>(text) {
        Ok(v) => v.as_i64(),
        Err(_) => None,
    }
}

/// `serde_json::from_str` into a `serde_json::Value`: the elements of a
/// JSON array, each rendered with its `Display`.
#[verifier::external_body]
pub(crate) fn parse_json_array(text: &str) -> (r: Option<Vec<String>>)
    ensures
        match r {
            Some(items) => json_array(text@) == Some(texts(items@)),
            None => json_array(text@) is None,
        },
{
    match serde_json::from_str::<serde_json::Value>(text) {
        Ok(serde_json::Value::Array(items)) => {
            let mut out = Vec::new();
            for item in items.iter() {
                out.push(item.to_string());
            }
            Some(out)
        },
        _ => None,
    }
}

/// Renders, with `serde_json`'s `Display`, the `serde_json::Value::Array` of
/// the elements, each read with `serde_json::from_str`.
#[verifier::external_body]
pub(crate) fn render_json_array(items: &Vec<String>) -> (r: Option<String>)
    ensures
        text_model(r) == json_array_text(texts(items@)),
{
    let mut values = Vec::new();
    for text in items.iter() {
        values.push(serde_json::from_str::<serde_json::Value>(text).ok()?);
    }
    Some(serde_json::Value::Array(values).to_string())
}

/// `==` of `serde_json::Value` on two texts read with
/// `serde_json::from_str`.
#[verifier::external_body]
pub(crate) fn json_equal(a: &str, b: &str) -> (r: bool)
    ensures
        r == json_same(a@, b@),
{
    match (
        serde_json::from_str::<serde_json::Value>(a),
        serde_json::from_str::<serde_json::Value>(b),
    ) {
        (Ok(x), Ok(y)) => x == y,
        _ => false,
    }
}

/// Renders an integer with `serde_json`'s `Display` for
/// `serde_json::Value::Number`: its decimal digits, after a minus sign where
/// it is negative.
#[verifier::external_body]
pub(crate) fn render_json_i64(n: i64) -> (r: String)
    ensures
        r@ == signed_decimal(n as int),
{
    serde_json::Value::Number(n.into()).to_string()
}

/// Whether an element of `items` is the same JSON value as `x`.
pub open spec fn holds(items: Seq<Seq<char>>, x: Seq<char>) -> bool {
    exists|i: int| 0 <= i < items.len() && json_same(#[trigger] items[i], x)
}

/// Whether an element of `items` is the same JSON value as `x`.
pub fn contains_value(items: &Vec<String>, x: &str) -> (r: bool)
    ensures
        r == holds(texts(items@), x@),
{
    let mut i: usize = 0;
    while i < items.len()
        invariant
            i <= items.len(),
            forall|k: int| 0 <= k < i ==> !json_same(#[trigger] texts(items@)[k], x@),
        decreases items.len() - i,
    {
        if json_equal(items[i].as_str(), x) {
            assert(texts(items@)[i as int] == items@[i as int]@);
            return true;
        }
        i = i + 1;
    }
    false
}

/// `std::str::from_utf8`: the text of bytes that are well-formed UTF-8.
#[verifier::external_body]
pub(crate) fn text_from_utf8(bytes: &[u8]) -> (r: Option<&str>)
    ensures
        match r {
            Some(s) => vstd::utf8::valid_utf8(bytes@) && s@ == vstd::utf8::decode_utf8(bytes@),
            None => !vstd::utf8::valid_utf8(bytes@),
        },
{
    std::str::from_utf8(bytes).ok()
}

/// Why a text is not a document.
#[derive(Clone, Copy, Debug, PartialEq, Eq, Structural)]
pub enum DocumentError {
    NotAnObject,
    MissingPath,
    PathNotAString,
    MissingFields,
    FieldsNotAnObject,
    BadVersion,
    BadFieldValue,
    TooManyItems,
}

/// A document: its path, its fields, each a name and the JSON text of its
/// value, and its version.
#[derive(Debug, Clone)]
pub struct Document {
    pub path: String,
    pub fields: Vec<(String, String)>,
    pub version: u64,
}

/// A document as plain values.
pub struct DocumentModel {
    pub path: Seq<char>,
    pub fields: Seq<(Seq<char>, Seq<char>)>,
    pub version: u64,
}

impl View for Document {
    type V = DocumentModel;

    open spec fn view(&self) -> DocumentModel {
        DocumentModel {
            path: self.path@,
            fields: member_models(self.fields@),
            version: self.version,
        }
    }
}

/// The text of the first member with the given name.
pub open spec fn member(members: Seq<(Seq<char>, Seq<char>)>, name: Seq<char>) -> Option<Seq<char>>
    decreases members.len(),
{
    if members.len() == 0 {
        None
    } else if members[0].0 == name {
        Some(members[0].1)
    } else {
        member(members.drop_first(), name)
    }
}

/// The document that a list of JSON texts stands for: the path, the
/// fields, and the version, which is 0 where the list ends before it.
pub open spec fn document_of_list(items: Seq<Seq<char>>) -> Result<DocumentModel, DocumentError> {
    if items.len() == 0 {
        Err(DocumentError::MissingPath)
    } else {
        match json_string(items[0]) {
            None => Err(DocumentError::PathNotAString),
            Some(path) => if items.len() == 1 {
                Err(DocumentError::MissingFields)
            } else {
                match json_object(items[1]) {
                    None => Err(DocumentError::FieldsNotAnObject),
                    Some(fields) => if items.len() == 2 {
                        Ok(DocumentModel { path, fields, version: 0 })
                    } else {
                        match json_u64(items[2]) {
                            None => Err(DocumentError::BadVersion),
                            Some(version) => if items.len() == 3 {
                                Ok(DocumentModel { path, fields, version })
                            } else {
                                Err(DocumentError::TooManyItems)
                            },
                        }
                    },
                }
            },
        }
    }
}

/// The document that a JSON text stands for: an object with a string
/// `path`, an object `fields`, and a `version` that is a `u64` and 0 where
/// it is left out, other members not being looked at; or an array of the
/// path, the fields and, where it goes on, the version.
pub open spec fn document_of(text: Seq<char>) -> Result<DocumentModel, DocumentError> {
    match json_object(text) {
        None => match json_array(text) {
            Some(items) => document_of_list(items),
            None => Err(DocumentError::NotAnObject),
        },
        Some(members) => match member(members, "path"@) {
            None => Err(DocumentError::MissingPath),
            Some(path_text) => match json_string(path_text) {
                None => Err(DocumentError::PathNotAString),
                Some(path) => match member(members, "fields"@) {
                    None => Err(DocumentError::MissingFields),
                    Some(fields_text) => match json_object(fields_text) {
                        None => Err(DocumentError::FieldsNotAnObject),
                        Some(fields) => match member(members, "version"@) {
                            None => Ok(DocumentModel { path, fields, version: 0 }),
                            Some(version_text) => match json_u64(version_text) {
                                None => Err(DocumentError::BadVersion),
                                Some(version) => Ok(DocumentModel { path, fields, version }),
                            },
                        },
                    },
                },
            },
        },
    }
}

/// The JSON text of a document: the object of its `path`, its `fields` and
/// its `version`; `None` where the text of a field's value is not JSON.
pub open spec fn document_text(doc: DocumentModel) -> Option<Seq<char>> {
    match json_object_text(doc.fields) {
        None => None,
        Some(fields) => json_object_text(
            seq![
                ("path"@, json_string_text(doc.path)),
                ("fields"@, fields),
                ("version"@, decimal(doc.version as nat)),
            ],
        ),
    }
}

/// The text of the first member of `members` with the given name.
pub fn find_member<'a>(members: &'a Vec<(String, String)>, name: &str) -> (r: Option<&'a String>)
    ensures
        match r {
            Some(text) => member(member_models(members@), name@) == Some(text@),
            None => member(member_models(members@), name@) is None,
        },
{
    let ghost all = member_models(members@);
    let mut i: usize = 0;
    assert(all.skip(0) =~= all);
    while i < members.len()
        invariant
            i <= members.len(),
            all == member_models(members@),
            member(all, name@) == member(all.skip(i as int), name@),
        decreases members.len() - i,
    {
        assert(all.skip(i as int)[0] == all[i as int]);
        assert(all.skip(i as int).drop_first() =~= all.skip(i + 1));
        if str_eq(members[i].0.as_str(), name) {
            return Some(&members[i].1);
        }
        i = i + 1;
    }
    None
}

impl Document {
    /// Reads a document from the JSON texts of its path, its fields and,
    /// where the list goes on, its version.
    fn from_list(items: &Vec<String>) -> (r: Result<Document, DocumentError>)
        ensures
            match r {
                Ok(doc) => document_of_list(texts(items@)) == Ok::<DocumentModel, DocumentError>(
                    doc@,
                ),
                Err(e) => document_of_list(texts(items@)) == Err::<DocumentModel, DocumentError>(
                    e,
                ),
            },
    {
        if items.len() == 0 {
            return Err(DocumentError::MissingPath);
        }
        assert(texts(items@)[0] == items@[0]@);
        let path = match parse_json_string(items[0].as_str()) {
            Some(p) => p,
            None => {
                return Err(DocumentError::PathNotAString);
            },
        };
        if items.len() == 1 {
            return Err(DocumentError::MissingFields);
        }
        assert(texts(items@)[1] == items@[1]@);
        let fields = match parse_json_object(items[1].as_str()) {
            Some(f) => f,
            None => {
                return Err(DocumentError::FieldsNotAnObject);
            },
        };
        if items.len() == 2 {
            return Ok(Document { path, fields, version: 0 });
        }
        assert(texts(items@)[2] == items@[2]@);
        let version = match parse_json_u64(items[2].as_str()) {
            Some(v) => v,
            None => {
                return Err(DocumentError::BadVersion);
            },
        };
        if items.len() == 3 {
            Ok(Document { path, fields, version })
        } else {
            Err(DocumentError::TooManyItems)
        }
    }

    /// Reads a document from its JSON text.
    pub fn from_json(json_str: &str) -> (r: Result<Document, DocumentError>)
        ensures
            match r {
                Ok(doc) => document_of(json_str@) == Ok::<DocumentModel, DocumentError>(doc@),
                Err(e) => document_of(json_str@) == Err::<DocumentModel, DocumentError>(e),
            },
    {
        let members = match parse_json_object(json_str) {
            Some(m) => m,
            None => {
                return match parse_json_array(json_str) {
                    Some(items) => Document::from_list(&items),
                    None => Err(DocumentError::NotAnObject),
                };
            },
        };
        let path = match find_member(&members, "path") {
            None => {
                return Err(DocumentError::MissingPath);
            },
            Some(text) => match parse_json_string(text.as_str()) {
                Some(p) => p,
                None => {
                    return Err(DocumentError::PathNotAString);
                },
            },
        };
        let fields = match find_member(&members, "fields") {
            None => {
                return Err(DocumentError::MissingFields);
            },
            Some(text) => match parse_json_object(text.as_str()) {
                Some(f) => f,
                None => {
                    return Err(DocumentError::FieldsNotAnObject);
                },
            },
        };
        let version = match find_member(&members, "version") {
            None => 0,
            Some(text) => match parse_json_u64(text.as_str()) {
                Some(v) => v,
                None => {
                    return Err(DocumentError::BadVersion);
                },
            },
        };
        Ok(Document { path, fields, version })
    }

    /// Writes the document as JSON text. `BadFieldValue` is returned where
    /// the text of a field's value is not JSON.
    pub fn to_json(&self) -> (r: Result<String, DocumentError>)
        ensures
            match r {
                Ok(text) => document_text(self@) == Some(text@),
                Err(e) => e == DocumentError::BadFieldValue && document_text(self@) is None,
            },
    {
        let fields = match render_json_object(&self.fields) {
            Some(f) => f,
            None => {
                return Err(DocumentError::BadFieldValue);
            },
        };
        let mut members: Vec<(String, String)> = Vec::new();
        members.push(("path".to_owned(), render_json_string(self.path.as_str())));
        members.push(("fields".to_owned(), fields));
        members.push(("version".to_owned(), string_of(decimal_chars(self.version).as_slice())));
        assert(member_models(members@) =~= seq![
            ("path"@, json_string_text(self@.path)),
            ("fields"@, json_object_text(self@.fields)->0),
            ("version"@, decimal(self@.version as nat)),
        ]);
        match render_json_object(&members) {
            Some(text) => Ok(text),
            None => Err(DocumentError::BadFieldValue),
        }
    }

    /// The JSON text of the value of the field `name`.
    pub fn field(&self, name: &str) -> (r: Option<&String>)
        ensures
            match r {
                Some(text) => member(self@.fields, name@) == Some(text@),
                None => member(self@.fields, name@) is None,
            },
    {
        find_member(&self.fields, name)
    }

    /// A copy of the document.
    pub fn duplicate(&self) -> (r: Document)
        ensures
            r@ == self@,
    {
        let mut fields: Vec<(String, String)> = Vec::new();
        let mut i: usize = 0;
        while i < self.fields.len()
            invariant
                i <= self.fields.len(),
                fields@.len() == i,
                forall|j: int|
                    0 <= j < i ==> (#[trigger] fields@[j]).0@ == self.fields@[j].0@ && fields@[j].1@
                        == self.fields@[j].1@,
            decreases self.fields.len() - i,
        {
            fields.push((self.fields[i].0.clone(), self.fields[i].1.clone()));
            i = i + 1;
        }
        assert(member_models(fields@) =~= member_models(self.fields@));
        Document { path: self.path.clone(), fields, version: self.version }
    }
}

} // verus!
