//! JSON documents as the library reads them.

use crate::text::str_eq;
use vstd::prelude::*;

verus! {

/// A JSON value. A number is kept as far as the library reads numbers: its
/// value where it is a whole number that 64 bits hold.
#[derive(Debug)]
pub enum Json {
    Null,
    Bool(bool),
    Number(Option<u64>),
    Text(String),
    Array(Vec<Json>),
    Object(Vec<(String, Json)>),
}

/// What a JSON value holds.
#[verifier::ext_equal]
pub enum JsonShape {
    Null,
    Bool(bool),
    Number(Option<u64>),
    Text(Seq<char>),
    Array(Seq<JsonShape>),
    Object(Seq<(Seq<char>, JsonShape)>),
}

impl Json {
    pub open spec fn shape(&self) -> JsonShape
        decreases self,
    {
        match self {
            Json::Null => JsonShape::Null,
            Json::Bool(b) => JsonShape::Bool(*b),
            Json::Number(n) => JsonShape::Number(*n),
            Json::Text(s) => JsonShape::Text(s@),
            Json::Array(items) => JsonShape::Array(
                Seq::new(
                    items@.len(),
                    |i: int|
                        if 0 <= i < items@.len() {
                            items@[i].shape()
                        } else {
                            JsonShape::Null
                        },
                ),
            ),
            Json::Object(members) => JsonShape::Object(
                Seq::new(
                    members@.len(),
                    |i: int|
                        if 0 <= i < members@.len() {
                            (members@[i].0@, members@[i].1.shape())
                        } else {
                            (Seq::<char>::empty(), JsonShape::Null)
                        },
                ),
            ),
        }
    }
}

/// `serde_json::Value`, carried as an opaque value.
#[verifier::external_type_specification]
#[verifier::external_body]
pub struct ExValue(serde_json::Value);

/// What a `serde_json::Value` holds.
pub uninterp spec fn value_shape(v: serde_json::Value) -> JsonShape;

/// What `serde_json::from_str` reads from a text: the document, or nothing
/// where the text is not one JSON document.
pub uninterp spec fn document_shape(text: Seq<char>) -> Option<JsonShape>;

/// One level of a `serde_json::Value`.
pub enum Node {
    Null,
    Bool(bool),
    Number(Option<u64>),
    Text(String),
    Array(Vec<serde_json::Value>),
    Object(Vec<(String, serde_json::Value)>),
}

/// Calls `serde_json::from_str` for a `serde_json::Value`. The document is a
/// function of the text.
#[verifier::external_body]
fn read_document(text: &str) -> (r: Option<serde_json::Value>)
    ensures
        match r {
            Some(v) => document_shape(text@) == Some(value_shape(v)),
            None => document_shape(text@) is None,
        },
{
    serde_json::from_str::<serde_json::Value>(text).ok()
}

/// Takes a `serde_json::Value` apart by one level: the variants of the two
/// enums correspond, a number is read by `serde_json::Number::as_u64`, and
/// the members of an object come in the order of its map.
#[verifier::external_body]
fn open_value(v: serde_json::Value) -> (r: Node)
    ensures
        match r {
            Node::Null => value_shape(v) == JsonShape::Null,
            Node::Bool(b) => value_shape(v) == JsonShape::Bool(b),
            Node::Number(n) => value_shape(v) == JsonShape::Number(n),
            Node::Text(s) => value_shape(v) == JsonShape::Text(s@),
            Node::Array(items) => value_shape(v) == JsonShape::Array(
                Seq::new(items@.len(), |i: int| value_shape(items@[i])),
            ),
            Node::Object(members) => value_shape(v) == JsonShape::Object(
                Seq::new(members@.len(), |i: int| (members@[i].0@, value_shape(members@[i].1))),
            ),
        },
{
    match v {
        serde_json::Value::Null => Node::Null,
        serde_json::Value::Bool(b) => Node::Bool(b),
        serde_json::Value::Number(n) => Node::Number(n.as_u64()),
        serde_json::Value::String(s) => Node::Text(s),
        serde_json::Value::Array(items) => Node::Array(items),
        serde_json::Value::Object(members) => Node::Object(members.into_iter().collect()),
    }
}

/// The library's form of a `serde_json::Value`.
pub fn from_value(v: serde_json::Value) -> (r: Json)
    ensures
        r.shape() == value_shape(v),
    decreases value_shape(v),
{
    let ghost whole = value_shape(v);
    match open_value(v) {
        Node::Null => Json::Null,
        Node::Bool(b) => Json::Bool(b),
        Node::Number(n) => Json::Number(n),
        Node::Text(s) => Json::Text(s),
        Node::Array(items) => {
            let mut out: Vec<Json> = Vec::new();
            for item in it: items
                invariant
                    it.seq() == items@,
                    whole == JsonShape::Array(
                        Seq::new(items@.len(), |i: int| value_shape(items@[i])),
                    ),
                    whole == value_shape(v),
                    out@.len() == it.index(),
                    forall|i: int|
                        0 <= i < out@.len() ==> (#[trigger] out@[i]).shape() == value_shape(
                            it.seq()[i],
                        ),
            {
                assert(whole->Array_0[it.index() as int] == value_shape(item));
                assert(decreases_to!(whole => value_shape(item)));
                out.push(from_value(item));
            }
            let r = Json::Array(out);
            assert(r.shape()->Array_0 =~= whole->Array_0);
            r
        },
        Node::Object(members) => {
            let mut out: Vec<(String, Json)> = Vec::new();
            for member in it: members
                invariant
                    it.seq() == members@,
                    whole == JsonShape::Object(
                        Seq::new(
                            members@.len(),
                            |i: int| (members@[i].0@, value_shape(members@[i].1)),
                        ),
                    ),
                    whole == value_shape(v),
                    out@.len() == it.index(),
                    forall|i: int|
                        0 <= i < out@.len() ==> (#[trigger] out@[i]).0@ == it.seq()[i].0@
                            && out@[i].1.shape() == value_shape(it.seq()[i].1),
            {
                assert(whole->Object_0[it.index() as int].1 == value_shape(member.1));
                assert(decreases_to!(whole => value_shape(member.1)));
                let (key, value) = member;
                out.push((key, from_value(value)));
            }
            let r = Json::Object(out);
            assert(r.shape()->Object_0 =~= whole->Object_0);
            r
        },
    }
}

/// Reads one JSON document.
pub fn parse_json(text: &str) -> (r: Option<Json>)
    ensures
        match r {
            Some(j) => document_shape(text@) == Some(j.shape()),
            None => document_shape(text@) is None,
        },
{
    match read_document(text) {
        Some(v) => Some(from_value(v)),
        None => None,
    }
}

/// The member of an object; of equal keys the first counts.
pub open spec fn member(j: JsonShape, key: Seq<char>) -> Option<JsonShape> {
    match j {
        JsonShape::Object(members) => member_of(members, key),
        _ => None,
    }
}

pub open spec fn member_of(members: Seq<(Seq<char>, JsonShape)>, key: Seq<char>) -> Option<
    JsonShape,
>
    decreases members.len(),
{
    if members.len() == 0 {
        None
    } else if members[0].0 == key {
        Some(members[0].1)
    } else {
        member_of(members.skip(1), key)
    }
}

impl Json {
    /// The member of an object under a key.
    pub fn get(&self, key: &str) -> (r: Option<&Json>)
        ensures
            match r {
                Some(j) => member(self.shape(), key@) == Some(j.shape()),
                None => member(self.shape(), key@) is None,
            },
    {
        match self {
            Json::Object(members) => {
                let ghost shapes = self.shape()->Object_0;
                let mut i: usize = 0;
                assert(shapes.skip(0) == shapes);
                while i < members.len()
                    invariant
                        i <= members.len(),
                        *self == Json::Object(*members),
                        shapes == self.shape()->Object_0,
                        shapes.len() == members@.len(),
                        member(self.shape(), key@) == member_of(shapes.skip(i as int), key@),
                    decreases members.len() - i,
                {
                    assert(shapes[i as int] == (
                        members@[i as int].0@,
                        members@[i as int].1.shape(),
                    ));
                    assert(shapes.skip(i as int)[0] == shapes[i as int]);
                    assert(shapes.skip(i as int).skip(1) == shapes.skip(i + 1));
                    if str_eq(members[i].0.as_str(), key) {
                        return Some(&members[i].1);
                    }
                    i += 1;
                }
                None
            },
            _ => None,
        }
    }

    /// The text of a string.
    pub fn as_text(&self) -> (r: Option<&String>)
        ensures
            match r {
                Some(s) => self.shape() == JsonShape::Text(s@),
                None => !(self.shape() is Text),
            },
    {
        match self {
            Json::Text(s) => Some(s),
            _ => None,
        }
    }

    /// The value of a whole number that 64 bits hold.
    pub fn as_u64(&self) -> (r: Option<u64>)
        ensures
            r == whole_number(self.shape()),
    {
        match self {
            Json::Number(n) => *n,
            _ => None,
        }
    }
}

pub open spec fn whole_number(j: JsonShape) -> Option<u64> {
    match j {
        JsonShape::Number(n) => n,
        _ => None,
    }
}

/// A member of an object is what stands under its key first; a key that no
/// member has gives nothing, and neither does what is no object.
pub proof fn law_first_member_counts(members: Seq<(Seq<char>, JsonShape)>, key: Seq<char>, i: int)
    requires
        0 <= i <= members.len(),
        forall|k: int| 0 <= k < i ==> (#[trigger] members[k]).0 != key,
        i < members.len() ==> members[i].0 == key,
    ensures
        i < members.len() ==> member(JsonShape::Object(members), key) == Some(members[i].1),
        i == members.len() ==> member(JsonShape::Object(members), key) is None,
        member(JsonShape::Null, key) is None,
        forall|a: Seq<JsonShape>| (#[trigger] member(JsonShape::Array(a), key)) is None,
        forall|s: Seq<char>| (#[trigger] member(JsonShape::Text(s), key)) is None,
    decreases members.len(),
{
    if i > 0 {
        assert(members[0].0 != key);
        let rest = members.skip(1);
        assert forall|k: int| 0 <= k < i - 1 implies (#[trigger] rest[k]).0 != key by {
            assert(rest[k] == members[k + 1]);
        }
        law_first_member_counts(rest, key, i - 1);
        assert(i < members.len() ==> rest[i - 1] == members[i]);
    }
}

/// Only whole numbers of at most 64 bits are read as numbers.
pub proof fn law_whole_numbers_are_read(n: u64, s: Seq<char>)
    ensures
        whole_number(JsonShape::Number(Some(n))) == Some(n),
        whole_number(JsonShape::Number(None)) is None,
        whole_number(JsonShape::Text(s)) is None,
        whole_number(JsonShape::Null) is None,
        whole_number(JsonShape::Bool(true)) is None,
{
}

} // verus!
