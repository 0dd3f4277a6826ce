//! JSON documents as plain values.

use vstd::prelude::*;
use crate::text::same_text;

verus! {

/// A JSON value.
#[derive(Debug, PartialEq, Eq)]
pub enum Json {
    Null,
    Bool(bool),
    /// A number, with its value where it is an unsigned 64-bit integer.
    Number(Option<u64>),
    Text(String),
    Array(Vec<Json>),
    /// The members of an object, in the order of their names.
    Object(Vec<(String, Json)>),
}

/// The value of a [`Json`].
pub enum JsonView {
    Null,
    Bool(bool),
    Number(Option<u64>),
    Text(Seq<char>),
    Array(Seq<JsonView>),
    Object(Seq<(Seq<char>, JsonView)>),
}

impl Json {
    /// The mathematical value.
    pub open spec fn tree(self) -> JsonView
        decreases self,
    {
        match self {
            Json::Null => JsonView::Null,
            Json::Bool(b) => JsonView::Bool(b),
            Json::Number(n) => JsonView::Number(n),
            Json::Text(s) => JsonView::Text(s@),
            Json::Array(v) => JsonView::Array(
                Seq::new(
                    v@.len(),
                    |i: int|
                        if 0 <= i < v@.len() {
                            v@[i].tree()
                        } else {
                            JsonView::Null
                        },
                ),
            ),
            Json::Object(v) => JsonView::Object(
                Seq::new(
                    v@.len(),
                    |i: int|
                        if 0 <= i < v@.len() {
                            (v@[i].0@, v@[i].1.tree())
                        } else {
                            (Seq::empty(), JsonView::Null)
                        },
                ),
            ),
        }
    }
}

impl View for Json {
    type V = JsonView;

    open spec fn view(&self) -> JsonView {
        self.tree()
    }
}

impl DeepView for Json {
    type V = JsonView;

    open spec fn deep_view(&self) -> JsonView {
        self.tree()
    }
}

/// `serde_json::Value`: a parsed JSON document.
#[verifier::external_type_specification]
#[verifier::external_body]
pub struct ExValue(serde_json::Value);

/// What a parsed document holds.
pub uninterp spec fn value_tree(v: serde_json::Value) -> JsonView;

/// What `serde_json` reads in a text: the document, or the text of its error.
pub uninterp spec fn json_text(text: Seq<char>) -> Result<JsonView, Seq<char>>;

/// `serde_json::from_str`: whether a text is a JSON document, and which one, depends on the text
/// alone, and so does the error message.
#[verifier::external_body]
fn parse_value(text: &str) -> (r: Result<serde_json::Value, String>)
    ensures
        match r {
            Ok(v) => json_text(text@) == Ok::<JsonView, Seq<char>>(value_tree(v)),
            Err(e) => json_text(text@) == Err::<JsonView, Seq<char>>(e@),
        },
{
    match serde_json::from_str::<serde_json::Value>(text) {
        Ok(v) => Ok(v),
        Err(e) => Err(e.to_string()),
    }
}

/// What `serde_json` reads in bytes: the document, or the text of its error.
pub uninterp spec fn json_bytes(bytes: Seq<u8>) -> Result<JsonView, Seq<char>>;

/// `serde_json::from_slice`: whether bytes are a JSON document, and which one, depends on the bytes
/// alone, and so does the error message.
#[verifier::external_body]
fn parse_bytes(bytes: &[u8]) -> (r: Result<serde_json::Value, String>)
    ensures
        match r {
            Ok(v) => json_bytes(bytes@) == Ok::<JsonView, Seq<char>>(value_tree(v)),
            Err(e) => json_bytes(bytes@) == Err::<JsonView, Seq<char>>(e@),
        },
{
    match serde_json::from_slice::<serde_json::Value>(bytes) {
        Ok(v) => Ok(v),
        Err(e) => Err(e.to_string()),
    }
}

/// The variants of `serde_json::Value`, one for one, with `Number::as_u64` for a number and the
/// members of an object in the order in which `serde_json::Map` hands them out.
#[verifier::external_body]
fn json_of(v: serde_json::Value) -> (r: Json)
    ensures
        r@ == value_tree(v),
{
    match v {
        serde_json::Value::Null => Json::Null,
        serde_json::Value::Bool(b) => Json::Bool(b),
        serde_json::Value::Number(n) => Json::Number(n.as_u64()),
        serde_json::Value::String(s) => Json::Text(s),
        serde_json::Value::Array(a) => Json::Array(a.into_iter().map(json_of).collect()),
        serde_json::Value::Object(m) => Json::Object(m.into_iter().map(|(k, x)| (k, json_of(x))).collect()),
    }
}

/// Reads a JSON document.
pub fn read_json(text: &str) -> (r: Result<Json, String>)
    ensures
        match r {
            Ok(j) => json_text(text@) == Ok::<JsonView, Seq<char>>(j@),
            Err(e) => json_text(text@) == Err::<JsonView, Seq<char>>(e@),
        },
{
    match parse_value(text) {
        Ok(v) => Ok(json_of(v)),
        Err(e) => Err(e),
    }
}

/// Reads a JSON document that comes as bytes.
pub fn read_json_bytes(bytes: &[u8]) -> (r: Result<Json, String>)
    ensures
        match r {
            Ok(j) => json_bytes(bytes@) == Ok::<JsonView, Seq<char>>(j@),
            Err(e) => json_bytes(bytes@) == Err::<JsonView, Seq<char>>(e@),
        },
{
    match parse_bytes(bytes) {
        Ok(v) => Ok(json_of(v)),
        Err(e) => Err(e),
    }
}

/// The first member called `name`.
pub open spec fn member(members: Seq<(Seq<char>, JsonView)>, name: Seq<char>) -> Option<JsonView>
    decreases members.len(),
{
    if members.len() == 0 {
        None
    } else if members[0].0 == name {
        Some(members[0].1)
    } else {
        member(members.drop_first(), name)
    }
}

impl JsonView {
    /// The member of an object.
    pub open spec fn get(self, name: Seq<char>) -> Option<JsonView> {
        match self {
            JsonView::Object(members) => member(members, name),
            _ => None,
        }
    }

    /// The text, if it is one.
    pub open spec fn as_text(self) -> Option<Seq<char>> {
        match self {
            JsonView::Text(s) => Some(s),
            _ => None,
        }
    }

    /// The truth value, if it is one.
    pub open spec fn as_bool(self) -> Option<bool> {
        match self {
            JsonView::Bool(b) => Some(b),
            _ => None,
        }
    }

    /// The unsigned number, if it is one.
    pub open spec fn as_u64(self) -> Option<u64> {
        match self {
            JsonView::Number(n) => n,
            _ => None,
        }
    }

    /// The elements, if it is an array.
    pub open spec fn as_array(self) -> Option<Seq<JsonView>> {
        match self {
            JsonView::Array(a) => Some(a),
            _ => None,
        }
    }

    /// The members, if it is an object.
    pub open spec fn as_object(self) -> Option<Seq<(Seq<char>, JsonView)>> {
        match self {
            JsonView::Object(o) => Some(o),
            _ => None,
        }
    }

    /// The text of a member.
    pub open spec fn get_text(self, name: Seq<char>) -> Option<Seq<char>> {
        match self.get(name) {
            Some(v) => v.as_text(),
            None => None,
        }
    }

    /// The elements of a member that is an array.
    pub open spec fn get_array(self, name: Seq<char>) -> Option<Seq<JsonView>> {
        match self.get(name) {
            Some(v) => v.as_array(),
            None => None,
        }
    }

    /// The members of a member that is an object.
    pub open spec fn get_object(self, name: Seq<char>) -> Option<Seq<(Seq<char>, JsonView)>> {
        match self.get(name) {
            Some(v) => v.as_object(),
            None => None,
        }
    }

    /// Whether the value can stand for a record of `n` fields: an object, which names them, or an
    /// array of at most `n` elements, which lists them in order.
    pub open spec fn is_record(self, n: int) -> bool {
        match self {
            JsonView::Object(_) => true,
            JsonView::Array(a) => a.len() <= n,
            _ => false,
        }
    }

    /// A field of a record, by its name in an object and by its place in an array.
    pub open spec fn field(self, name: Seq<char>, place: int) -> Option<JsonView> {
        match self {
            JsonView::Object(members) => member(members, name),
            JsonView::Array(a) => if place < a.len() {
                Some(a[place])
            } else {
                None
            },
            _ => None,
        }
    }

    /// The truth value of a member.
    pub open spec fn get_bool(self, name: Seq<char>) -> Option<bool> {
        match self.get(name) {
            Some(v) => v.as_bool(),
            None => None,
        }
    }
}

impl Json {
    /// The member of an object.
    pub fn get(&self, name: &str) -> (r: Option<&Json>)
        ensures
            match r {
                Some(j) => self@.get(name@) == Some(j@),
                None => self@.get(name@) is None,
            },
    {
        match self {
            Json::Object(v) => {
                let ghost o = self@->Object_0;
                let mut i: usize = 0;
                assert(o.skip(0) =~= o);
                while i < v.len()
                    invariant
                        i <= v.len(),
                        *self == Json::Object(*v),
                        self@ == JsonView::Object(o),
                        o.len() == v.len(),
                        forall|k: int| 0 <= k < v.len() ==> #[trigger] o[k] == (v@[k].0@, v@[k].1@),
                        member(o, name@) == member(o.skip(i as int), name@),
                    decreases v.len() - i,
                {
                    assert(o[i as int] == (v@[i as int].0@, v@[i as int].1@));
                    assert(o.skip(i as int)[0] == o[i as int]);
                    assert(o.skip(i as int).drop_first() =~= o.skip(i + 1));
                    if same_text(v[i].0.as_str(), name) {
                        return Some(&v[i].1);
                    }
                    i += 1;
                }
                assert(o.skip(i as int).len() == 0);
                None
            },
            _ => None,
        }
    }

    /// The text, if it is one.
    pub fn as_str(&self) -> (r: Option<&str>)
        ensures
            match r {
                Some(s) => self@.as_text() == Some(s@),
                None => self@.as_text() is None,
            },
    {
        match self {
            Json::Text(s) => Some(s.as_str()),
            _ => None,
        }
    }

    /// The truth value, if it is one.
    pub fn as_bool(&self) -> (r: Option<bool>)
        ensures
            r == self@.as_bool(),
    {
        match self {
            Json::Bool(b) => Some(*b),
            _ => None,
        }
    }

    /// The unsigned number, if it is one.
    pub fn as_u64(&self) -> (r: Option<u64>)
        ensures
            r == self@.as_u64(),
    {
        match self {
            Json::Number(n) => *n,
            _ => None,
        }
    }

    /// The elements, if it is an array.
    pub fn as_array(&self) -> (r: Option<&Vec<Json>>)
        ensures
            match r {
                Some(v) => self@.as_array() == Some(v.deep_view()),
                None => self@.as_array() is None,
            },
    {
        match self {
            Json::Array(v) => {
                assert(self@->Array_0 =~= v.deep_view());
                Some(v)
            },
            _ => None,
        }
    }

    /// The members, if it is an object.
    pub fn as_object(&self) -> (r: Option<&Vec<(String, Json)>>)
        ensures
            match r {
                Some(v) => self@.as_object() == Some(v.deep_view()),
                None => self@.as_object() is None,
            },
    {
        match self {
            Json::Object(v) => {
                assert(self@->Object_0 =~= v.deep_view());
                Some(v)
            },
            _ => None,
        }
    }

    /// The text of a member.
    pub fn get_str(&self, name: &str) -> (r: Option<&str>)
        ensures
            match r {
                Some(s) => self@.get_text(name@) == Some(s@),
                None => self@.get_text(name@) is None,
            },
    {
        match self.get(name) {
            Some(v) => v.as_str(),
            None => None,
        }
    }

    /// The elements of a member that is an array.
    pub fn get_array(&self, name: &str) -> (r: Option<&Vec<Json>>)
        ensures
            match r {
                Some(v) => self@.get_array(name@) == Some(v.deep_view()),
                None => self@.get_array(name@) is None,
            },
    {
        match self.get(name) {
            Some(v) => v.as_array(),
            None => None,
        }
    }

    /// The members of a member that is an object.
    pub fn get_object(&self, name: &str) -> (r: Option<&Vec<(String, Json)>>)
        ensures
            match r {
                Some(v) => self@.get_object(name@) == Some(v.deep_view()),
                None => self@.get_object(name@) is None,
            },
    {
        match self.get(name) {
            Some(v) => v.as_object(),
            None => None,
        }
    }

    /// Whether the value can stand for a record of `n` fields.
    pub fn is_record(&self, n: usize) -> (r: bool)
        ensures
            r == self@.is_record(n as int),
    {
        match self {
            Json::Object(_) => true,
            Json::Array(a) => a.len() <= n,
            _ => false,
        }
    }

    /// A field of a record, by its name in an object and by its place in an array.
    pub fn field(&self, name: &str, place: usize) -> (r: Option<&Json>)
        ensures
            match r {
                Some(j) => self@.field(name@, place as int) == Some(j@),
                None => self@.field(name@, place as int) is None,
            },
    {
        match self {
            Json::Array(a) => if place < a.len() {
                Some(&a[place])
            } else {
                None
            },
            _ => self.get(name),
        }
    }

    /// The truth value of a member.
    pub fn get_bool(&self, name: &str) -> (r: Option<bool>)
        ensures
            r == self@.get_bool(name@),
    {
        match self.get(name) {
            Some(v) => v.as_bool(),
            None => None,
        }
    }
}

} // verus!
