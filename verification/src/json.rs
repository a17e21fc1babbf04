use vstd::prelude::*;
use serde_json::{Number, Value};

verus! {

/// A number as serde_json holds it; opaque to the library.
#[verifier::external_type_specification]
#[verifier::external_body]
pub struct ExJsonNumber(Number);

/// A JSON number: the digits serde_json writes for it, kept together with the
/// number itself, so that a number read from a document is written back exactly
/// as serde_json would write it. Only reading a document makes one, so the
/// digits are always those of the number.
#[derive(Debug, PartialEq)]
pub struct JsonNumber {
    digits: String,
    value: Number,
}

impl View for JsonNumber {
    type V = Seq<char>;

    closed spec fn view(&self) -> Seq<char> {
        self.digits@
    }
}

/// Calls `Number::clone`; claimed: the copy equals the number.
#[verifier::external_body]
fn copy_number(n: &Number) -> (r: Number)
    ensures
        r == *n,
{
    n.clone()
}

impl JsonNumber {
    /// The digits of the number.
    pub fn digits(&self) -> (r: &String)
        ensures
            r@ == self@,
    {
        &self.digits
    }

    fn copied(&self) -> (r: JsonNumber)
        ensures
            r@ == self@,
    {
        JsonNumber { digits: self.digits.clone(), value: copy_number(&self.value) }
    }
}

/// A JSON document held as plain values.
#[derive(Debug, PartialEq)]
pub enum Json {
    Null,
    Bool(bool),
    Number(JsonNumber),
    Str(String),
    Array(Vec<Json>),
    Object(Vec<(String, Json)>),
}

/// The mathematical value of a JSON document: object members in their order.
pub enum JsonView {
    Null,
    Bool(bool),
    Number(Seq<char>),
    Str(Seq<char>),
    Array(Seq<JsonView>),
    Object(Seq<(Seq<char>, JsonView)>),
}

impl Json {
    pub open spec fn view_of(&self) -> JsonView
        decreases self,
    {
        match self {
            Json::Null => JsonView::Null,
            Json::Bool(b) => JsonView::Bool(*b),
            Json::Number(n) => JsonView::Number(n@),
            Json::Str(s) => JsonView::Str(s@),
            Json::Array(items) => JsonView::Array(
                Seq::new(items@.len(), |i: int| if 0 <= i < items@.len() { items@[i].view_of() } else { JsonView::Null }),
            ),
            Json::Object(es) => JsonView::Object(
                Seq::new(es@.len(), |i: int| if 0 <= i < es@.len() { (es@[i].0@, es@[i].1.view_of()) } else { (Seq::empty(), JsonView::Null) }),
            ),
        }
    }
}

impl View for Json {
    type V = JsonView;
    open spec fn view(&self) -> JsonView { self.view_of() }
}

impl Json {
    #[verifier::loop_isolation(false)]
    pub fn deep_copy(&self) -> (r: Json)
        ensures r@ == self@,
        decreases self,
    {
        match self {
            Json::Null => Json::Null,
            Json::Bool(b) => Json::Bool(*b),
            Json::Number(n) => Json::Number(n.copied()),
            Json::Str(s) => Json::Str(s.clone()),
            Json::Array(items) => {
                let mut out: Vec<Json> = Vec::new();
                let mut i: usize = 0;
                while i < items.len()
                    invariant
                        i <= items.len(),
                        out@.len() == i,
                        forall|j: int| 0 <= j < i ==> #[trigger] out@[j]@ == items@[j]@,
                    decreases items.len() - i,
                {
                    proof {
                        assert(decreases_to!(*self => self->Array_0));
                        assert(decreases_to!(self->Array_0 => items@));
                        assert(decreases_to!(items@ => items@[i as int]));
                    }
                    let c = items[i].deep_copy();
                    out.push(c);
                    i = i + 1;
                }
                let r = Json::Array(out);
                assert(out@.len() == items@.len());
                assert forall|k: int| 0 <= k < items@.len() implies out@[k].view_of() == items@[k].view_of() by {
                    assert(out@[k]@ == items@[k]@);
                }
                assert(r@->Array_0 =~= self@->Array_0);
                r
            },
            Json::Object(es) => {
                let mut out: Vec<(String, Json)> = Vec::new();
                let mut i: usize = 0;
                while i < es.len()
                    invariant
                        i <= es.len(),
                        out@.len() == i,
                        forall|j: int| 0 <= j < i ==> (#[trigger] out@[j]).0@ == es@[j].0@ && out@[j].1@ == es@[j].1@,
                    decreases es.len() - i,
                {
                    let k = es[i].0.clone();
                    proof {
                        assert(decreases_to!(*self => self->Object_0));
                        assert(decreases_to!(self->Object_0 => es@));
                        assert(decreases_to!(es@ => es@[i as int]));
                        assert(decreases_to!(es@[i as int] => es@[i as int].1));
                    }
                    let c = es[i].1.deep_copy();
                    out.push((k, c));
                    i = i + 1;
                }
                let r = Json::Object(out);
                assert(r@->Object_0 =~= self@->Object_0);
                r
            },
        }
    }
}


/// The values of a sequence of documents.
pub open spec fn items_view(items: Seq<Json>) -> Seq<JsonView> {
    Seq::new(items.len(), |i: int| items[i]@)
}

/// The values of a sequence of object members.
pub open spec fn pairs_view(es: Seq<(String, Json)>) -> Seq<(Seq<char>, JsonView)> {
    Seq::new(es.len(), |i: int| (es[i].0@, es[i].1@))
}

/// An array's value is the sequence of its items' values.
pub proof fn lemma_array_view(items: Vec<Json>)
    ensures
        Json::Array(items)@ == JsonView::Array(items_view(items@)),
{
    assert(Json::Array(items)@->Array_0 =~= items_view(items@));
}

/// An object's value is the sequence of its members' values.
pub proof fn lemma_object_view(es: Vec<(String, Json)>)
    ensures
        Json::Object(es)@ == JsonView::Object(pairs_view(es@)),
{
    assert(Json::Object(es)@->Object_0 =~= pairs_view(es@));
}

/// Builds an array document.
pub fn array_of(items: Vec<Json>) -> (r: Json)
    ensures
        r@ == JsonView::Array(items_view(items@)),
{
    proof {
        lemma_array_view(items);
    }
    Json::Array(items)
}

/// Builds an object document.
pub fn object_of(es: Vec<(String, Json)>) -> (r: Json)
    ensures
        r@ == JsonView::Object(pairs_view(es@)),
{
    proof {
        lemma_object_view(es);
    }
    Json::Object(es)
}

/// The document that a JSON text denotes; none where the text is not JSON.
pub uninterp spec fn json_of_text(text: Seq<char>) -> Option<JsonView>;

/// The message with which parsing a text that is not JSON fails.
pub uninterp spec fn json_error_text(text: Seq<char>) -> Seq<char>;

/// A document written as indented JSON text.
pub uninterp spec fn pretty_json(doc: JsonView) -> Seq<char>;

/// Converts a serde_json value into a document, one variant for each; nothing is
/// claimed of it beyond what `parse_json` states.
#[verifier::external_body]
fn document_of_value(v: &Value) -> Json {
    match v {
        Value::Null => Json::Null,
        Value::Bool(b) => Json::Bool(*b),
        Value::Number(n) => Json::Number(JsonNumber { digits: n.to_string(), value: n.clone() }),
        Value::String(t) => Json::Str(t.clone()),
        Value::Array(items) => Json::Array(items.iter().map(document_of_value).collect()),
        Value::Object(map) => Json::Object(map.iter().map(|(k, x)| (k.clone(), document_of_value(x))).collect()),
    }
}

/// Converts a document into a serde_json value, one variant for each; nothing
/// is claimed of it beyond what `to_pretty_json` states.
#[verifier::external_body]
fn value_of_document(d: &Json) -> Value {
    match d {
        Json::Null => Value::Null,
        Json::Bool(b) => Value::Bool(*b),
        Json::Number(n) => Value::Number(n.value.clone()),
        Json::Str(t) => Value::String(t.clone()),
        Json::Array(items) => Value::Array(items.iter().map(value_of_document).collect()),
        Json::Object(es) => Value::Object(es.iter().map(|(k, x)| (k.clone(), value_of_document(x))).collect()),
    }
}

/// Parses JSON text with `serde_json::from_str` into a `serde_json::Value` and
/// converts it. Claimed: the document is a function of the text alone
/// (`json_of_text`), and a failure, with the parser's message as text
/// (`json_error_text`), comes exactly where the text is not JSON.
#[verifier::external_body]
pub(crate) fn parse_json(text: &str) -> (r: Result<Json, String>)
    ensures
        match r {
            Ok(j) => json_of_text(text@) == Some(j@),
            Err(e) => json_of_text(text@) is None && e@ == json_error_text(text@),
        },
{
    match serde_json::from_str::<Value>(text) {
        Ok(v) => Ok(document_of_value(&v)),
        Err(e) => Err(e.to_string()),
    }
}

/// Writes a document with `serde_json::to_string_pretty`. Claimed: the text is a
/// function of the document's value alone (`pretty_json`): each number is
/// written as its digits, which are those serde_json writes for it. Writing a
/// `serde_json::Value` does not fail (its keys are strings); the empty text
/// stands for a failure that does not come.
#[verifier::external_body]
pub(crate) fn to_pretty_json(doc: &Json) -> (r: String)
    ensures
        r@ == pretty_json(doc@),
{
    serde_json::to_string_pretty(&value_of_document(doc)).unwrap_or_default()
}

/// The empty object.
pub fn empty_object() -> (r: Json)
    ensures
        r@ == JsonView::Object(seq![]),
{
    let es: Vec<(String, Json)> = Vec::new();
    let r = object_of(es);
    assert(r@->Object_0 =~= Seq::<(Seq<char>, JsonView)>::empty());
    r
}

/// `i` is the first position of `key` among the members `es`.
pub open spec fn key_at(es: Seq<(Seq<char>, JsonView)>, key: Seq<char>, i: int) -> bool {
    &&& 0 <= i < es.len()
    &&& es[i].0 == key
    &&& forall|j: int| 0 <= j < i ==> es[j].0 != key
}

pub open spec fn has_key(es: Seq<(Seq<char>, JsonView)>, key: Seq<char>) -> bool {
    exists|i: int| key_at(es, key, i)
}

pub open spec fn key_index(es: Seq<(Seq<char>, JsonView)>, key: Seq<char>) -> int {
    choose|i: int| key_at(es, key, i)
}

/// The value stored under `key`: that of its first member.
pub open spec fn lookup(es: Seq<(Seq<char>, JsonView)>, key: Seq<char>) -> Option<JsonView> {
    if has_key(es, key) {
        Some(es[key_index(es, key)].1)
    } else {
        None
    }
}

/// The members with `key` set to `v`: its member replaced, or a new member at the end.
pub open spec fn set_member(es: Seq<(Seq<char>, JsonView)>, key: Seq<char>, v: JsonView) -> Seq<(Seq<char>, JsonView)> {
    if has_key(es, key) {
        es.update(key_index(es, key), (key, v))
    } else {
        es.push((key, v))
    }
}

/// What reading member `key` of a document gives: nothing unless it is an object.
pub open spec fn member(v: JsonView, key: Seq<char>) -> Option<JsonView> {
    match v {
        JsonView::Object(es) => lookup(es, key),
        _ => None,
    }
}

/// The first position of a key is unique.
pub proof fn lemma_key_at_unique(es: Seq<(Seq<char>, JsonView)>, key: Seq<char>, i: int, j: int)
    requires
        key_at(es, key, i),
        key_at(es, key, j),
    ensures
        i == j,
{
    if i < j {
        assert(es[i].0 != key);
    } else if j < i {
        assert(es[j].0 != key);
    }
}

/// Where `i` is the first position of `key`, the lookup gives the member there.
pub proof fn lemma_lookup_at(es: Seq<(Seq<char>, JsonView)>, key: Seq<char>, i: int)
    requires
        key_at(es, key, i),
    ensures
        has_key(es, key),
        key_index(es, key) == i,
        lookup(es, key) == Some(es[i].1),
{
    let k = key_index(es, key);
    lemma_key_at_unique(es, key, i, k);
}

/// A key that occurs somewhere has a first position.
pub proof fn lemma_key_occurs(es: Seq<(Seq<char>, JsonView)>, key: Seq<char>, i: int)
    requires
        0 <= i < es.len(),
        es[i].0 == key,
    ensures
        has_key(es, key),
        key_index(es, key) <= i,
    decreases i,
{
    if forall|j: int| 0 <= j < i ==> es[j].0 != key {
        lemma_lookup_at(es, key, i);
    } else {
        let j = choose|j: int| 0 <= j < i && es[j].0 == key;
        lemma_key_occurs(es, key, j);
    }
}

/// A key that occurs nowhere is absent.
pub proof fn lemma_key_absent(es: Seq<(Seq<char>, JsonView)>, key: Seq<char>)
    requires
        forall|j: int| 0 <= j < es.len() ==> es[j].0 != key,
    ensures
        !has_key(es, key),
        lookup(es, key) is None,
{
}

/// An absent key occurs nowhere.
pub proof fn lemma_absent_nowhere(es: Seq<(Seq<char>, JsonView)>, key: Seq<char>)
    requires
        !has_key(es, key),
    ensures
        forall|j: int| 0 <= j < es.len() ==> es[j].0 != key,
{
    assert forall|j: int| 0 <= j < es.len() implies es[j].0 != key by {
        if es[j].0 == key {
            lemma_key_occurs(es, key, j);
        }
    }
}

/// After setting a member, reading it gives the value set, and every other key reads as before.
pub proof fn lemma_set_member(es: Seq<(Seq<char>, JsonView)>, key: Seq<char>, v: JsonView, other: Seq<char>)
    ensures
        lookup(set_member(es, key, v), key) == Some(v),
        other != key ==> lookup(set_member(es, key, v), other) == lookup(es, other),
{
    let r = set_member(es, key, v);
    if has_key(es, key) {
        let i = key_index(es, key);
        assert(key_at(es, key, i));
        assert(key_at(r, key, i));
        lemma_lookup_at(r, key, i);
        if other != key {
            if has_key(es, other) {
                let o = key_index(es, other);
                assert(key_at(es, other, o));
                assert(key_at(r, other, o));
                lemma_lookup_at(r, other, o);
            } else {
                lemma_absent_nowhere(es, other);
                lemma_key_absent(r, other);
            }
        }
    } else {
        lemma_absent_nowhere(es, key);
        assert(key_at(r, key, es.len() as int));
        lemma_lookup_at(r, key, es.len() as int);
        if other != key {
            if has_key(es, other) {
                let o = key_index(es, other);
                assert(key_at(es, other, o));
                assert(key_at(r, other, o));
                lemma_lookup_at(r, other, o);
            } else {
                lemma_absent_nowhere(es, other);
                lemma_key_absent(r, other);
            }
        }
    }
}

/// Setting a member to the value it already has changes nothing.
pub proof fn lemma_set_member_same(es: Seq<(Seq<char>, JsonView)>, key: Seq<char>, v: JsonView)
    requires
        lookup(es, key) == Some(v),
    ensures
        set_member(es, key, v) == es,
{
    let i = key_index(es, key);
    assert(key_at(es, key, i));
    assert(set_member(es, key, v) =~= es);
}

/// The first member of `es` with key `key`, if any.
pub fn find_key(es: &Vec<(String, Json)>, key: &str) -> (r: Option<usize>)
    ensures
        match r {
            Some(i) => key_at(pairs_view(es@), key@, i as int),
            None => !has_key(pairs_view(es@), key@),
        },
{
    let mut i: usize = 0;
    while i < es.len()
        invariant
            i <= es.len(),
            forall|j: int| 0 <= j < i ==> (#[trigger] es@[j]).0@ != key@,
        decreases es.len() - i,
    {
        if crate::text::text_eq(es[i].0.as_str(), key) {
            return Some(i);
        }
        i = i + 1;
    }
    proof {
        lemma_key_absent(pairs_view(es@), key@);
    }
    None
}

/// Reads member `key` of a document, as indexing a JSON value by a key does.
pub fn get_member<'a>(v: &'a Json, key: &str) -> (r: Option<&'a Json>)
    ensures
        match r {
            Some(x) => member(v@, key@) == Some(x@),
            None => member(v@, key@) is None,
        },
{
    match v {
        Json::Object(es) => {
            proof {
                lemma_object_view(*es);
            }
            match find_key(es, key) {
                Some(i) => {
                    proof {
                        lemma_lookup_at(pairs_view(es@), key@, i as int);
                    }
                    Some(&es[i].1)
                },
                None => None,
            }
        },
        _ => None,
    }
}

/// A copy of the members `es` with `key` set to `value`.
pub fn with_member(es: &Vec<(String, Json)>, key: &str, value: Json) -> (r: Vec<(String, Json)>)
    ensures
        pairs_view(r@) == set_member(pairs_view(es@), key@, value@),
{
    let found = find_key(es, key);
    let mut out: Vec<(String, Json)> = Vec::new();
    let mut value = Some(value);
    let ghost v0 = value->0@;
    let mut i: usize = 0;
    while i < es.len()
        invariant
            i <= es.len(),
            out@.len() == i,
            match found {
                Some(f) => key_at(pairs_view(es@), key@, f as int),
                None => !has_key(pairs_view(es@), key@),
            },
            value is Some <==> (found is None || i <= found->0),
            value is Some ==> value->0@ == v0,
            forall|j: int| 0 <= j < i ==> ((#[trigger] out@[j]).0@, out@[j].1@) == (
                if found == Some(j as usize) { (key@, v0) } else { (es@[j].0@, es@[j].1@) }
            ),
        decreases es.len() - i,
    {
        if found == Some(i) {
            let v = value.take().unwrap();
            out.push((crate::text::owned(key), v));
        } else {
            out.push((es[i].0.clone(), es[i].1.deep_copy()));
        }
        i = i + 1;
    }
    if found.is_none() {
        let v = value.take().unwrap();
        out.push((crate::text::owned(key), v));
    }
    proof {
        let target = set_member(pairs_view(es@), key@, v0);
        match found {
            Some(f) => {
                lemma_lookup_at(pairs_view(es@), key@, f as int);
            },
            None => {},
        }
        assert(pairs_view(out@) =~= target);
    }
    out
}

} // verus!
