//! JSON values of the `serde_json` crate.
use vstd::prelude::*;
use crate::app::clash_api::http;
use crate::app::clash_api::http::HttpResponse;

verus! {

/// A JSON value of the `serde_json` crate.
#[verifier::external_type_specification]
#[verifier::external_body]
pub struct ExValue(serde_json::Value);

/// The entries of a JSON object of the `serde_json` crate.
#[verifier::external_type_specification]
#[verifier::external_body]
#[verifier::reject_recursive_types(K)]
#[verifier::reject_recursive_types(V)]
pub struct ExMap<K, V>(serde_json::Map<K, V>);

/// What a JSON value holds.
pub ghost enum Json {
    Null,
    Flag(bool),
    /// A number without a fraction.
    Number(int),
    /// A number with a fraction, by the bits of its representation.
    Fraction(u64),
    Text(Seq<char>),
    List(Seq<Json>),
    Object(Map<Seq<char>, Json>),
}

/// What a JSON value holds.
pub uninterp spec fn json(v: serde_json::Value) -> Json;

/// What JSON values hold, one by one.
pub open spec fn held(v: Seq<serde_json::Value>) -> Seq<Json> {
    v.map_values(|x: serde_json::Value| json(x))
}

/// What the entries of a JSON object hold.
pub uninterp spec fn entries(m: serde_json::Map<String, serde_json::Value>) -> Map<Seq<char>, Json>;

/// No entries.
pub open spec fn nothing() -> Map<Seq<char>, Json> {
    Map::empty()
}

/// The bytes that `serde_json::to_vec` writes for a value.
pub uninterp spec fn encoded_json(j: Json) -> Seq<u8>;

/// What `serde_json::from_slice` reads out of bytes: a value, or the text of the
/// error.
pub uninterp spec fn decoded_json(bytes: Seq<u8>) -> Result<Json, Seq<char>>;

/// Trusted: `Value::from` makes a string of a text.
#[verifier::external_body]
pub(crate) fn json_text(s: &str) -> (r: serde_json::Value)
    ensures
        json(r) == Json::Text(s@),
{
    serde_json::Value::from(s)
}

/// Trusted: `Value::from` makes a number of an unsigned integer.
#[verifier::external_body]
pub(crate) fn json_count(n: u64) -> (r: serde_json::Value)
    ensures
        json(r) == Json::Number(n as int),
{
    serde_json::Value::from(n)
}

/// Trusted: `Value::from` makes a number of a signed integer.
#[verifier::external_body]
pub(crate) fn json_signed(n: i64) -> (r: serde_json::Value)
    ensures
        json(r) == Json::Number(n as int),
{
    serde_json::Value::from(n)
}

/// Trusted: `Value::from` makes `true` or `false` of a truth value.
#[verifier::external_body]
pub(crate) fn json_flag(b: bool) -> (r: serde_json::Value)
    ensures
        json(r) == Json::Flag(b),
{
    serde_json::Value::from(b)
}

/// Trusted: `Value::Null` is the value that stands for nothing.
#[verifier::external_body]
pub(crate) fn json_null() -> (r: serde_json::Value)
    ensures
        json(r) == Json::Null,
{
    serde_json::Value::Null
}

/// Trusted: `Value::from` makes an array of values, in their order.
#[verifier::external_body]
pub(crate) fn json_list(v: Vec<serde_json::Value>) -> (r: serde_json::Value)
    ensures
        json(r) == Json::List(held(v@)),
{
    serde_json::Value::from(v)
}

/// Trusted: `Map::new` makes an object without entries.
#[verifier::external_body]
pub(crate) fn no_entries() -> (r: serde_json::Map<String, serde_json::Value>)
    ensures
        entries(r) == nothing(),
{
    serde_json::Map::new()
}

/// Trusted: `Map::insert` gives a key a value, in place of the one that it had.
#[verifier::external_body]
pub(crate) fn put_entry(
    m: &mut serde_json::Map<String, serde_json::Value>,
    key: &str,
    v: serde_json::Value,
)
    ensures
        entries(*final(m)) == entries(*old(m)).insert(key@, json(v)),
{
    m.insert(key.to_owned(), v);
}

/// Trusted: `Value::from` makes an object of its entries.
#[verifier::external_body]
pub(crate) fn json_object(m: serde_json::Map<String, serde_json::Value>) -> (r: serde_json::Value)
    ensures
        json(r) == Json::Object(entries(m)),
{
    serde_json::Value::from(m)
}

/// Trusted: `serde_json::to_vec` writes a value down. It cannot fail, as the
/// keys of an object are strings. The bytes depend on the value alone: an
/// object's entries are written in the order of their keys. How they look is
/// left unsaid.
#[verifier::external_body]
pub(crate) fn json_bytes(v: &serde_json::Value) -> (r: Vec<u8>)
    ensures
        r@ == encoded_json(json(*v)),
{
    serde_json::to_vec(v).expect("values with string keys can be written")
}

/// Trusted: `serde_json::from_slice` reads a value; what it reads, or which
/// error it reports, depends on the bytes alone.
#[verifier::external_body]
pub(crate) fn parse_json(bytes: &[u8]) -> (r: Result<serde_json::Value, String>)
    ensures
        match r {
            Ok(v) => decoded_json(bytes@) == Ok::<Json, Seq<char>>(json(v)),
            Err(e) => decoded_json(bytes@) == Err::<Json, Seq<char>>(e@),
        },
{
    serde_json::from_slice(bytes).map_err(|e| e.to_string())
}

/// Trusted: `Value::get` finds the entry of an object; nothing else has any.
#[verifier::external_body]
pub(crate) fn json_field<'a>(v: &'a serde_json::Value, key: &str) -> (r: Option<
    &'a serde_json::Value,
>)
    ensures
        match r {
            Some(x) => json(*v) is Object && json(*v)->Object_0.contains_key(key@) && json(*x)
                == json(*v)->Object_0[key@],
            None => !(json(*v) is Object && json(*v)->Object_0.contains_key(key@)),
        },
{
    v.get(key)
}

/// Trusted: `Value::as_str` hands out the text of a string.
#[verifier::external_body]
pub(crate) fn json_str<'a>(v: &'a serde_json::Value) -> (r: Option<&'a str>)
    ensures
        match r {
            Some(s) => json(*v) == Json::Text(s@),
            None => !(json(*v) is Text),
        },
{
    v.as_str()
}

/// The text that a value has under a key.
pub open spec fn text_under(j: Json, key: Seq<char>) -> Option<Seq<char>> {
    if j is Object && j->Object_0.contains_key(key) && j->Object_0[key] is Text {
        Some(j->Object_0[key]->Text_0)
    } else {
        None
    }
}

/// The text that a value has under a key.
pub fn text_field(v: &serde_json::Value, key: &str) -> (r: Option<String>)
    ensures
        match r {
            Some(s) => text_under(json(*v), key@) == Some(s@),
            None => text_under(json(*v), key@) is None,
        },
{
    match json_field(v, key) {
        Some(x) => match json_str(x) {
            Some(s) => Some(s.to_owned()),
            None => None,
        },
        None => None,
    }
}

/// A list of texts.
pub open spec fn texts(v: Seq<String>) -> Json {
    Json::List(v.map_values(|s: String| Json::Text(s@)))
}

/// A list of texts.
pub(crate) fn text_list(v: &Vec<String>) -> (r: serde_json::Value)
    ensures
        json(r) == texts(v@),
{
    let mut out: Vec<serde_json::Value> = Vec::new();
    let mut i: usize = 0;
    while i < v.len()
        invariant
            i <= v@.len(),
            out@.len() == i,
            forall|k: int| 0 <= k < i ==> json(#[trigger] out@[k]) == Json::Text(v@[k]@),
        decreases v@.len() - i,
    {
        out.push(json_text(v[i].as_str()));
        i = i + 1;
    }
    assert(held(out@) =~= v@.map_values(|s: String| Json::Text(s@)));
    json_list(out)
}

/// A response that holds a value.
pub open spec fn json_reply(status: u16, reason: Seq<char>, j: Json) -> http::ResponseView {
    http::plain(status, reason, encoded_json(j), "application/json; charset=utf-8"@)
}

/// A successful response that holds a value.
pub fn json_response(v: &serde_json::Value) -> (r: HttpResponse)
    ensures
        r@ == json_reply(200, "OK"@, json(*v)),
{
    http::plain_response(200, "OK", json_bytes(v), "application/json; charset=utf-8")
}

/// An object with one text.
pub open spec fn one_text(key: Seq<char>, value: Seq<char>) -> Json {
    Json::Object(nothing().insert(key, Json::Text(value)))
}

/// A response that holds an object with one text.
pub fn message_response(status: u16, reason: &'static str, key: &str, value: &str) -> (r:
    HttpResponse)
    ensures
        r@ == json_reply(status, reason@, one_text(key@, value@)),
{
    let mut m = no_entries();
    put_entry(&mut m, key, json_text(value));
    let v = json_object(m);
    http::plain_response(status, reason, json_bytes(&v), "application/json; charset=utf-8")
}

/// What an object holds under a key.
pub open spec fn entry(j: Json, key: Seq<char>) -> Option<Json> {
    match j {
        Json::Object(m) => if m.contains_key(key) {
            Some(m[key])
        } else {
            None
        },
        _ => None,
    }
}

} // verus!
