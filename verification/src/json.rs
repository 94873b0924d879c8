//! JSON values of `serde_json` and what the library reads of them.
use crate::text;
use vstd::prelude::*;

verus! {

/// What a JSON value holds.
pub enum JsonView {
    Null,
    Bool(bool),
    /// The number as it is printed.
    Number(Seq<char>),
    Str(Seq<char>),
    Array(Seq<JsonView>),
    Object(Map<Seq<char>, JsonView>),
}

/// A value of `serde_json`.
#[verifier::external_type_specification]
#[verifier::external_body]
pub struct ExJsonValue(serde_json::Value);

/// An object of `serde_json`, which keeps its entries sorted by key.
#[verifier::external_type_specification]
#[verifier::external_body]
#[verifier::reject_recursive_types(K)]
#[verifier::reject_recursive_types(V)]
pub struct ExJsonMap<K, V>(serde_json::Map<K, V>);

/// What a value of `serde_json` holds.
pub uninterp spec fn json_view(v: serde_json::Value) -> JsonView;

/// The entries of an object of `serde_json`.
pub uninterp spec fn json_map_view(m: serde_json::Map<String, serde_json::Value>) -> Map<
    Seq<char>,
    JsonView,
>;

/// What `serde_yaml::from_str` reads from a text as a JSON value, or its message.
pub uninterp spec fn yaml_json_of(text: Seq<char>) -> Result<JsonView, Seq<char>>;

/// The text that `serde_yaml::to_string` writes for a JSON value, or its message.
pub uninterp spec fn yaml_text_of_json(v: JsonView) -> Result<Seq<char>, Seq<char>>;

/// The compact JSON text that `Value::to_string` of `serde_json` writes for a value.
pub uninterp spec fn json_text_of(v: JsonView) -> Seq<char>;

/// Whether `==` of `serde_json` takes two values as equal.
pub uninterp spec fn json_equal(a: JsonView, b: JsonView) -> bool;

/// No entries.
pub open spec fn no_fields() -> Map<Seq<char>, JsonView> {
    Map::empty()
}

/// What values of `serde_json` hold.
pub open spec fn json_views(v: Seq<serde_json::Value>) -> Seq<JsonView> {
    v.map_values(|x: serde_json::Value| json_view(x))
}

/// The keys of entries.
pub open spec fn entry_keys(v: Seq<(&String, &serde_json::Value)>) -> Seq<Seq<char>> {
    v.map_values(|e: (&String, &serde_json::Value)| e.0@)
}

/// A value of `serde_json` opened by its variant.
pub enum JsonKind<'a> {
    Null,
    Bool(bool),
    Number,
    Str(&'a String),
    Array(&'a Vec<serde_json::Value>),
    Object(&'a serde_json::Map<String, serde_json::Value>),
}

/// The variants of `serde_json::Value`: which one a value is, with what it holds.
#[verifier::external_body]
pub(crate) fn json_kind<'a>(v: &'a serde_json::Value) -> (r: JsonKind<'a>)
    ensures
        match r {
            JsonKind::Null => json_view(*v) == JsonView::Null,
            JsonKind::Bool(b) => json_view(*v) == JsonView::Bool(b),
            JsonKind::Number => json_view(*v) is Number,
            JsonKind::Str(s) => json_view(*v) == JsonView::Str(s@),
            JsonKind::Array(items) => json_view(*v) == JsonView::Array(json_views(items@)),
            JsonKind::Object(m) => json_view(*v) == JsonView::Object(json_map_view(*m)),
        },
{
    match v {
        serde_json::Value::Null => JsonKind::Null,
        serde_json::Value::Bool(b) => JsonKind::Bool(*b),
        serde_json::Value::Number(_) => JsonKind::Number,
        serde_json::Value::String(s) => JsonKind::Str(s),
        serde_json::Value::Array(items) => JsonKind::Array(items),
        serde_json::Value::Object(m) => JsonKind::Object(m),
    }
}

/// `Value::Object` of `serde_json` as a pattern: the object in a value, if it is one.
#[verifier::external_body]
pub(crate) fn json_into_object(v: serde_json::Value) -> (r: Option<
    serde_json::Map<String, serde_json::Value>,
>)
    ensures
        match r {
            Some(m) => json_view(v) == JsonView::Object(json_map_view(m)),
            None => !(json_view(v) is Object),
        },
{
    match v {
        serde_json::Value::Object(m) => Some(m),
        _ => None,
    }
}

/// `Value::Object` of `serde_json`: the value that holds this object.
#[verifier::external_body]
pub(crate) fn json_object(m: serde_json::Map<String, serde_json::Value>) -> (r: serde_json::Value)
    ensures
        json_view(r) == JsonView::Object(json_map_view(m)),
{
    serde_json::Value::Object(m)
}

/// `Value::as_u64` of `serde_json`: the number in a value, if it is a whole number of 64 bits that
/// is not negative. Such numbers, and no others, are printed in digits alone.
#[verifier::external_body]
pub(crate) fn json_as_u64(v: &serde_json::Value) -> (r: Option<u64>)
    ensures
        match json_view(*v) {
            JsonView::Number(s) => match text::digits_value(s) {
                Some(n) => r matches Some(x) && x == n,
                None => r is None,
            },
            _ => r is None,
        },
{
    v.as_u64()
}

/// `Map::new` of `serde_json`: an object without entries.
#[verifier::external_body]
pub(crate) fn json_map_new() -> (r: serde_json::Map<String, serde_json::Value>)
    ensures
        json_map_view(r) == no_fields(),
{
    serde_json::Map::new()
}

/// `Map::get` of `serde_json`: the value at a key.
#[verifier::external_body]
pub(crate) fn json_map_get<'a>(
    m: &'a serde_json::Map<String, serde_json::Value>,
    key: &str,
) -> (r: Option<&'a serde_json::Value>)
    ensures
        match r {
            Some(v) => json_map_view(*m).contains_key(key@) && json_map_view(*m)[key@] == json_view(
                *v,
            ),
            None => !json_map_view(*m).contains_key(key@),
        },
{
    m.get(key)
}

/// `Map::insert` of `serde_json`: the key has this value then.
#[verifier::external_body]
pub(crate) fn json_map_insert(
    m: &mut serde_json::Map<String, serde_json::Value>,
    key: String,
    value: serde_json::Value,
)
    ensures
        json_map_view(*final(m)) == json_map_view(*old(m)).insert(key@, json_view(value)),
{
    m.insert(key, value);
}

/// `Map::remove` of `serde_json`: the key has no value then.
#[verifier::external_body]
pub(crate) fn json_map_remove(m: &mut serde_json::Map<String, serde_json::Value>, key: &str)
    ensures
        json_map_view(*final(m)) == json_map_view(*old(m)).remove(key@),
{
    m.remove(key);
}

/// `Map::is_empty` of `serde_json`: whether no key has a value.
#[verifier::external_body]
pub(crate) fn json_map_is_empty(m: &serde_json::Map<String, serde_json::Value>) -> (r: bool)
    ensures
        r == (json_map_view(*m) == no_fields()),
{
    m.is_empty()
}

/// `Map::iter` of `serde_json`: the entries, sorted by key.
#[verifier::external_body]
pub(crate) fn json_map_entries<'a>(m: &'a serde_json::Map<String, serde_json::Value>) -> (r: Vec<
    (&'a String, &'a serde_json::Value),
>)
    ensures
        text::ascending(entry_keys(r@)),
        entry_keys(r@).to_set() == json_map_view(*m).dom(),
        forall|i: int|
            0 <= i < r@.len() ==> json_map_view(*m)[(#[trigger] r@[i]).0@] == json_view(*r@[i].1),
{
    m.iter().collect()
}

/// `serde_yaml::from_str` into a JSON value: what comes out depends on the text alone.
#[verifier::external_body]
pub(crate) fn parse_yaml_as_json(text: &str) -> (r: Result<serde_json::Value, String>)
    ensures
        match r {
            Ok(v) => yaml_json_of(text@) == Ok::<JsonView, Seq<char>>(json_view(v)),
            Err(e) => yaml_json_of(text@) == Err::<JsonView, Seq<char>>(e@),
        },
{
    match serde_yaml::from_str(text) {
        Ok(v) => Ok(v),
        Err(e) => Err(e.to_string()),
    }
}

/// `serde_yaml::to_string` on a JSON value: what comes out depends on what the value holds. Of
/// the text itself nothing is claimed, not even that it reads back as the value.
#[verifier::external_body]
pub(crate) fn json_to_yaml(v: &serde_json::Value) -> (r: Result<String, String>)
    ensures
        match r {
            Ok(t) => yaml_text_of_json(json_view(*v)) == Ok::<Seq<char>, Seq<char>>(t@),
            Err(e) => yaml_text_of_json(json_view(*v)) == Err::<Seq<char>, Seq<char>>(e@),
        },
{
    match serde_yaml::to_string(v) {
        Ok(t) => Ok(t),
        Err(e) => Err(e.to_string()),
    }
}

/// `Value::to_string` of `serde_json`: what comes out depends on what the value holds; a number
/// comes out as it is printed.
#[verifier::external_body]
pub(crate) fn json_to_text(v: &serde_json::Value) -> (r: String)
    ensures
        r@ == json_text_of(json_view(*v)),
        json_view(*v) matches JsonView::Number(s) ==> r@ == s,
{
    v.to_string()
}

/// `==` of `serde_json`: values that hold the same are equal, and a null, a boolean or a string
/// is equal to nothing else. (Numbers are compared by value, so that the two zeros of floating
/// point are equal.)
#[verifier::external_body]
pub(crate) fn json_eq(a: &serde_json::Value, b: &serde_json::Value) -> (r: bool)
    ensures
        r == json_equal(json_view(*a), json_view(*b)),
        json_view(*a) == json_view(*b) ==> r,
        json_view(*a) is Null || json_view(*a) is Bool || json_view(*a) is Str ==> r == (json_view(
            *a,
        ) == json_view(*b)),
{
    a == b
}

} // verus!
