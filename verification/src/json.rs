//! JSON documents: what they are, and the calls of `serde_json` that read and make them.
use vstd::prelude::*;

verus! {

/// A JSON document held by `serde_json`.
#[verifier::external_type_specification]
#[verifier::external_body]
pub struct ExternalValue(serde_json::Value);

/// The members of a JSON object held by `serde_json`.
#[verifier::external_type_specification]
#[verifier::external_body]
#[verifier::reject_recursive_types(K)]
#[verifier::reject_recursive_types(V)]
pub struct ExternalMap<K, V>(serde_json::Map<K, V>);

/// What a JSON document is.
pub enum Json {
    /// The value `null`.
    Null,
    /// A truth value.
    Bool(bool),
    /// A number held as an integer.
    Integer(int),
    /// A number held as a 64-bit floating-point value, by its bits.
    Real(u64),
    /// A string.
    Text(Seq<char>),
    /// An array.
    List(Seq<Json>),
    /// An object.
    Object(Map<Seq<char>, Json>),
}

/// What a document held by `serde_json` holds.
pub uninterp spec fn contents(value: serde_json::Value) -> Json;

/// What the members of an object held by `serde_json` hold.
pub uninterp spec fn members(map: serde_json::Map<String, serde_json::Value>) -> Map<
    Seq<char>,
    Json,
>;

/// The document that `serde_json` reads from a text, where it accepts the text.
pub uninterp spec fn parsed(text: Seq<char>) -> Option<Json>;

/// No members at all.
pub open spec fn no_members() -> Map<Seq<char>, Json> {
    Map::empty()
}

/// The contents of a list of documents.
pub open spec fn all_contents(values: Seq<serde_json::Value>) -> Seq<Json> {
    values.map_values(|v: serde_json::Value| contents(v))
}

impl Json {
    /// The member of an object with the given name.
    pub open spec fn member(self, name: Seq<char>) -> Option<Json> {
        match self {
            Json::Object(m) => if m.contains_key(name) {
                Some(m[name])
            } else {
                None
            },
            _ => None,
        }
    }

    /// The item of an array at the given place.
    pub open spec fn item(self, index: int) -> Option<Json> {
        match self {
            Json::List(s) => if 0 <= index < s.len() {
                Some(s[index])
            } else {
                None
            },
            _ => None,
        }
    }

    /// The characters of a string.
    pub open spec fn text(self) -> Option<Seq<char>> {
        match self {
            Json::Text(s) => Some(s),
            _ => None,
        }
    }
}

/// `serde_json::from_str` into a document: whether it accepts the text and what it then
/// reads depends on the text alone.
#[verifier::external_body]
pub(crate) fn parse(text: &str) -> (r: Option<serde_json::Value>)
    ensures
        (match r {
            Some(value) => Some(contents(value)),
            None => None::<Json>,
        }) == parsed(text@),
{
    serde_json::from_str::<serde_json::Value>(text).ok()
}

/// `serde_json::Value::get` with a string: the member of that name, and nothing where the
/// document is no object or has no such member.
#[verifier::external_body]
pub(crate) fn get_member<'a>(value: &'a serde_json::Value, name: &str) -> (r: Option<
    &'a serde_json::Value,
>)
    ensures
        (match r {
            Some(found) => Some(contents(*found)),
            None => None::<Json>,
        }) == contents(*value).member(name@),
{
    value.get(name)
}

/// `serde_json::Value::get` with an index: the item at that place, and nothing where the
/// document is no array or is shorter.
#[verifier::external_body]
pub(crate) fn get_item<'a>(value: &'a serde_json::Value, index: usize) -> (r: Option<
    &'a serde_json::Value,
>)
    ensures
        (match r {
            Some(found) => Some(contents(*found)),
            None => None::<Json>,
        }) == contents(*value).item(index as int),
{
    value.get(index)
}

/// `serde_json::Value::as_str`: the characters of a string, and nothing where the
/// document is no string.
#[verifier::external_body]
pub(crate) fn get_text(value: &serde_json::Value) -> (r: Option<&str>)
    ensures
        (match r {
            Some(text) => Some(text@),
            None => None::<Seq<char>>,
        }) == contents(*value).text(),
{
    value.as_str()
}

/// `serde_json::Value::from` for a string: a string with the same characters.
#[verifier::external_body]
pub(crate) fn text_value(text: &str) -> (r: serde_json::Value)
    ensures
        contents(r) == Json::Text(text@),
{
    serde_json::Value::from(text)
}

/// `serde_json::Value::from` for a truth value: the same truth value.
#[verifier::external_body]
pub(crate) fn bool_value(b: bool) -> (r: serde_json::Value)
    ensures
        contents(r) == Json::Bool(b),
{
    serde_json::Value::from(b)
}

/// `serde_json::Value::from` for a count: the same number.
#[verifier::external_body]
pub(crate) fn count_value(n: usize) -> (r: serde_json::Value)
    ensures
        contents(r) == Json::Integer(n as int),
{
    serde_json::Value::from(n)
}

/// `serde_json::Value::from` for a list of documents: an array of them, in their order.
#[verifier::external_body]
pub(crate) fn list_value(values: Vec<serde_json::Value>) -> (r: serde_json::Value)
    ensures
        contents(r) == Json::List(all_contents(values@)),
{
    serde_json::Value::from(values)
}

/// `serde_json::Map::new`: an object without members.
#[verifier::external_body]
pub(crate) fn new_object() -> (r: serde_json::Map<String, serde_json::Value>)
    ensures
        members(r) == no_members(),
{
    serde_json::Map::new()
}

/// `serde_json::Map::insert`: the member of that name is the given document, in place of
/// one that was there.
#[verifier::external_body]
pub(crate) fn put_member(
    object: &mut serde_json::Map<String, serde_json::Value>,
    name: &str,
    value: serde_json::Value,
)
    ensures
        members(*final(object)) == members(*old(object)).insert(name@, contents(value)),
{
    object.insert(name.to_string(), value);
}

/// `serde_json::Value::from` for the members of an object: the object with them.
#[verifier::external_body]
pub(crate) fn object_value(object: serde_json::Map<String, serde_json::Value>) -> (r:
    serde_json::Value)
    ensures
        contents(r) == Json::Object(members(object)),
{
    serde_json::Value::from(object)
}

} // verus!
