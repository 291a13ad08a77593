//! JSON: what the library reads of objects, and how it writes them.
use vstd::prelude::*;

verus! {

broadcast use vstd::string::group_string_axioms;

/// A JSON value.
#[verifier::external_type_specification]
#[verifier::external_body]
pub struct ExValue(serde_json::Value);

/// The members of a JSON object.
#[verifier::external_type_specification]
#[verifier::external_body]
#[verifier::reject_recursive_types(K)]
#[verifier::reject_recursive_types(V)]
pub struct ExMembers<K, V>(serde_json::Map<K, V>);

/// A member of a JSON object, as far as anything is made of it.
#[verifier::ext_equal]
pub ghost enum Field {
    /// A string.
    Text(Seq<char>),
    /// A whole number from zero on that fits in 64 bits.
    Number(u64),
    /// True or false.
    Flag(bool),
    /// Anything else.
    Other,
}

/// The members of a JSON value; a value that is no object has none.
pub uninterp spec fn members(v: serde_json::Value) -> Map<Seq<char>, Field>;

/// The members of an object that is being made.
pub uninterp spec fn fields(m: serde_json::Map<String, serde_json::Value>) -> Map<Seq<char>, Field>;

/// The members of the JSON value that some bytes hold; nothing where they are
/// no JSON.
pub uninterp spec fn json_members(bytes: Seq<u8>) -> Option<Map<Seq<char>, Field>>;

/// The members of the JSON value that a text holds; nothing where it is no
/// JSON.
pub uninterp spec fn json_text_members(text: Seq<char>) -> Option<Map<Seq<char>, Field>>;

/// An object as text, with a line for each member.
pub uninterp spec fn pretty_json(fields: Map<Seq<char>, Field>) -> Seq<char>;

/// No members.
pub open spec fn no_members() -> Map<Seq<char>, Field> {
    Map::empty()
}

/// The string under a name.
pub open spec fn text_of(m: Map<Seq<char>, Field>, key: Seq<char>) -> Option<Seq<char>> {
    if m.contains_key(key) {
        match m[key] {
            Field::Text(s) => Some(s),
            _ => None,
        }
    } else {
        None
    }
}

/// The number under a name.
pub open spec fn number_of(m: Map<Seq<char>, Field>, key: Seq<char>) -> Option<u64> {
    if m.contains_key(key) {
        match m[key] {
            Field::Number(n) => Some(n),
            _ => None,
        }
    } else {
        None
    }
}

/// The flag under a name.
pub open spec fn flag_of(m: Map<Seq<char>, Field>, key: Seq<char>) -> Option<bool> {
    if m.contains_key(key) {
        match m[key] {
            Field::Flag(b) => Some(b),
            _ => None,
        }
    } else {
        None
    }
}

/// `serde_json::from_slice`: the value that the bytes hold. Whether there is
/// one, and what its members are, depends on the bytes alone.
#[verifier::external_body]
pub(crate) fn json_of(bytes: &Vec<u8>) -> (r: Option<serde_json::Value>)
    ensures
        match r {
            Some(v) => json_members(bytes@) == Some(members(v)),
            None => json_members(bytes@) is None,
        },
{
    serde_json::from_slice(bytes).ok()
}

/// `serde_json::from_str`: the value that the text holds. Whether there is one,
/// and what its members are, depends on the text alone.
#[verifier::external_body]
pub(crate) fn json_of_text(text: &str) -> (r: Option<serde_json::Value>)
    ensures
        match r {
            Some(v) => json_text_members(text@) == Some(members(v)),
            None => json_text_members(text@) is None,
        },
{
    serde_json::from_str(text).ok()
}

/// `serde_json::Value::as_str` of a member: a string, if the value is an object
/// and has a string under that name.
#[verifier::external_body]
pub(crate) fn text_member<'a>(v: &'a serde_json::Value, key: &str) -> (r: Option<&'a str>)
    ensures
        match r {
            Some(s) => text_of(members(*v), key@) == Some(s@),
            None => text_of(members(*v), key@) is None,
        },
{
    v[key].as_str()
}

/// `serde_json::Value::as_u64` of a member: a number, if the value is an object
/// and has, under that name, a whole number that fits.
#[verifier::external_body]
pub(crate) fn number_member(v: &serde_json::Value, key: &str) -> (r: Option<u64>)
    ensures
        r == number_of(members(*v), key@),
{
    v[key].as_u64()
}

/// `serde_json::Value::as_bool` of a member: a flag, if the value is an object
/// and has a flag under that name.
#[verifier::external_body]
pub(crate) fn flag_member(v: &serde_json::Value, key: &str) -> (r: Option<bool>)
    ensures
        r == flag_of(members(*v), key@),
{
    v[key].as_bool()
}

/// `serde_json::Map::new`: an object without members.
#[verifier::external_body]
pub(crate) fn new_object() -> (r: serde_json::Map<String, serde_json::Value>)
    ensures
        fields(r) == no_members(),
{
    serde_json::Map::new()
}

/// `serde_json::Map::insert` with a string, in place of what the name had.
#[verifier::external_body]
pub(crate) fn put_text(
    m: &mut serde_json::Map<String, serde_json::Value>,
    key: &str,
    text: &str,
)
    ensures
        fields(*final(m)) == fields(*old(m)).insert(key@, Field::Text(text@)),
{
    m.insert(key.to_owned(), serde_json::Value::String(text.to_owned()));
}

/// `serde_json::Map::insert` with a number, in place of what the name had.
#[verifier::external_body]
pub(crate) fn put_number(m: &mut serde_json::Map<String, serde_json::Value>, key: &str, n: u64)
    ensures
        fields(*final(m)) == fields(*old(m)).insert(key@, Field::Number(n)),
{
    m.insert(key.to_owned(), serde_json::Value::from(n));
}

/// `serde_json::Map::insert` with a flag, in place of what the name had.
#[verifier::external_body]
pub(crate) fn put_flag(m: &mut serde_json::Map<String, serde_json::Value>, key: &str, b: bool)
    ensures
        fields(*final(m)) == fields(*old(m)).insert(key@, Field::Flag(b)),
{
    m.insert(key.to_owned(), serde_json::Value::Bool(b));
}

/// `serde_json::to_string_pretty` of an object of strings, numbers and flags.
/// The text depends on the members alone, since the object keeps them in the
/// order of their names, and with or without a line feed behind it,
/// `serde_json::from_str` reads it as those members.
#[verifier::external_body]
pub(crate) fn pretty(m: &serde_json::Map<String, serde_json::Value>) -> (r: String)
    requires
        forall|k: Seq<char>| #[trigger]
            fields(*m).contains_key(k) ==> !(fields(*m)[k] is Other),
    ensures
        r@ == pretty_json(fields(*m)),
        json_text_members(r@) == Some(fields(*m)),
        json_text_members(r@.push('\n')) == Some(fields(*m)),
{
    serde_json::to_string_pretty(m).unwrap_or_default()
}

} // verus!
