//! JSON values, as the `serde_json` crate holds them.
use crate::text;
use vstd::prelude::*;
use vstd::string::*;

verus! {

/// A JSON value.
#[verifier::external_type_specification]
#[verifier::external_body]
pub struct ExValue(serde_json::Value);

/// The members of an object. Nothing for any other value.
pub uninterp spec fn members(v: serde_json::Value) -> Option<Map<Seq<char>, serde_json::Value>>;

/// The elements of an array. Nothing for any other value.
pub uninterp spec fn elements(v: serde_json::Value) -> Option<Seq<serde_json::Value>>;

/// The text of a string. Nothing for any other value.
pub uninterp spec fn string_in(v: serde_json::Value) -> Option<Seq<char>>;

/// The value, written on one line.
pub uninterp spec fn rendered(v: serde_json::Value) -> Seq<char>;

/// The value, written on several lines.
pub uninterp spec fn pretty_text(v: serde_json::Value) -> Seq<char>;

/// The value that a text stands for, or the reason why it stands for none.
pub uninterp spec fn parsed(source: Seq<char>) -> Result<serde_json::Value, Seq<char>>;

/// Letters alone, which no JSON string escapes.
pub open spec fn is_letters(s: Seq<char>) -> bool {
    forall|i: int| 0 <= i < s.len() ==> 'a' <= #[trigger] s[i] <= 'z' || 'A' <= s[i] <= 'Z'
}

/// `serde_json::from_str`, into a `Value`. What a given text stands for is left unsaid.
#[verifier::external_body]
pub(crate) fn parse(source: &str) -> (r: Result<serde_json::Value, String>)
    ensures
        match r {
            Ok(v) => parsed(source@) == Ok::<serde_json::Value, Seq<char>>(v),
            Err(message) => parsed(source@) == Err::<serde_json::Value, Seq<char>>(message@),
        },
{
    serde_json::from_str(source).map_err(|e: serde_json::Error| format!("{e}"))
}

/// `serde_json::to_string_pretty`, of a `Value`. It fails for values whose own code fails, and for
/// maps with keys that are no strings: for a `Value`, never. What a given value is written as is left
/// unsaid.
#[verifier::external_body]
pub(crate) fn pretty(v: &serde_json::Value) -> (r: Result<String, String>)
    ensures
        r is Ok,
        r->Ok_0@ == pretty_text(*v),
{
    serde_json::to_string_pretty(v).map_err(|e| format!("{e}"))
}

/// `Value::to_string`. What a given value is written as is left unsaid, but for what the
/// constructors of strings, arrays and objects say.
#[verifier::external_body]
pub(crate) fn render(v: &serde_json::Value) -> (r: String)
    ensures
        r@ == rendered(*v),
{
    v.to_string()
}

/// `Value::clone`.
#[verifier::external_body]
pub(crate) fn copy(v: &serde_json::Value) -> (r: serde_json::Value)
    ensures
        r == *v,
{
    v.clone()
}

/// `serde_json::Map::new`, as a `Value`: an object without members.
#[verifier::external_body]
pub(crate) fn new_object() -> (r: serde_json::Value)
    ensures
        members(r) is Some,
        members(r)->0.dom() =~= Set::empty(),
{
    serde_json::Value::Object(serde_json::Map::new())
}

/// `Value::Array` of an empty vector: an array without elements.
#[verifier::external_body]
pub(crate) fn new_array() -> (r: serde_json::Value)
    ensures
        elements(r) is Some,
        elements(r)->0.len() == 0,
{
    serde_json::Value::Array(Vec::new())
}

/// `Value::String` of a text. Where the string is written, the letters of the text stand in a row
/// as they do in the text.
#[verifier::external_body]
pub(crate) fn new_string(s: &str) -> (r: serde_json::Value)
    ensures
        string_in(r) == Some(s@),
        forall|part: Seq<char>|
            is_letters(part) && text::occurs_in(part, s@) ==> #[trigger] text::occurs_in(part, rendered(r)),
{
    serde_json::Value::String(s.to_string())
}

/// `Value::is_object`.
#[verifier::external_body]
pub(crate) fn is_object(v: &serde_json::Value) -> (r: bool)
    ensures
        r == (members(*v) is Some),
{
    v.is_object()
}

/// `Value::get` with a key: the member of an object. Nothing where there is none, or no object.
#[verifier::external_body]
pub(crate) fn member<'a>(v: &'a serde_json::Value, key: &str) -> (r: Option<&'a serde_json::Value>)
    ensures
        match r {
            Some(found) => members(*v) is Some && members(*v)->0.contains_key(key@) && *found == members(
                *v,
            )->0[key@],
            None => members(*v) is Some ==> !members(*v)->0.contains_key(key@),
        },
{
    v.get(key)
}

/// `Value::index_mut` with a key, assigned to: the member of an object is set. Where the object is
/// written, each of its members is.
#[verifier::external_body]
pub(crate) fn set_member(v: &mut serde_json::Value, key: &str, value: serde_json::Value)
    requires
        members(*old(v)) is Some,
    ensures
        members(*final(v)) == Some(members(*old(v))->0.insert(key@, value)),
        forall|k: Seq<char>| #[trigger]
            members(*final(v))->0.contains_key(k) ==> text::occurs_in(
                rendered(members(*final(v))->0[k]),
                rendered(*final(v)),
            ),
{
    v[key] = value;
}

/// `Value::as_array`.
#[verifier::external_body]
pub(crate) fn as_array(v: &serde_json::Value) -> (r: Option<&Vec<serde_json::Value>>)
    ensures
        match r {
            Some(list) => elements(*v) == Some(list@),
            None => elements(*v) is None,
        },
{
    v.as_array()
}

/// `Vec::push` on the vector that `Value::as_array_mut` gives: an element is put behind the others.
/// Where the array is written, each of its elements is.
#[verifier::external_body]
pub(crate) fn push_element(v: &mut serde_json::Value, value: serde_json::Value)
    requires
        elements(*old(v)) is Some,
    ensures
        elements(*final(v)) == Some(elements(*old(v))->0.push(value)),
        forall|i: int|
            0 <= i < elements(*final(v))->0.len() ==> text::occurs_in(
                rendered(#[trigger] elements(*final(v))->0[i]),
                rendered(*final(v)),
            ),
{
    v.as_array_mut().unwrap().push(value)
}

} // verus!
