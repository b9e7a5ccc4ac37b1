//! What is read from request bodies, which are JSON texts.

use crate::text::text_view;
use vstd::prelude::*;
use vstd::string::*;

verus! {

/// Whether `body` is a JSON text.
pub uninterp spec fn is_json(body: Seq<u8>) -> bool;

/// The text of the member `key` of the object that the JSON text `body` is:
/// nothing if it is no object or has no such member.
pub uninterp spec fn member_text(body: Seq<u8>, key: Seq<char>) -> Option<Seq<char>>;

/// The string that the member `key` of the object that the JSON text `body` is
/// holds: nothing if there is no such member, or if it is no string.
pub uninterp spec fn member_str(body: Seq<u8>, key: Seq<char>) -> Option<Seq<char>>;

/// The texts of the elements of the array that the JSON text `body` is: none
/// if it is no array.
pub uninterp spec fn element_texts(body: Seq<u8>) -> Seq<Seq<char>>;

/// The texts of some members of an object.
///
/// Calls `from_slice` of the crate `serde_json` once, and for each key `get`
/// and `to_string` of its `Value`. Claimed of them: whether `from_slice`
/// succeeds is a function of the body alone, and if it does, each text is a
/// function of the body and of its key alone. What the text of a member is, is
/// not stated.
#[verifier::external_body]
pub(crate) fn member_texts(body: &[u8], keys: &Vec<String>) -> (r: Option<Vec<Option<String>>>)
    ensures
        r is Some <==> is_json(body@),
        r matches Some(texts) ==> texts@.len() == keys@.len() && forall|i: int|
            0 <= i < keys@.len() ==> text_view(#[trigger] texts@[i]) == member_text(body@, keys@[i]@),
{
    let value: serde_json::Value = serde_json::from_slice(body).ok()?;
    Some(keys.iter().map(|key| value.get(key.as_str()).map(|member| member.to_string())).collect())
}

/// A member of an object that is a string.
///
/// Calls `from_slice` of the crate `serde_json` and `get` and `as_str` of its
/// `Value`. Claimed of them: whether `from_slice` succeeds is a function of the
/// body alone, and if it does, the string is a function of the body and of the
/// key alone.
#[verifier::external_body]
pub(crate) fn member_string(body: &[u8], key: &str) -> (r: Option<Option<String>>)
    ensures
        r is Some <==> is_json(body@),
        r matches Some(text) ==> text_view(text) == member_str(body@, key@),
{
    let value: serde_json::Value = serde_json::from_slice(body).ok()?;
    Some(value.get(key).and_then(|member| member.as_str()).map(|s| s.to_string()))
}

/// The texts of the elements of an array.
///
/// Calls `from_slice` of the crate `serde_json` and `as_array` and `to_string`
/// of its `Value`. Claimed of them: whether `from_slice` succeeds, and if it
/// does the texts, are functions of the body alone.
#[verifier::external_body]
pub(crate) fn elements(body: &[u8]) -> (r: Option<Vec<String>>)
    ensures
        r is Some <==> is_json(body@),
        r matches Some(texts) ==> texts@.len() == element_texts(body@).len() && forall|i: int|
            0 <= i < texts@.len() ==> (#[trigger] texts@[i])@ == element_texts(body@)[i],
{
    let value: serde_json::Value = serde_json::from_slice(body).ok()?;
    let texts = value.as_array().map(|list| list.iter().map(|item| item.to_string()).collect());
    Some(texts.unwrap_or_default())
}

/// The text of a member, or nothing if `body` cannot be read.
pub open spec fn text_in(body: Seq<u8>, key: Seq<char>) -> Option<Seq<char>> {
    if is_json(body) {
        member_text(body, key)
    } else {
        None
    }
}

/// The string in a member, or nothing if `body` cannot be read.
pub open spec fn str_in(body: Seq<u8>, key: Seq<char>) -> Option<Seq<char>> {
    if is_json(body) {
        member_str(body, key)
    } else {
        None
    }
}

/// The texts of the elements, or none if `body` cannot be read.
pub open spec fn elements_in(body: Seq<u8>) -> Seq<Seq<char>> {
    if is_json(body) {
        element_texts(body)
    } else {
        Seq::empty()
    }
}

/// The text of one member of an object.
pub(crate) fn member(body: &[u8], key: &str) -> (r: Option<String>)
    ensures
        text_view(r) == text_in(body@, key@),
{
    let mut keys: Vec<String> = Vec::new();
    keys.push(key.to_owned());
    match member_texts(body, &keys) {
        Some(texts) => {
            let mut texts = texts;
            assert(text_view(texts@[0]) == member_text(body@, keys@[0]@));
            match texts.pop() {
                Some(text) => text,
                None => None,
            }
        },
        None => None,
    }
}

/// The string in one member of an object.
pub(crate) fn string_member(body: &[u8], key: &str) -> (r: Option<String>)
    ensures
        text_view(r) == str_in(body@, key@),
{
    match member_string(body, key) {
        Some(text) => text,
        None => None,
    }
}

} // verus!
