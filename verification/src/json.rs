//! JSON values, as `serde_json` reads them.
//!
//! This library does not read JSON values itself: `serde_json` does. What
//! it reads is given a name here, and the contracts of the library speak of
//! those names.

use crate::cursor::Cursor;
use crate::error::{malformed, CocoError, MalformedKind, MalformedKindView};
use vstd::prelude::*;

verus! {

/// `serde_json::Value`, a decoded JSON value. The library carries such
/// values and hands them out; it does not look into them.
#[verifier::external_type_specification]
#[verifier::external_body]
pub struct ExValue(serde_json::Value);

/// The number of bytes that `serde_json`'s stream deserializer takes from
/// the start of `text` to read one JSON value, leading whitespace included;
/// `None` where it reads none (`text` is empty or blank, or does not start
/// with a well-formed value).
pub uninterp spec fn json_value_len(text: Seq<u8>) -> Option<nat>;

/// Where the JSON value that `serde_json` reads from the start of `text`
/// is an object with a member `name` that is an integer in the range of
/// `i64`: that integer. `None` otherwise.
pub uninterp spec fn json_integer_member(text: Seq<u8>, name: Seq<char>) -> Option<i64>;

/// The text of the JSON value that starts at offset `start` of `doc`, from
/// `start` to the value's last byte; `None` where none can be read there.
pub open spec fn value_at(doc: Seq<u8>, start: int) -> Option<Seq<u8>> {
    if 0 <= start <= doc.len() {
        match json_value_len(doc.skip(start)) {
            Some(n) => if n <= doc.len() - start {
                Some(doc.subrange(start, start + n))
            } else {
                None
            },
            None => None,
        }
    } else {
        None
    }
}

/// A decoded JSON value, together with the text that it was decoded from.
///
/// The contracts of this library speak of the text, which is the view.
#[derive(Debug)]
pub struct JsonDict {
    text: Vec<u8>,
    tree: serde_json::Value,
}

impl View for JsonDict {
    type V = Seq<u8>;

    closed spec fn view(&self) -> Seq<u8> {
        self.text@
    }
}

/// Calls `serde_json::Deserializer::from_slice` on `doc` from `start`,
/// takes the first value of its `into_iter` and then its `byte_offset`.
///
/// Trusted: a value comes back exactly where `json_value_len` of that part
/// of `doc` is `Some`; the length is the offset that `serde_json` reports,
/// which is at most the number of bytes it was given; the result holds the
/// bytes that were read, with the value.
#[verifier::external_body]
fn decode_value(doc: &[u8], start: usize) -> (r: Option<JsonDict>)
    requires
        start <= doc@.len(),
    ensures
        r is Some <==> json_value_len(doc@.skip(start as int)) is Some,
        r matches Some(d) ==> (json_value_len(doc@.skip(start as int)) matches Some(n) && n
            <= doc@.len() - start && d@ == doc@.subrange(start as int, start + n)),
{
    let mut stream = serde_json::Deserializer::from_slice(&doc[start..]).into_iter::<
        serde_json::Value,
    >();
    match stream.next() {
        Some(Ok(tree)) => Some(
            JsonDict { text: doc[start..start + stream.byte_offset()].to_vec(), tree },
        ),
        _ => None,
    }
}

/// Calls `serde_json::Value::get` with `name` on the value of `dict`, and
/// `serde_json::Value::as_i64` on what it finds.
///
/// Trusted: the result is `json_integer_member` of the text of `dict`. A
/// `JsonDict` is made by `decode_value` alone, so its value is the one
/// that `serde_json` read from its text.
#[verifier::external_body]
fn integer_member_of(dict: &JsonDict, name: &str) -> (r: Option<i64>)
    ensures
        r == json_integer_member(dict@, name@),
{
    match dict.tree.get(name) {
        Some(member) => member.as_i64(),
        None => None,
    }
}

impl JsonDict {
    /// Decodes the JSON value that starts at offset `start` of `doc`.
    pub fn decode(doc: &[u8], start: usize) -> (r: Option<JsonDict>)
        ensures
            r is Some <==> value_at(doc@, start as int) is Some,
            r matches Some(d) ==> value_at(doc@, start as int) == Some(d@),
    {
        if start <= doc.len() {
            decode_value(doc, start)
        } else {
            None
        }
    }

    /// Decodes one JSON value at the cursor and moves the cursor just past
    /// it. Fails, at the offset where the value should start, where none
    /// can be read.
    pub fn from_reader(cursor: &mut Cursor) -> (r: Result<JsonDict, CocoError>)
        ensures
            final(cursor).doc() == old(cursor).doc(),
            r is Ok <==> value_at(old(cursor).doc(), old(cursor).offset()) is Some,
            r matches Ok(d) ==> value_at(old(cursor).doc(), old(cursor).offset()) == Some(d@)
                && final(cursor).offset() == old(cursor).offset() + d@.len(),
            r matches Err(e) ==> e@ == malformed(
                old(cursor).offset(),
                MalformedKindView::InvalidValue,
            ),
    {
        let start = cursor.position();
        match JsonDict::decode(cursor.document(), start) {
            Some(dict) => {
                cursor.advance(dict.len());
                Ok(dict)
            },
            None => Err(CocoError::Malformed { offset: start, kind: MalformedKind::InvalidValue }),
        }
    }

    /// The number of bytes of the text.
    pub fn len(&self) -> (n: usize)
        ensures
            n == self@.len(),
    {
        self.text.len()
    }

    /// The text that the value was decoded from.
    pub fn as_bytes(&self) -> (bytes: &[u8])
        ensures
            bytes@ == self@,
    {
        self.text.as_slice()
    }

    /// The decoded value. Of what it holds, the contracts of this library
    /// say nothing but through `json_integer_member` of the text.
    pub closed spec fn tree(&self) -> serde_json::Value {
        self.tree
    }

    /// The decoded value.
    pub fn value(&self) -> (value: &serde_json::Value)
        ensures
            *value == self.tree(),
    {
        &self.tree
    }

    /// The decoded value, without the text.
    pub fn into_value(self) -> (value: serde_json::Value)
        ensures
            value == self.tree(),
    {
        self.tree
    }

    /// The integer member `name` of the value, where it is an object that
    /// has one.
    pub fn integer_member(&self, name: &str) -> (r: Option<i64>)
        ensures
            r == json_integer_member(self@, name@),
    {
        integer_member_of(self, name)
    }
}

} // verus!
