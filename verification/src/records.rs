//! Arrays of records: where each record lies, and the integer by which it
//! is found.
//!
//! An array is `[`, then records with `,` between them, then `]`, with
//! whitespace allowed around each of these. A record is a JSON object that
//! has the integer member asked for.

use crate::cursor::{lemma_skip_ws, remaining, skip_ws, Cursor, CLOSE_BRACKET, COMMA, OPEN_BRACKET};
use crate::error::{malformed, CocoError, CocoErrorView, MalformedKind, MalformedKindView};
use crate::json::{json_integer_member, value_at, JsonDict};
use vstd::prelude::*;

verus! {

/// Where the text of one record lies in the document.
#[derive(Clone, Copy, PartialEq, Eq, Structural, Debug)]
pub struct Page {
    pub offset: usize,
    pub size: usize,
}

/// One record of an array: the integer by which it is found, and where it
/// lies.
#[derive(Clone, Copy, PartialEq, Eq, Structural, Debug)]
pub struct Entry {
    pub key: i64,
    pub page: Page,
}

/// What a sequence of steps through a document comes to: a value and the
/// offset then reached, or a failure.
pub type Outcome<T> = Result<(T, int), CocoErrorView>;

/// `first` in front of the records of `rest`.
pub open spec fn prepend(first: Entry, rest: Outcome<Seq<Entry>>) -> Outcome<Seq<Entry>> {
    match rest {
        Ok((entries, end)) => Ok((seq![first] + entries, end)),
        Err(e) => Err(e),
    }
}

/// The record whose text starts at offset `start`, and the offset just
/// past it. Fails at `start` where no JSON value can be read there, or
/// where the value has no integer member `field`.
pub open spec fn record_at(doc: Seq<u8>, start: int, field: Seq<char>) -> Outcome<Entry> {
    match value_at(doc, start) {
        None => Err(malformed(start, MalformedKindView::InvalidValue)),
        Some(text) => match json_integer_member(text, field) {
            None => Err(malformed(start, MalformedKindView::MissingIdentifier)),
            Some(key) => Ok(
                (
                    Entry { key, page: Page { offset: start as usize, size: text.len() as usize } },
                    start + text.len(),
                ),
            ),
        },
    }
}

/// The opening of an array at or after `pos`: whether a record follows
/// (the array is not empty), and the offset at which to go on: that of the
/// first record, or just past the `]` of an empty array.
pub open spec fn array_open(doc: Seq<u8>, pos: int) -> Outcome<bool> {
    let open = skip_ws(doc, pos);
    if open >= doc.len() {
        Err(malformed(doc.len() as int, MalformedKindView::UnexpectedEnd))
    } else if doc[open] != OPEN_BRACKET {
        Err(malformed(open + 1, MalformedKindView::UnexpectedByte(doc[open])))
    } else {
        let at = skip_ws(doc, open + 1);
        if at < doc.len() && doc[at] == CLOSE_BRACKET {
            Ok((false, at + 1))
        } else {
            Ok((true, open + 1))
        }
    }
}

/// What follows a record that ends at `pos`: whether another record
/// follows (after `,`) or the array ends (at `]`), and the offset just
/// past that byte.
pub open spec fn array_next(doc: Seq<u8>, pos: int) -> Outcome<bool> {
    let at = skip_ws(doc, pos);
    if at >= doc.len() {
        Err(malformed(doc.len() as int, MalformedKindView::UnexpectedEnd))
    } else if doc[at] == COMMA {
        Ok((true, at + 1))
    } else if doc[at] == CLOSE_BRACKET {
        Ok((false, at + 1))
    } else {
        Err(malformed(at + 1, MalformedKindView::UnexpectedByte(doc[at])))
    }
}

/// The records of an array from offset `pos` on, where `more` says whether
/// a record starts there, and the offset just past the array.
pub open spec fn records_from(doc: Seq<u8>, pos: int, more: bool, field: Seq<char>) -> Outcome<
    Seq<Entry>,
>
    decreases remaining(doc, pos),
    via records_from_advances
{
    if !more {
        Ok((Seq::empty(), pos))
    } else {
        match record_at(doc, pos, field) {
            Err(e) => Err(e),
            Ok((entry, after)) => match array_next(doc, after) {
                Err(e) => Err(e),
                Ok((again, next)) => prepend(entry, records_from(doc, next, again, field)),
            },
        }
    }
}

#[via_fn]
proof fn records_from_advances(doc: Seq<u8>, pos: int, more: bool, field: Seq<char>) {
    if let Ok((_, after)) = record_at(doc, pos, field) {
        lemma_skip_ws(doc, after);
    }
}

/// The records of the array that starts at or after `pos`, in their order,
/// and the offset just past its `]`.
pub open spec fn records(doc: Seq<u8>, pos: int, field: Seq<char>) -> Outcome<Seq<Entry>> {
    match array_open(doc, pos) {
        Err(e) => Err(e),
        Ok((more, start)) => records_from(doc, start, more, field),
    }
}

/// Reads the `[` of an array. `true` where a record follows; `false`
/// where the array is empty, and the cursor is then past its `]`.
pub fn open_array(cursor: &mut Cursor) -> (r: Result<bool, CocoError>)
    ensures
        final(cursor).doc() == old(cursor).doc(),
        match array_open(old(cursor).doc(), old(cursor).offset()) {
            Ok((more, next)) => r == Ok::<bool, CocoError>(more) && final(cursor).offset() == next,
            Err(e) => r matches Err(x) && x@ == e,
        },
{
    match cursor.read_skipping_ws() {
        None => Err(
            CocoError::Malformed { offset: cursor.position(), kind: MalformedKind::UnexpectedEnd },
        ),
        Some(b) => {
            if b != OPEN_BRACKET {
                Err(
                    CocoError::Malformed {
                        offset: cursor.position(),
                        kind: MalformedKind::UnexpectedByte(b),
                    },
                )
            } else {
                if cursor.peek_skipping_ws() == Some(CLOSE_BRACKET) {
                    let _ = cursor.read_skipping_ws();
                    Ok(false)
                } else {
                    Ok(true)
                }
            }
        },
    }
}

/// Reads what follows a record: `true` after `,`, `false` after `]`.
pub fn next_in_array(cursor: &mut Cursor) -> (r: Result<bool, CocoError>)
    ensures
        final(cursor).doc() == old(cursor).doc(),
        match array_next(old(cursor).doc(), old(cursor).offset()) {
            Ok((more, next)) => r == Ok::<bool, CocoError>(more) && final(cursor).offset() == next,
            Err(e) => r matches Err(x) && x@ == e,
        },
{
    match cursor.read_skipping_ws() {
        None => Err(
            CocoError::Malformed { offset: cursor.position(), kind: MalformedKind::UnexpectedEnd },
        ),
        Some(b) => {
            if b == COMMA {
                Ok(true)
            } else if b == CLOSE_BRACKET {
                Ok(false)
            } else {
                Err(
                    CocoError::Malformed {
                        offset: cursor.position(),
                        kind: MalformedKind::UnexpectedByte(b),
                    },
                )
            }
        },
    }
}

/// Reads the record at the cursor and moves the cursor just past it.
pub fn read_record(cursor: &mut Cursor, field: &str) -> (r: Result<Entry, CocoError>)
    ensures
        final(cursor).doc() == old(cursor).doc(),
        match record_at(old(cursor).doc(), old(cursor).offset(), field@) {
            Ok((entry, next)) => r == Ok::<Entry, CocoError>(entry) && final(cursor).offset()
                == next,
            Err(e) => r matches Err(x) && x@ == e,
        },
{
    let start = cursor.position();
    match JsonDict::decode(cursor.document(), start) {
        None => Err(CocoError::Malformed { offset: start, kind: MalformedKind::InvalidValue }),
        Some(dict) => match dict.integer_member(field) {
            None => Err(
                CocoError::Malformed { offset: start, kind: MalformedKind::MissingIdentifier },
            ),
            Some(key) => {
                cursor.advance(dict.len());
                Ok(Entry { key, page: Page { offset: start, size: dict.len() } })
            },
        },
    }
}

/// An array that is read ends after it starts, and within the document.
pub proof fn lemma_records_end(doc: Seq<u8>, pos: int, field: Seq<char>)
    requires
        0 <= pos,
    ensures
        records(doc, pos, field) matches Ok((_, end)) ==> pos < end <= doc.len(),
{
    if pos <= doc.len() {
        lemma_skip_ws(doc, pos);
        if let Ok((more, start)) = array_open(doc, pos) {
            lemma_skip_ws(doc, skip_ws(doc, pos) + 1);
            lemma_records_from_end(doc, start, more, field);
        }
    }
}

proof fn lemma_records_from_end(doc: Seq<u8>, pos: int, more: bool, field: Seq<char>)
    requires
        0 <= pos <= doc.len(),
    ensures
        records_from(doc, pos, more, field) matches Ok((_, end)) ==> pos <= end <= doc.len(),
    decreases remaining(doc, pos),
{
    if more {
        if let Ok((_, after)) = record_at(doc, pos, field) {
            lemma_skip_ws(doc, after);
            if let Ok((again, next)) = array_next(doc, after) {
                lemma_records_from_end(doc, next, again, field);
            }
        }
    }
}

/// `seen` in front of the records of `rest`.
pub open spec fn prepend_all(seen: Seq<Entry>, rest: Outcome<Seq<Entry>>) -> Outcome<Seq<Entry>> {
    match rest {
        Ok((entries, end)) => Ok((seen + entries, end)),
        Err(e) => Err(e),
    }
}

proof fn lemma_prepend_all_push(seen: Seq<Entry>, entry: Entry, rest: Outcome<Seq<Entry>>)
    ensures
        prepend_all(seen, prepend(entry, rest)) == prepend_all(seen.push(entry), rest),
{
    if let Ok((entries, end)) = rest {
        assert(seen + (seq![entry] + entries) =~= seen.push(entry) + entries);
    }
}

/// Reads the array of records at the cursor and moves the cursor just past
/// it. `field` is the integer member by which a record is found.
pub fn read_records(cursor: &mut Cursor, field: &str) -> (r: Result<Vec<Entry>, CocoError>)
    ensures
        final(cursor).doc() == old(cursor).doc(),
        match records(old(cursor).doc(), old(cursor).offset(), field@) {
            Ok((entries, end)) => r matches Ok(v) && v@ == entries && final(cursor).offset() == end,
            Err(e) => r matches Err(x) && x@ == e,
        },
{
    let ghost doc = cursor.doc();
    let mut entries: Vec<Entry> = Vec::new();
    let mut more = match open_array(cursor) {
        Ok(more) => more,
        Err(e) => {
            return Err(e);
        },
    };
    while more
        invariant
            cursor.doc() == doc,
            doc == old(cursor).doc(),
            records(doc, old(cursor).offset(), field@) == prepend_all(
                entries@,
                records_from(doc, cursor.offset(), more, field@),
            ),
        ensures
            !more,
        decreases remaining(doc, cursor.offset()) + if more { 1nat } else { 0nat },
    {
        let entry = match read_record(cursor, field) {
            Ok(entry) => entry,
            Err(e) => {
                return Err(e);
            },
        };
        proof {
            lemma_skip_ws(doc, cursor.offset());
        }
        more = match next_in_array(cursor) {
            Ok(more) => more,
            Err(e) => {
                return Err(e);
            },
        };
        proof {
            lemma_prepend_all_push(
                entries@,
                entry,
                records_from(doc, cursor.offset(), more, field@),
            );
        }
        entries.push(entry);
    }
    proof {
        assert(entries@ + Seq::<Entry>::empty() =~= entries@);
    }
    Ok(entries)
}

/// The text of the record at `page`, found again in `doc`: the JSON value
/// that starts at the page's offset, where it has the page's size and its
/// integer member `field` is `key`.
pub open spec fn record_text(doc: Seq<u8>, page: Page, field: Seq<char>, key: i64) -> Result<
    Seq<u8>,
    CocoErrorView,
> {
    match value_at(doc, page.offset as int) {
        Some(text) => if text.len() != page.size {
            Err(malformed(page.offset as int, MalformedKindView::InvalidValue))
        } else if json_integer_member(text, field) != Some(key) {
            Err(malformed(page.offset as int, MalformedKindView::MissingIdentifier))
        } else {
            Ok(text)
        },
        None => Err(malformed(page.offset as int, MalformedKindView::InvalidValue)),
    }
}

/// Decodes the record at `page` of `doc` again, and checks that it is the
/// record that was indexed: that it has the page's size, and `key` as its
/// integer member `field`.
pub fn fetch_record(doc: &[u8], page: Page, field: &str, key: i64) -> (r: Result<
    JsonDict,
    CocoError,
>)
    ensures
        match record_text(doc@, page, field@, key) {
            Ok(text) => r matches Ok(d) && d@ == text,
            Err(e) => r matches Err(x) && x@ == e,
        },
{
    match JsonDict::decode(doc, page.offset) {
        None => Err(
            CocoError::Malformed { offset: page.offset, kind: MalformedKind::InvalidValue },
        ),
        Some(dict) => {
            if dict.len() != page.size {
                Err(CocoError::Malformed { offset: page.offset, kind: MalformedKind::InvalidValue })
            } else {
                match dict.integer_member(field) {
                    Some(found) if found == key => Ok(dict),
                    _ => Err(
                        CocoError::Malformed {
                            offset: page.offset,
                            kind: MalformedKind::MissingIdentifier,
                        },
                    ),
                }
            }
        },
    }
}

} // verus!
