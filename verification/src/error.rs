//! The failures of construction and of the queries.

use crate::section::SectionTag;
use vstd::prelude::*;

verus! {

/// What was wrong with a document.
#[derive(Debug)]
pub enum MalformedKind {
    /// A byte that may not stand between the sections.
    UnexpectedByte(u8),
    /// A section key that is not UTF-8 text, with its bytes.
    UndecodableKey(Vec<u8>),
    /// A key that names none of the five sections.
    UnknownKey(String),
    /// A section that the document does not hold.
    MissingSection(SectionTag),
    /// No JSON value could be read.
    InvalidValue,
    /// A record without the integer member by which it is found.
    MissingIdentifier,
    /// The document ended inside an array of records.
    UnexpectedEnd,
}

/// Why construction or a query failed.
#[derive(Debug)]
pub enum CocoError {
    /// The document is malformed; `offset` is where the reader stood when
    /// it found that out.
    Malformed { offset: usize, kind: MalformedKind },
    /// No image has this identifier.
    NotFound { id: i64 },
}

/// The mathematical form of a [`MalformedKind`].
pub enum MalformedKindView {
    UnexpectedByte(u8),
    UndecodableKey(Seq<u8>),
    UnknownKey(Seq<char>),
    MissingSection(SectionTag),
    InvalidValue,
    MissingIdentifier,
    UnexpectedEnd,
}

/// The mathematical form of a [`CocoError`].
pub enum CocoErrorView {
    Malformed { offset: int, kind: MalformedKindView },
    NotFound { id: i64 },
}

impl View for MalformedKind {
    type V = MalformedKindView;

    open spec fn view(&self) -> MalformedKindView {
        match self {
            MalformedKind::UnexpectedByte(b) => MalformedKindView::UnexpectedByte(*b),
            MalformedKind::UndecodableKey(bytes) => MalformedKindView::UndecodableKey(bytes@),
            MalformedKind::UnknownKey(key) => MalformedKindView::UnknownKey(key@),
            MalformedKind::MissingSection(tag) => MalformedKindView::MissingSection(*tag),
            MalformedKind::InvalidValue => MalformedKindView::InvalidValue,
            MalformedKind::MissingIdentifier => MalformedKindView::MissingIdentifier,
            MalformedKind::UnexpectedEnd => MalformedKindView::UnexpectedEnd,
        }
    }
}

impl View for CocoError {
    type V = CocoErrorView;

    open spec fn view(&self) -> CocoErrorView {
        match self {
            CocoError::Malformed { offset, kind } => CocoErrorView::Malformed {
                offset: *offset as int,
                kind: kind@,
            },
            CocoError::NotFound { id } => CocoErrorView::NotFound { id: *id },
        }
    }
}

/// The failure of a malformed document, as contracts write it.
pub open spec fn malformed(offset: int, kind: MalformedKindView) -> CocoErrorView {
    CocoErrorView::Malformed { offset, kind }
}

} // verus!
