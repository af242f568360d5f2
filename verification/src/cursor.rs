//! A read position in a document held as bytes.

use vstd::prelude::*;
use vstd::slice::slice_subrange;

verus! {

/// The byte `{`.
pub const OPEN_BRACE: u8 = 0x7b;

/// The byte `}`.
pub const CLOSE_BRACE: u8 = 0x7d;

/// The byte `[`.
pub const OPEN_BRACKET: u8 = 0x5b;

/// The byte `]`.
pub const CLOSE_BRACKET: u8 = 0x5d;

/// The byte `"`.
pub const QUOTE: u8 = 0x22;

/// The byte `,`.
pub const COMMA: u8 = 0x2c;

/// The byte `:`.
pub const COLON: u8 = 0x3a;

/// ASCII whitespace: space, tab, line feed, form feed and carriage return.
pub open spec fn is_ws(b: u8) -> bool {
    b == 0x20 || b == 0x09 || b == 0x0a || b == 0x0c || b == 0x0d
}

/// How many bytes of `doc` lie at or after `pos`.
pub open spec fn remaining(doc: Seq<u8>, pos: int) -> nat {
    if pos < doc.len() {
        (doc.len() - pos) as nat
    } else {
        0
    }
}

/// The offset of the first byte at or after `pos` that is not whitespace,
/// or the length of `doc` where only whitespace is left.
pub open spec fn skip_ws(doc: Seq<u8>, pos: int) -> int
    decreases remaining(doc, pos),
{
    if 0 <= pos < doc.len() && is_ws(doc[pos]) {
        skip_ws(doc, pos + 1)
    } else if pos < doc.len() {
        pos
    } else {
        doc.len() as int
    }
}

/// The offset of the first byte at or after `pos` that equals `b`, or the
/// length of `doc` where there is none.
pub open spec fn find_byte(doc: Seq<u8>, pos: int, b: u8) -> int
    decreases remaining(doc, pos),
{
    if 0 <= pos < doc.len() && doc[pos] != b {
        find_byte(doc, pos + 1, b)
    } else if pos < doc.len() {
        pos
    } else {
        doc.len() as int
    }
}

/// The offset just past the first byte at or after `pos` that equals `b`,
/// or the length of `doc` where there is none.
pub open spec fn past_byte(doc: Seq<u8>, pos: int, b: u8) -> int {
    let at = find_byte(doc, pos, b);
    if at < doc.len() {
        at + 1
    } else {
        doc.len() as int
    }
}

/// `skip_ws` stops at the first byte that is not whitespace.
pub proof fn lemma_skip_ws(doc: Seq<u8>, pos: int)
    requires
        0 <= pos <= doc.len(),
    ensures
        pos <= skip_ws(doc, pos) <= doc.len(),
        forall|i: int| pos <= i < skip_ws(doc, pos) ==> is_ws(#[trigger] doc[i]),
        skip_ws(doc, pos) < doc.len() ==> !is_ws(doc[skip_ws(doc, pos)]),
    decreases doc.len() - pos,
{
    if pos < doc.len() && is_ws(doc[pos]) {
        lemma_skip_ws(doc, pos + 1);
    }
}

/// `find_byte` stops at the first byte that equals `b`.
pub proof fn lemma_find_byte(doc: Seq<u8>, pos: int, b: u8)
    requires
        0 <= pos <= doc.len(),
    ensures
        pos <= find_byte(doc, pos, b) <= doc.len(),
        forall|i: int| pos <= i < find_byte(doc, pos, b) ==> #[trigger] doc[i] != b,
        find_byte(doc, pos, b) < doc.len() ==> doc[find_byte(doc, pos, b)] == b,
    decreases doc.len() - pos,
{
    if pos < doc.len() && doc[pos] != b {
        lemma_find_byte(doc, pos + 1, b);
    }
}

/// Whether `b` is ASCII whitespace.
pub fn is_whitespace(b: u8) -> (r: bool)
    ensures
        r == is_ws(b),
{
    b == 0x20 || b == 0x09 || b == 0x0a || b == 0x0c || b == 0x0d
}

/// A document and a read position in it, which never lies past its end.
pub struct Cursor<'a> {
    doc: &'a [u8],
    pos: usize,
}

impl<'a> Cursor<'a> {
    #[verifier::type_invariant]
    spec fn in_bounds(&self) -> bool {
        self.pos <= self.doc@.len()
    }

    /// The whole document.
    pub closed spec fn doc(&self) -> Seq<u8> {
        self.doc@
    }

    /// The offset of the next byte to read.
    pub closed spec fn offset(&self) -> int {
        self.pos as int
    }

    /// A cursor at the start of `doc`.
    pub fn new(doc: &'a [u8]) -> (c: Self)
        ensures
            c.doc() == doc@,
            c.offset() == 0,
    {
        Cursor { doc, pos: 0 }
    }

    /// A cursor at offset `pos` of `doc`, or at its end where `pos` lies
    /// past it.
    pub fn at(doc: &'a [u8], pos: usize) -> (c: Self)
        ensures
            c.doc() == doc@,
            c.offset() == if pos <= doc@.len() { pos as int } else { doc@.len() as int },
    {
        if pos <= doc.len() {
            Cursor { doc, pos }
        } else {
            Cursor { doc, pos: doc.len() }
        }
    }

    /// The document that is read.
    pub fn document(&self) -> (d: &'a [u8])
        ensures
            d@ == self.doc(),
    {
        self.doc
    }

    /// The offset of the next byte to read.
    pub fn position(&self) -> (p: usize)
        ensures
            p == self.offset(),
            p <= self.doc().len(),
    {
        proof {
            use_type_invariant(self);
        }
        self.pos
    }

    /// Reads the next byte that is not whitespace. `None` where only
    /// whitespace is left, and the cursor is then at the end.
    pub fn read_skipping_ws(&mut self) -> (r: Option<u8>)
        ensures
            final(self).doc() == old(self).doc(),
            ({
                let doc = old(self).doc();
                let at = skip_ws(doc, old(self).offset());
                if at < doc.len() {
                    r == Some(doc[at]) && final(self).offset() == at + 1
                } else {
                    r is None && final(self).offset() == doc.len()
                }
            }),
    {
        proof {
            use_type_invariant(&*self);
        }
        let mut i = self.pos;
        while i < self.doc.len() && is_whitespace(self.doc[i])
            invariant
                self.pos <= i <= self.doc@.len(),
                skip_ws(self.doc@, self.pos as int) == skip_ws(self.doc@, i as int),
            decreases self.doc@.len() - i,
        {
            i = i + 1;
        }
        if i < self.doc.len() {
            let b = self.doc[i];
            self.pos = i + 1;
            Some(b)
        } else {
            self.pos = i;
            None
        }
    }

    /// The next byte that is not whitespace, which is left unread. `None`
    /// where only whitespace is left.
    pub fn peek_skipping_ws(&self) -> (r: Option<u8>)
        ensures
            ({
                let at = skip_ws(self.doc(), self.offset());
                if at < self.doc().len() {
                    r == Some(self.doc()[at])
                } else {
                    r is None
                }
            }),
    {
        proof {
            use_type_invariant(self);
        }
        let mut i = self.pos;
        while i < self.doc.len() && is_whitespace(self.doc[i])
            invariant
                self.pos <= i <= self.doc@.len(),
                skip_ws(self.doc@, self.pos as int) == skip_ws(self.doc@, i as int),
            decreases self.doc@.len() - i,
        {
            i = i + 1;
        }
        if i < self.doc.len() {
            Some(self.doc[i])
        } else {
            None
        }
    }

    /// Moves `n` bytes on, or to the end of the document where fewer are
    /// left.
    pub fn advance(&mut self, n: usize)
        ensures
            final(self).doc() == old(self).doc(),
            final(self).offset() == if old(self).offset() + n <= old(self).doc().len() {
                old(self).offset() + n
            } else {
                old(self).doc().len() as int
            },
    {
        proof {
            use_type_invariant(&*self);
        }
        if n <= self.doc.len() - self.pos {
            self.pos = self.pos + n;
        } else {
            self.pos = self.doc.len();
        }
    }

    /// Reads the bytes that stand before the first byte that equals `b`,
    /// and moves past that byte; where there is none, reads all that is
    /// left.
    pub fn take_until(&mut self, b: u8) -> (bytes: &'a [u8])
        ensures
            final(self).doc() == old(self).doc(),
            bytes@ == old(self).doc().subrange(
                old(self).offset(),
                find_byte(old(self).doc(), old(self).offset(), b),
            ),
            final(self).offset() == past_byte(old(self).doc(), old(self).offset(), b),
    {
        proof {
            use_type_invariant(&*self);
        }
        let start = self.pos;
        let mut i = self.pos;
        while i < self.doc.len() && self.doc[i] != b
            invariant
                self.pos <= i <= self.doc@.len(),
                find_byte(self.doc@, self.pos as int, b) == find_byte(self.doc@, i as int, b),
            decreases self.doc@.len() - i,
        {
            i = i + 1;
        }
        if i < self.doc.len() {
            self.pos = i + 1;
        } else {
            self.pos = i;
        }
        slice_subrange(self.doc, start, i)
    }

    /// Moves past the first byte that equals `b`, or to the end of the
    /// document where there is none.
    pub fn skip_past(&mut self, b: u8)
        ensures
            final(self).doc() == old(self).doc(),
            final(self).offset() == past_byte(old(self).doc(), old(self).offset(), b),
    {
        proof {
            use_type_invariant(&*self);
        }
        let mut i = self.pos;
        while i < self.doc.len() && self.doc[i] != b
            invariant
                self.pos <= i <= self.doc@.len(),
                find_byte(self.doc@, self.pos as int, b) == find_byte(self.doc@, i as int, b),
            decreases self.doc@.len() - i,
        {
            i = i + 1;
        }
        if i < self.doc.len() {
            self.pos = i + 1;
        } else {
            self.pos = i;
        }
    }
}

} // verus!
