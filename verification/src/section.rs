//! The five sections of a dataset description and the keys that name them.

use vstd::prelude::*;
use vstd::string::*;
use vstd::utf8::*;

verus! {

/// One of the five sections of a dataset description.
#[derive(Clone, Copy, PartialEq, Eq, Structural, Debug)]
pub enum SectionTag {
    Licenses,
    Info,
    Categories,
    Images,
    Annotations,
}

/// Calls `String::from_utf8` of std on a copy of `bytes`.
///
/// Trusted: it gives a string exactly where `bytes` is well-formed UTF-8,
/// and the string is then the text that `bytes` encodes.
#[verifier::external_body]
pub(crate) fn string_from_utf8(bytes: &[u8]) -> (r: Option<String>)
    ensures
        r is Some <==> valid_utf8(bytes@),
        r matches Some(s) ==> s@ == decode_utf8(bytes@),
{
    String::from_utf8(bytes.to_vec()).ok()
}

/// The code of `c`, with the upper-case ASCII letters mapped to their
/// lower-case forms.
pub open spec fn ascii_lower(c: char) -> int {
    if 'A' <= c && c <= 'Z' {
        c as int + 32
    } else {
        c as int
    }
}

/// Whether `a` and `b` are the same text but for the case of ASCII letters.
pub open spec fn eq_ignore_ascii_case(a: Seq<char>, b: Seq<char>) -> bool {
    &&& a.len() == b.len()
    &&& forall|i: int| 0 <= i < a.len() ==> ascii_lower(#[trigger] a[i]) == ascii_lower(b[i])
}

/// The section that `key` names, whatever the case of its letters.
pub open spec fn tag_of_key(key: Seq<char>) -> Option<SectionTag> {
    if eq_ignore_ascii_case(key, SectionTag::Licenses.spec_name()) {
        Some(SectionTag::Licenses)
    } else if eq_ignore_ascii_case(key, SectionTag::Info.spec_name()) {
        Some(SectionTag::Info)
    } else if eq_ignore_ascii_case(key, SectionTag::Categories.spec_name()) {
        Some(SectionTag::Categories)
    } else if eq_ignore_ascii_case(key, SectionTag::Images.spec_name()) {
        Some(SectionTag::Images)
    } else if eq_ignore_ascii_case(key, SectionTag::Annotations.spec_name()) {
        Some(SectionTag::Annotations)
    } else {
        None
    }
}

spec fn byte_lower(b: u8) -> int {
    if 0x41 <= b <= 0x5a {
        b + 32
    } else {
        b as int
    }
}

fn lower(b: u8) -> (r: u8)
    ensures
        r == byte_lower(b),
{
    if 0x41 <= b && b <= 0x5a {
        b + 32
    } else {
        b
    }
}

impl SectionTag {
    /// The key of this section, in lower case.
    pub open spec fn spec_name(self) -> Seq<char> {
        match self {
            SectionTag::Licenses => "licenses"@,
            SectionTag::Info => "info"@,
            SectionTag::Categories => "categories"@,
            SectionTag::Images => "images"@,
            SectionTag::Annotations => "annotations"@,
        }
    }

    /// The key of this section, in lower case.
    pub fn name(self) -> (s: &'static str)
        ensures
            s@ == self.spec_name(),
    {
        match self {
            SectionTag::Licenses => "licenses",
            SectionTag::Info => "info",
            SectionTag::Categories => "categories",
            SectionTag::Images => "images",
            SectionTag::Annotations => "annotations",
        }
    }

    /// Every section name is ASCII text.
    pub proof fn lemma_name_is_ascii(self)
        ensures
            is_ascii_chars(self.spec_name()),
    {
        reveal_strlit("licenses");
        reveal_strlit("info");
        reveal_strlit("categories");
        reveal_strlit("images");
        reveal_strlit("annotations");
    }

    /// Whether `key` is this section's name, whatever the case of its
    /// letters.
    pub fn is_named(self, key: &str) -> (r: bool)
        ensures
            r == eq_ignore_ascii_case(key@, self.spec_name()),
    {
        let name = self.name();
        proof {
            self.lemma_name_is_ascii();
            is_ascii_chars_encode_utf8(name@);
        }
        if !key.is_ascii() {
            proof {
                if key@.len() == name@.len() {
                    let i = choose|i: int|
                        0 <= i < key@.len() && !('\0' <= #[trigger] key@[i] && key@[i] <= '\u{7f}');
                    assert(ascii_lower(key@[i]) != ascii_lower(name@[i]));
                }
            }
            return false;
        }
        proof {
            is_ascii_chars_encode_utf8(key@);
        }
        let kb = key.as_bytes();
        let nb = name.as_bytes();
        if kb.len() != nb.len() {
            return false;
        }
        let mut i: usize = 0;
        while i < kb.len()
            invariant
                i <= kb@.len(),
                kb@.len() == nb@.len(),
                kb@.len() == key@.len(),
                nb@.len() == name@.len(),
                name@ == self.spec_name(),
                is_ascii_chars(key@),
                is_ascii_chars(name@),
                forall|j: int| 0 <= j < key@.len() ==> key@[j] as u8 == #[trigger] kb@[j],
                forall|j: int| 0 <= j < name@.len() ==> name@[j] as u8 == #[trigger] nb@[j],
                forall|j: int|
                    0 <= j < i ==> ascii_lower(#[trigger] key@[j]) == ascii_lower(name@[j]),
            decreases kb@.len() - i,
        {
            if lower(kb[i]) != lower(nb[i]) {
                assert(ascii_lower(key@[i as int]) != ascii_lower(name@[i as int]));
                return false;
            }
            i = i + 1;
        }
        true
    }

    /// The section that `key` names, whatever the case of its letters;
    /// `None` where it names none.
    pub fn from_key(key: &str) -> (r: Option<SectionTag>)
        ensures
            r == tag_of_key(key@),
    {
        if SectionTag::Licenses.is_named(key) {
            Some(SectionTag::Licenses)
        } else if SectionTag::Info.is_named(key) {
            Some(SectionTag::Info)
        } else if SectionTag::Categories.is_named(key) {
            Some(SectionTag::Categories)
        } else if SectionTag::Images.is_named(key) {
            Some(SectionTag::Images)
        } else if SectionTag::Annotations.is_named(key) {
            Some(SectionTag::Annotations)
        } else {
            None
        }
    }
}

} // verus!
