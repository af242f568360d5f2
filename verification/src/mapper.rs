//! The scan of a dataset description into its five sections, and the
//! mapper that answers queries from them.

use crate::cursor::{
    find_byte, lemma_find_byte, lemma_skip_ws, past_byte, remaining, skip_ws, Cursor, CLOSE_BRACE,
    COLON, COMMA, OPEN_BRACE, QUOTE,
};
use crate::error::{malformed, CocoError, CocoErrorView, MalformedKind, MalformedKindView};
use crate::json::{json_integer_member, value_at, JsonDict};
use crate::page_maps::{
    annotation_key, image_key, lemma_texts_carry_key, texts_of, AnnIndex, AnnPageMap, ImgIndex,
    ImgPageMap,
};
use crate::records::{lemma_records_end, records, Outcome};
use crate::section::{string_from_utf8, tag_of_key, SectionTag};
use vstd::prelude::*;
use vstd::slice::slice_to_vec;
use vstd::utf8::{decode_utf8, valid_utf8};

verus! {

/// One section of a dataset description, as it was read.
#[allow(non_camel_case_types)]
#[derive(Debug)]
pub enum CocoJsonSection {
    LICENSES(JsonDict),
    INFO(JsonDict),
    CATEGORIES(JsonDict),
    IMAGES(ImgPageMap),
    ANNOTATIONS(AnnPageMap),
}

/// The mathematical form of a [`CocoJsonSection`].
pub enum SectionView {
    Licenses(Seq<u8>),
    Info(Seq<u8>),
    Categories(Seq<u8>),
    Images(ImgIndex),
    Annotations(AnnIndex),
}

impl SectionView {
    /// Which section this is.
    pub open spec fn tag(self) -> SectionTag {
        match self {
            SectionView::Licenses(_) => SectionTag::Licenses,
            SectionView::Info(_) => SectionTag::Info,
            SectionView::Categories(_) => SectionTag::Categories,
            SectionView::Images(_) => SectionTag::Images,
            SectionView::Annotations(_) => SectionTag::Annotations,
        }
    }

    /// The text of a section that is kept as a value.
    pub open spec fn text(self) -> Seq<u8> {
        match self {
            SectionView::Licenses(text) => text,
            SectionView::Info(text) => text,
            SectionView::Categories(text) => text,
            _ => Seq::empty(),
        }
    }

    /// The index of the images section.
    pub open spec fn images(self) -> ImgIndex {
        match self {
            SectionView::Images(index) => index,
            _ => ImgIndex::empty(),
        }
    }

    /// The index of the annotations section.
    pub open spec fn annotations(self) -> AnnIndex {
        match self {
            SectionView::Annotations(index) => index,
            _ => AnnIndex::empty(),
        }
    }
}

impl View for CocoJsonSection {
    type V = SectionView;

    open spec fn view(&self) -> SectionView {
        match self {
            CocoJsonSection::LICENSES(dict) => SectionView::Licenses(dict@),
            CocoJsonSection::INFO(dict) => SectionView::Info(dict@),
            CocoJsonSection::CATEGORIES(dict) => SectionView::Categories(dict@),
            CocoJsonSection::IMAGES(index) => SectionView::Images(index@),
            CocoJsonSection::ANNOTATIONS(index) => SectionView::Annotations(index@),
        }
    }
}

impl CocoJsonSection {
    /// Which section this is.
    pub fn tag(&self) -> (tag: SectionTag)
        ensures
            tag == self@.tag(),
    {
        match self {
            CocoJsonSection::LICENSES(_) => SectionTag::Licenses,
            CocoJsonSection::INFO(_) => SectionTag::Info,
            CocoJsonSection::CATEGORIES(_) => SectionTag::Categories,
            CocoJsonSection::IMAGES(_) => SectionTag::Images,
            CocoJsonSection::ANNOTATIONS(_) => SectionTag::Annotations,
        }
    }
}

/// The mathematical forms of `sections`.
pub open spec fn sections_of(sections: Seq<CocoJsonSection>) -> Seq<SectionView> {
    sections.map_values(|s: CocoJsonSection| s@)
}

/// The value of section `tag` that starts at offset `start`, and the
/// offset just past it: a JSON value that is kept whole, or an array of
/// records that is indexed.
pub open spec fn section_value(doc: Seq<u8>, start: int, tag: SectionTag) -> Outcome<SectionView> {
    match tag {
        SectionTag::Images => match records(doc, start, image_key()) {
            Ok((entries, end)) => Ok((SectionView::Images(ImgIndex::of(entries)), end)),
            Err(e) => Err(e),
        },
        SectionTag::Annotations => match records(doc, start, annotation_key()) {
            Ok((entries, end)) => Ok((SectionView::Annotations(AnnIndex::of(entries)), end)),
            Err(e) => Err(e),
        },
        _ => match value_at(doc, start) {
            Some(text) => Ok(
                (
                    match tag {
                        SectionTag::Licenses => SectionView::Licenses(text),
                        SectionTag::Info => SectionView::Info(text),
                        _ => SectionView::Categories(text),
                    },
                    start + text.len(),
                ),
            ),
            None => Err(malformed(start, MalformedKindView::InvalidValue)),
        },
    }
}

/// The section that `key` introduces, where `pos` is the offset just past
/// the key: the key must name a section; the value starts after the next
/// `:`.
pub open spec fn section_at(doc: Seq<u8>, pos: int, key: Seq<char>) -> Outcome<SectionView> {
    match tag_of_key(key) {
        None => Err(malformed(pos, MalformedKindView::UnknownKey(key))),
        Some(tag) => section_value(doc, past_byte(doc, pos, COLON), tag),
    }
}

/// `first` in front of the sections of `rest`.
pub open spec fn prepend_section(first: SectionView, rest: Outcome<Seq<SectionView>>) -> Outcome<
    Seq<SectionView>,
> {
    match rest {
        Ok((sections, end)) => Ok((seq![first] + sections, end)),
        Err(e) => Err(e),
    }
}

/// What the scanner does in one step.
pub enum Step {
    /// The scan stops, at offset `end`.
    Stop { end: int },
    /// The scan goes on at offset `pos` at depth `depth`, after reading
    /// `section` if it read one.
    Go { pos: int, depth: int, section: Option<SectionView> },
    /// The document is malformed.
    Fail(CocoErrorView),
}

/// One step of the scanner from offset `pos`, where `depth` is the number
/// of `{` read so far less the number of `}`. The step is decided by the
/// next byte that is not whitespace:
///
/// - `{` adds one to the depth and `}` takes one from it; the scan stops
///   at the `}` that is read at depth 1, which closes the outermost
///   object. A `}` that closes nothing is counted like any other, so the
///   depth may fall below 0, and the scan does not stop there;
/// - `,` is passed over;
/// - `"` starts a key, which ends before the next `"`; the key must be
///   UTF-8 text and introduces a section, which is read;
/// - any other byte fails;
/// - where no byte is left, the scan stops.
pub open spec fn step(doc: Seq<u8>, pos: int, depth: int) -> Step {
    let at = skip_ws(doc, pos);
    if at >= doc.len() {
        Step::Stop { end: doc.len() as int }
    } else if doc[at] == OPEN_BRACE {
        Step::Go { pos: at + 1, depth: depth + 1, section: None }
    } else if doc[at] == CLOSE_BRACE {
        if depth == 1 {
            Step::Stop { end: at + 1 }
        } else {
            Step::Go { pos: at + 1, depth: depth - 1, section: None }
        }
    } else if doc[at] == COMMA {
        Step::Go { pos: at + 1, depth, section: None }
    } else if doc[at] == QUOTE {
        let key = doc.subrange(at + 1, find_byte(doc, at + 1, QUOTE));
        let after = past_byte(doc, at + 1, QUOTE);
        if !valid_utf8(key) {
            Step::Fail(malformed(after, MalformedKindView::UndecodableKey(key)))
        } else {
            match section_at(doc, after, decode_utf8(key)) {
                Err(e) => Step::Fail(e),
                Ok((section, next)) => Step::Go { pos: next, depth, section: Some(section) },
            }
        }
    } else {
        Step::Fail(malformed(at + 1, MalformedKindView::UnexpectedByte(doc[at])))
    }
}

/// The sections that are read from offset `pos` on, in their order, and
/// the offset at which the scan stops: the steps of the scanner, one after
/// the other, until one stops or fails.
pub open spec fn scan(doc: Seq<u8>, pos: int, depth: int) -> Outcome<Seq<SectionView>>
    decreases remaining(doc, pos),
    when 0 <= pos
    via scan_advances
{
    match step(doc, pos, depth) {
        Step::Stop { end } => Ok((Seq::empty(), end)),
        Step::Fail(e) => Err(e),
        Step::Go { pos: next, depth: open, section } => match section {
            Some(section) => prepend_section(section, scan(doc, next, open)),
            None => scan(doc, next, open),
        },
    }
}

#[via_fn]
proof fn scan_advances(doc: Seq<u8>, pos: int, depth: int) {
    lemma_step_advances(doc, pos, depth);
}

/// A step that goes on does so further on in the document.
pub proof fn lemma_step_advances(doc: Seq<u8>, pos: int, depth: int)
    requires
        0 <= pos,
    ensures
        step(doc, pos, depth) matches Step::Go { pos: next, .. } ==> pos < next <= doc.len(),
{
    if pos <= doc.len() {
        lemma_skip_ws(doc, pos);
    }
    let at = skip_ws(doc, pos);
    if at < doc.len() && doc[at] == QUOTE {
        let key = doc.subrange(at + 1, find_byte(doc, at + 1, QUOTE));
        lemma_find_byte(doc, at + 1, QUOTE);
        if valid_utf8(key) {
            lemma_section_at_end(doc, past_byte(doc, at + 1, QUOTE), decode_utf8(key));
        }
    }
}

/// A section that is read ends at or after the offset just past its key,
/// and within the document.
pub proof fn lemma_section_at_end(doc: Seq<u8>, pos: int, key: Seq<char>)
    requires
        0 <= pos <= doc.len(),
    ensures
        section_at(doc, pos, key) matches Ok((_, end)) ==> pos <= end <= doc.len(),
{
    lemma_find_byte(doc, pos, COLON);
    let start = past_byte(doc, pos, COLON);
    lemma_records_end(doc, start, image_key());
    lemma_records_end(doc, start, annotation_key());
}

/// The last section of `sections` that is section `tag`.
pub open spec fn last_section(sections: Seq<SectionView>, tag: SectionTag) -> Option<SectionView>
    decreases sections.len(),
{
    if sections.len() == 0 {
        None
    } else if sections.last().tag() == tag {
        Some(sections.last())
    } else {
        last_section(sections.drop_last(), tag)
    }
}

/// The first of the five sections, in the order licenses, info,
/// categories, images, annotations, that `sections` does not hold.
pub open spec fn first_missing(sections: Seq<SectionView>) -> Option<SectionTag> {
    if last_section(sections, SectionTag::Licenses) is None {
        Some(SectionTag::Licenses)
    } else if last_section(sections, SectionTag::Info) is None {
        Some(SectionTag::Info)
    } else if last_section(sections, SectionTag::Categories) is None {
        Some(SectionTag::Categories)
    } else if last_section(sections, SectionTag::Images) is None {
        Some(SectionTag::Images)
    } else if last_section(sections, SectionTag::Annotations) is None {
        Some(SectionTag::Annotations)
    } else {
        None
    }
}

/// The mathematical form of a [`CocoPageMapper`]: the texts of the three
/// sections that are kept as values, and the two indexes.
#[verifier::ext_equal]
pub struct MapperView {
    pub licenses: Seq<u8>,
    pub info: Seq<u8>,
    pub categories: Seq<u8>,
    pub images: ImgIndex,
    pub annotations: AnnIndex,
}

impl MapperView {
    /// What a query for image `id` gives on `doc`: the text of its record.
    pub open spec fn item(self, doc: Seq<u8>, id: i64) -> Result<Seq<u8>, CocoErrorView> {
        self.images.item(doc, id)
    }

    /// What a query for the annotations of image `id` gives on `doc`: the
    /// texts of its records in their order, which may be none. An
    /// identifier that no image has is not found.
    pub open spec fn annotations_of(self, doc: Seq<u8>, id: i64) -> Result<
        Seq<Seq<u8>>,
        CocoErrorView,
    > {
        if self.images.pages.contains_key(id) {
            self.annotations.items(doc, id)
        } else {
            Err(CocoErrorView::NotFound { id })
        }
    }
}

/// The mapper of `sections`, where the scan stopped at offset `end`: of
/// each section the last that was read. Fails where one of the five is
/// missing, naming the first that is.
pub open spec fn assemble(sections: Seq<SectionView>, end: int) -> Result<MapperView, CocoErrorView> {
    match first_missing(sections) {
        Some(tag) => Err(malformed(end, MalformedKindView::MissingSection(tag))),
        None => Ok(
            MapperView {
                licenses: last_section(sections, SectionTag::Licenses).unwrap().text(),
                info: last_section(sections, SectionTag::Info).unwrap().text(),
                categories: last_section(sections, SectionTag::Categories).unwrap().text(),
                images: last_section(sections, SectionTag::Images).unwrap().images(),
                annotations: last_section(sections, SectionTag::Annotations).unwrap().annotations(),
            },
        ),
    }
}

/// The mapper of document `doc`, or why it has none.
pub open spec fn mapper_of(doc: Seq<u8>) -> Result<MapperView, CocoErrorView> {
    match scan(doc, 0, 0) {
        Ok((sections, end)) => assemble(sections, end),
        Err(e) => Err(e),
    }
}

/// `seen` in front of the sections of `rest`.
pub open spec fn prepend_sections(seen: Seq<SectionView>, rest: Outcome<Seq<SectionView>>) -> Outcome<
    Seq<SectionView>,
> {
    match rest {
        Ok((sections, end)) => Ok((seen + sections, end)),
        Err(e) => Err(e),
    }
}

proof fn lemma_prepend_sections_push(
    seen: Seq<SectionView>,
    section: SectionView,
    rest: Outcome<Seq<SectionView>>,
)
    ensures
        prepend_sections(seen, prepend_section(section, rest)) == prepend_sections(
            seen.push(section),
            rest,
        ),
{
    if let Ok((sections, end)) = rest {
        assert(seen + (seq![section] + sections) =~= seen.push(section) + sections);
    }
}

/// The mapper of one dataset description.
#[derive(Debug)]
pub struct CocoPageMapper {
    licenses: JsonDict,
    info: JsonDict,
    categories: JsonDict,
    images: ImgPageMap,
    annotations: AnnPageMap,
}

impl View for CocoPageMapper {
    type V = MapperView;

    closed spec fn view(&self) -> MapperView {
        MapperView {
            licenses: self.licenses@,
            info: self.info@,
            categories: self.categories@,
            images: self.images@,
            annotations: self.annotations@,
        }
    }
}

impl CocoPageMapper {
    /// The licenses section.
    pub fn licenses(&self) -> (dict: &JsonDict)
        ensures
            dict@ == self@.licenses,
    {
        &self.licenses
    }

    /// The info section.
    pub fn info(&self) -> (dict: &JsonDict)
        ensures
            dict@ == self@.info,
    {
        &self.info
    }

    /// The categories section.
    pub fn categories(&self) -> (dict: &JsonDict)
        ensures
            dict@ == self@.categories,
    {
        &self.categories
    }

    /// The identifiers of the images, in the order in which each was first
    /// seen.
    pub fn get_img_ids(&self) -> (ids: &Vec<i64>)
        ensures
            ids@ == self@.images.ids,
    {
        self.images.ids()
    }

    /// Decodes the record of image `img_id` again from `doc`, the document
    /// that the mapper was made from. The record that comes back has
    /// `img_id` as its `id`.
    pub fn get_item_dict(&self, img_id: i64, doc: &[u8]) -> (r: Result<JsonDict, CocoError>)
        ensures
            match self@.item(doc@, img_id) {
                Ok(text) => r matches Ok(d) && d@ == text,
                Err(e) => r matches Err(x) && x@ == e,
            },
            r matches Ok(d) ==> json_integer_member(d@, image_key()) == Some(img_id),
            (r matches Err(x) && x@ is NotFound) <==> !self@.images.pages.contains_key(img_id),
    {
        self.images.get_dict(doc, img_id)
    }

    /// Decodes the annotation records of image `img_id` again from `doc`,
    /// the document that the mapper was made from, in their order. Each
    /// has `img_id` as its `image_id`. An image without annotations has
    /// none; an identifier that no image has is not found.
    pub fn get_anns_dict(&self, img_id: i64, doc: &[u8]) -> (r: Result<Vec<JsonDict>, CocoError>)
        ensures
            match self@.annotations_of(doc@, img_id) {
                Ok(texts) => r matches Ok(dicts) && texts_of(dicts@) == texts,
                Err(e) => r matches Err(x) && x@ == e,
            },
            r matches Ok(dicts) ==> forall|j: int|
                0 <= j < dicts@.len() ==> json_integer_member(
                    (#[trigger] dicts@[j])@,
                    annotation_key(),
                ) == Some(img_id),
            (r matches Err(x) && x@ is NotFound) <==> !self@.images.pages.contains_key(img_id),
    {
        proof {
            lemma_texts_carry_key(
                doc@,
                self@.annotations.group(img_id),
                annotation_key(),
                img_id,
            );
        }
        if self.images.contains(img_id) {
            let found = self.annotations.get_anns(doc, img_id);
            proof {
                if let Ok(dicts) = &found {
                    assert forall|j: int| 0 <= j < dicts@.len() implies json_integer_member(
                        (#[trigger] dicts@[j])@,
                        annotation_key(),
                    ) == Some(img_id) by {
                        assert(texts_of(dicts@)[j] == dicts@[j]@);
                    }
                }
            }
            found
        } else {
            Err(CocoError::NotFound { id: img_id })
        }
    }

    /// Makes the mapper of document `doc`: scans it once, and keeps of each
    /// section the last that was read. Fails where the document is
    /// malformed or lacks one of the five sections.
    pub fn new(doc: &[u8]) -> (r: Result<CocoPageMapper, CocoError>)
        ensures
            match mapper_of(doc@) {
                Ok(view) => r matches Ok(mapper) && mapper@ == view,
                Err(e) => r matches Err(x) && x@ == e,
            },
    {
        let mut cursor = Cursor::new(doc);
        let mut sections = match Self::parse_json(&mut cursor) {
            Ok(sections) => sections,
            Err(e) => {
                return Err(e);
            },
        };
        let end = cursor.position();
        let ghost all = sections_of(sections@);

        let mut licenses: Option<JsonDict> = None;
        let mut info: Option<JsonDict> = None;
        let mut categories: Option<JsonDict> = None;
        let mut images: Option<ImgPageMap> = None;
        let mut annotations: Option<AnnPageMap> = None;

        while sections.len() > 0
            invariant
                last_section(all, SectionTag::Licenses) == match licenses {
                    Some(dict) => Some(SectionView::Licenses(dict@)),
                    None => last_section(sections_of(sections@), SectionTag::Licenses),
                },
                last_section(all, SectionTag::Info) == match info {
                    Some(dict) => Some(SectionView::Info(dict@)),
                    None => last_section(sections_of(sections@), SectionTag::Info),
                },
                last_section(all, SectionTag::Categories) == match categories {
                    Some(dict) => Some(SectionView::Categories(dict@)),
                    None => last_section(sections_of(sections@), SectionTag::Categories),
                },
                last_section(all, SectionTag::Images) == match images {
                    Some(index) => Some(SectionView::Images(index@)),
                    None => last_section(sections_of(sections@), SectionTag::Images),
                },
                last_section(all, SectionTag::Annotations) == match annotations {
                    Some(index) => Some(SectionView::Annotations(index@)),
                    None => last_section(sections_of(sections@), SectionTag::Annotations),
                },
            decreases sections@.len(),
        {
            proof {
                assert(sections_of(sections@).drop_last() =~= sections_of(sections@.drop_last()));
            }
            match sections.pop() {
                Some(CocoJsonSection::LICENSES(v)) => {
                    if licenses.is_none() {
                        licenses = Some(v);
                    }
                },
                Some(CocoJsonSection::INFO(v)) => {
                    if info.is_none() {
                        info = Some(v);
                    }
                },
                Some(CocoJsonSection::CATEGORIES(v)) => {
                    if categories.is_none() {
                        categories = Some(v);
                    }
                },
                Some(CocoJsonSection::IMAGES(v)) => {
                    if images.is_none() {
                        images = Some(v);
                    }
                },
                Some(CocoJsonSection::ANNOTATIONS(v)) => {
                    if annotations.is_none() {
                        annotations = Some(v);
                    }
                },
                None => {},
            }
        }

        let licenses = match licenses {
            Some(v) => v,
            None => {
                return Err(missing(end, SectionTag::Licenses));
            },
        };
        let info = match info {
            Some(v) => v,
            None => {
                return Err(missing(end, SectionTag::Info));
            },
        };
        let categories = match categories {
            Some(v) => v,
            None => {
                return Err(missing(end, SectionTag::Categories));
            },
        };
        let images = match images {
            Some(v) => v,
            None => {
                return Err(missing(end, SectionTag::Images));
            },
        };
        let annotations = match annotations {
            Some(v) => v,
            None => {
                return Err(missing(end, SectionTag::Annotations));
            },
        };

        Ok(CocoPageMapper { licenses, info, categories, images, annotations })
    }

    /// Scans the document from the cursor on for its sections, and stops
    /// just past the `}` that closes the outermost object, or at the end of
    /// the document.
    pub fn parse_json(cursor: &mut Cursor) -> (r: Result<Vec<CocoJsonSection>, CocoError>)
        ensures
            final(cursor).doc() == old(cursor).doc(),
            match scan(old(cursor).doc(), old(cursor).offset(), 0) {
                Ok((sections, end)) => r matches Ok(v) && sections_of(v@) == sections
                    && final(cursor).offset() == end,
                Err(e) => r matches Err(x) && x@ == e,
            },
    {
        let ghost doc = cursor.doc();
        let start = cursor.position();
        let len = cursor.document().len();
        // Moves by one for a byte that is read, so it stays within the
        // number of bytes of the document and cannot overflow.
        let mut brace_level: i128 = 0;
        let mut coco_json_sections: Vec<CocoJsonSection> = Vec::new();
        proof {
            assert(sections_of(coco_json_sections@) =~= Seq::empty());
            assert(Seq::<SectionView>::empty() + Seq::<SectionView>::empty() =~= Seq::empty());
        }

        loop
            invariant_except_break
                start - cursor.offset() <= brace_level <= cursor.offset() - start,
                scan(doc, old(cursor).offset(), 0) == prepend_sections(
                    sections_of(coco_json_sections@),
                    scan(doc, cursor.offset(), brace_level as int),
                ),
            invariant
                cursor.doc() == doc,
                doc == old(cursor).doc(),
                start == old(cursor).offset(),
                cursor.offset() <= doc.len() == len,
            ensures
                scan(doc, old(cursor).offset(), 0) == Ok::<(Seq<SectionView>, int), CocoErrorView>(
                    (sections_of(coco_json_sections@), cursor.offset()),
                ),
                cursor.doc() == doc,
            decreases remaining(doc, cursor.offset()),
        {
            let ghost seen = sections_of(coco_json_sections@);
            let ghost before = cursor.offset();
            proof {
                lemma_skip_ws(doc, before);
                assert(seen + Seq::<SectionView>::empty() =~= seen);
            }
            let c = match cursor.read_skipping_ws() {
                Some(c) => c,
                None => {
                    break ;
                },
            };
            if c == OPEN_BRACE {
                brace_level = brace_level + 1;
            } else if c == QUOTE {
                let buf_key = cursor.take_until(QUOTE);
                proof {
                    lemma_find_byte(doc, skip_ws(doc, before) + 1, QUOTE);
                }
                match string_from_utf8(buf_key) {
                    Some(key) => {
                        let section = match Self::parse_section_from_key(key, cursor) {
                            Ok(section) => section,
                            Err(e) => {
                                return Err(e);
                            },
                        };
                        proof {
                            lemma_section_at_end(
                                doc,
                                past_byte(doc, skip_ws(doc, before) + 1, QUOTE),
                                decode_utf8(buf_key@),
                            );
                            lemma_prepend_sections_push(
                                seen,
                                section@,
                                scan(doc, cursor.offset(), brace_level as int),
                            );
                            assert(sections_of(coco_json_sections@.push(section)) =~= seen.push(
                                section@,
                            ));
                        }
                        coco_json_sections.push(section);
                    },
                    None => {
                        return Err(
                            CocoError::Malformed {
                                offset: cursor.position(),
                                kind: MalformedKind::UndecodableKey(slice_to_vec(buf_key)),
                            },
                        );
                    },
                }
            } else if c == COMMA {
            } else if c == CLOSE_BRACE {
                brace_level = brace_level - 1;
                if brace_level == 0 {
                    break ;
                }
            } else {
                return Err(
                    CocoError::Malformed {
                        offset: cursor.position(),
                        kind: MalformedKind::UnexpectedByte(c),
                    },
                );
            }
        }
        Ok(coco_json_sections)
    }

    /// Reads the section that `buf_key` introduces, where the cursor is
    /// just past the key: finds which section the key names, moves past the
    /// next `:` and reads the section's value.
    pub fn parse_section_from_key(buf_key: String, cursor: &mut Cursor) -> (r: Result<
        CocoJsonSection,
        CocoError,
    >)
        ensures
            final(cursor).doc() == old(cursor).doc(),
            match section_at(old(cursor).doc(), old(cursor).offset(), buf_key@) {
                Ok((section, end)) => r matches Ok(s) && s@ == section && final(cursor).offset()
                    == end,
                Err(e) => r matches Err(x) && x@ == e,
            },
    {
        match SectionTag::from_key(buf_key.as_str()) {
            None => Err(
                CocoError::Malformed {
                    offset: cursor.position(),
                    kind: MalformedKind::UnknownKey(buf_key),
                },
            ),
            Some(curr_key) => {
                cursor.skip_past(COLON);
                match curr_key {
                    SectionTag::Licenses => match JsonDict::from_reader(cursor) {
                        Ok(v) => Ok(CocoJsonSection::LICENSES(v)),
                        Err(e) => Err(e),
                    },
                    SectionTag::Info => match JsonDict::from_reader(cursor) {
                        Ok(v) => Ok(CocoJsonSection::INFO(v)),
                        Err(e) => Err(e),
                    },
                    SectionTag::Categories => match JsonDict::from_reader(cursor) {
                        Ok(v) => Ok(CocoJsonSection::CATEGORIES(v)),
                        Err(e) => Err(e),
                    },
                    SectionTag::Images => match ImgPageMap::from_reader(cursor) {
                        Ok(v) => Ok(CocoJsonSection::IMAGES(v)),
                        Err(e) => Err(e),
                    },
                    SectionTag::Annotations => match AnnPageMap::from_reader(cursor) {
                        Ok(v) => Ok(CocoJsonSection::ANNOTATIONS(v)),
                        Err(e) => Err(e),
                    },
                }
            },
        }
    }
}

/// The failure of a document that lacks section `tag`.
fn missing(end: usize, tag: SectionTag) -> (e: CocoError)
    ensures
        e@ == malformed(end as int, MalformedKindView::MissingSection(tag)),
{
    CocoError::Malformed { offset: end, kind: MalformedKind::MissingSection(tag) }
}

} // verus!
