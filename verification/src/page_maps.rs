//! The two indexes: where each image record lies, and where the annotation
//! records of each image lie.

use crate::cursor::Cursor;
use crate::error::{CocoError, CocoErrorView};
use crate::json::{json_integer_member, JsonDict};
use crate::records::{fetch_record, read_records, record_text, records, Entry, Page};
use std::collections::HashMap;
use vstd::prelude::*;

verus! {

broadcast use vstd::std_specs::hash::group_hash_axioms;

/// The member by which an image record is found.
pub open spec fn image_key() -> Seq<char> {
    "id"@
}

/// The member that says to which image an annotation record belongs.
pub open spec fn annotation_key() -> Seq<char> {
    "image_id"@
}

/// The texts of `dicts`.
pub open spec fn texts_of(dicts: Seq<JsonDict>) -> Seq<Seq<u8>> {
    dicts.map_values(|d: JsonDict| d@)
}

/// The texts of the records at `pages`, each found again in `doc`, or the
/// failure of the first that is not found.
pub open spec fn record_texts(doc: Seq<u8>, pages: Seq<Page>, field: Seq<char>, key: i64) -> Result<
    Seq<Seq<u8>>,
    CocoErrorView,
>
    decreases pages.len(),
{
    if pages.len() == 0 {
        Ok(Seq::empty())
    } else {
        match record_texts(doc, pages.drop_last(), field, key) {
            Err(e) => Err(e),
            Ok(texts) => match record_text(doc, pages.last(), field, key) {
                Err(e) => Err(e),
                Ok(text) => Ok(texts.push(text)),
            },
        }
    }
}

/// The records that are found again by `key` are as many as their pages,
/// and each has `key` as its member `field`; where one is not found
/// again, the document is malformed.
pub proof fn lemma_texts_carry_key(doc: Seq<u8>, pages: Seq<Page>, field: Seq<char>, key: i64)
    ensures
        record_texts(doc, pages, field, key) matches Ok(texts) ==> texts.len() == pages.len()
            && forall|j: int|
            0 <= j < texts.len() ==> json_integer_member(#[trigger] texts[j], field) == Some(key),
        record_texts(doc, pages, field, key) matches Err(e) ==> e is Malformed,
    decreases pages.len(),
{
    if pages.len() > 0 {
        lemma_texts_carry_key(doc, pages.drop_last(), field, key);
    }
}

/// The mathematical form of an [`ImgPageMap`]: the identifiers in the
/// order in which each was first seen, and the page of each.
#[verifier::ext_equal]
pub struct ImgIndex {
    pub ids: Seq<i64>,
    pub pages: Map<i64, Page>,
}

impl ImgIndex {
    /// The index of no records.
    pub open spec fn empty() -> ImgIndex {
        ImgIndex { ids: Seq::empty(), pages: Map::empty() }
    }

    /// The index with one more record. An identifier that is seen again
    /// keeps its place, and its page becomes that of the later record.
    pub open spec fn push(self, entry: Entry) -> ImgIndex {
        ImgIndex {
            ids: if self.pages.contains_key(entry.key) {
                self.ids
            } else {
                self.ids.push(entry.key)
            },
            pages: self.pages.insert(entry.key, entry.page),
        }
    }

    /// The index of `entries`, taken in their order.
    pub open spec fn of(entries: Seq<Entry>) -> ImgIndex
        decreases entries.len(),
    {
        if entries.len() == 0 {
            ImgIndex::empty()
        } else {
            ImgIndex::of(entries.drop_last()).push(entries.last())
        }
    }

    /// What a query for image `id` gives on `doc`: the text of its record,
    /// or the failure.
    pub open spec fn item(self, doc: Seq<u8>, id: i64) -> Result<Seq<u8>, CocoErrorView> {
        if self.pages.contains_key(id) {
            record_text(doc, self.pages[id], image_key(), id)
        } else {
            Err(CocoErrorView::NotFound { id })
        }
    }
}

/// The mathematical form of an [`AnnPageMap`]: for each image that has
/// annotations, their pages in the order of the document.
#[verifier::ext_equal]
pub struct AnnIndex {
    pub groups: Map<i64, Seq<Page>>,
}

impl AnnIndex {
    /// The index of no records.
    pub open spec fn empty() -> AnnIndex {
        AnnIndex { groups: Map::empty() }
    }

    /// The pages of the annotations of image `id`; none where it has no
    /// annotation.
    pub open spec fn group(self, id: i64) -> Seq<Page> {
        if self.groups.contains_key(id) {
            self.groups[id]
        } else {
            Seq::empty()
        }
    }

    /// The index with one more record, which comes last in its group.
    pub open spec fn push(self, entry: Entry) -> AnnIndex {
        AnnIndex { groups: self.groups.insert(entry.key, self.group(entry.key).push(entry.page)) }
    }

    /// The index of `entries`, taken in their order.
    pub open spec fn of(entries: Seq<Entry>) -> AnnIndex
        decreases entries.len(),
    {
        if entries.len() == 0 {
            AnnIndex::empty()
        } else {
            AnnIndex::of(entries.drop_last()).push(entries.last())
        }
    }

    /// What a query for the annotations of image `id` gives on `doc`: the
    /// texts of its records in their order, or the failure of the first
    /// that is not found again.
    pub open spec fn items(self, doc: Seq<u8>, id: i64) -> Result<Seq<Seq<u8>>, CocoErrorView> {
        record_texts(doc, self.group(id), annotation_key(), id)
    }
}

/// The index of the image records.
#[derive(Debug)]
pub struct ImgPageMap {
    ids: Vec<i64>,
    pages: HashMap<i64, Page>,
}

impl View for ImgPageMap {
    type V = ImgIndex;

    closed spec fn view(&self) -> ImgIndex {
        ImgIndex { ids: self.ids@, pages: self.pages@ }
    }
}

impl ImgPageMap {
    /// The index of no records.
    pub fn new() -> (m: ImgPageMap)
        ensures
            m@ == ImgIndex::empty(),
    {
        ImgPageMap { ids: Vec::new(), pages: HashMap::new() }
    }

    /// Adds one record.
    pub fn push(&mut self, entry: Entry)
        ensures
            final(self)@ == old(self)@.push(entry),
    {
        if !self.pages.contains_key(&entry.key) {
            self.ids.push(entry.key);
        }
        self.pages.insert(entry.key, entry.page);
    }

    /// The identifiers, in the order in which each was first seen.
    pub fn ids(&self) -> (ids: &Vec<i64>)
        ensures
            ids@ == self@.ids,
    {
        &self.ids
    }

    /// Whether a record has identifier `id`.
    pub fn contains(&self, id: i64) -> (r: bool)
        ensures
            r == self@.pages.contains_key(id),
    {
        self.pages.contains_key(&id)
    }

    /// The index of `entries`, taken in their order.
    pub fn from_entries(entries: &Vec<Entry>) -> (m: ImgPageMap)
        ensures
            m@ == ImgIndex::of(entries@),
    {
        let mut map = ImgPageMap::new();
        let mut i: usize = 0;
        while i < entries.len()
            invariant
                i <= entries@.len(),
                map@ == ImgIndex::of(entries@.take(i as int)),
            decreases entries@.len() - i,
        {
            map.push(entries[i]);
            proof {
                assert(entries@.take(i + 1).drop_last() =~= entries@.take(i as int));
            }
            i = i + 1;
        }
        proof {
            assert(entries@.take(i as int) =~= entries@);
        }
        map
    }

    /// Reads the array of image records at the cursor and moves the cursor
    /// just past it.
    pub fn from_reader(cursor: &mut Cursor) -> (r: Result<ImgPageMap, CocoError>)
        ensures
            final(cursor).doc() == old(cursor).doc(),
            match records(old(cursor).doc(), old(cursor).offset(), image_key()) {
                Ok((entries, end)) => r matches Ok(m) && m@ == ImgIndex::of(entries)
                    && final(cursor).offset() == end,
                Err(e) => r matches Err(x) && x@ == e,
            },
    {
        match read_records(cursor, "id") {
            Ok(entries) => Ok(ImgPageMap::from_entries(&entries)),
            Err(e) => Err(e),
        }
    }

    /// Decodes the record of image `img_id` again from `doc`, the document
    /// that the index was built from.
    pub fn get_dict(&self, doc: &[u8], img_id: i64) -> (r: Result<JsonDict, CocoError>)
        ensures
            match self@.item(doc@, img_id) {
                Ok(text) => r matches Ok(d) && d@ == text,
                Err(e) => r matches Err(x) && x@ == e,
            },
    {
        match self.pages.get(&img_id) {
            Some(page) => fetch_record(doc, *page, "id", img_id),
            None => Err(CocoError::NotFound { id: img_id }),
        }
    }
}

/// The index of the annotation records, grouped by image.
#[derive(Debug)]
pub struct AnnPageMap {
    groups: HashMap<i64, Vec<Page>>,
}

impl View for AnnPageMap {
    type V = AnnIndex;

    closed spec fn view(&self) -> AnnIndex {
        AnnIndex { groups: self.groups@.map_values(|pages: Vec<Page>| pages@) }
    }
}

impl AnnPageMap {
    /// The index of no records.
    pub fn new() -> (m: AnnPageMap)
        ensures
            m@ == AnnIndex::empty(),
    {
        let m = AnnPageMap { groups: HashMap::new() };
        proof {
            assert(m@.groups =~= Map::empty());
        }
        m
    }

    /// Adds one record, which comes last among those of its image.
    pub fn push(&mut self, entry: Entry)
        ensures
            final(self)@ == old(self)@.push(entry),
    {
        let mut group = match self.groups.remove(&entry.key) {
            Some(group) => group,
            None => Vec::new(),
        };
        group.push(entry.page);
        self.groups.insert(entry.key, group);
        proof {
            assert(self@.groups =~= old(self)@.push(entry).groups);
        }
    }

    /// The index of `entries`, taken in their order.
    pub fn from_entries(entries: &Vec<Entry>) -> (m: AnnPageMap)
        ensures
            m@ == AnnIndex::of(entries@),
    {
        let mut map = AnnPageMap::new();
        let mut i: usize = 0;
        while i < entries.len()
            invariant
                i <= entries@.len(),
                map@ == AnnIndex::of(entries@.take(i as int)),
            decreases entries@.len() - i,
        {
            map.push(entries[i]);
            proof {
                assert(entries@.take(i + 1).drop_last() =~= entries@.take(i as int));
            }
            i = i + 1;
        }
        proof {
            assert(entries@.take(i as int) =~= entries@);
        }
        map
    }

    /// Reads the array of annotation records at the cursor and moves the
    /// cursor just past it.
    pub fn from_reader(cursor: &mut Cursor) -> (r: Result<AnnPageMap, CocoError>)
        ensures
            final(cursor).doc() == old(cursor).doc(),
            match records(old(cursor).doc(), old(cursor).offset(), annotation_key()) {
                Ok((entries, end)) => r matches Ok(m) && m@ == AnnIndex::of(entries)
                    && final(cursor).offset() == end,
                Err(e) => r matches Err(x) && x@ == e,
            },
    {
        match read_records(cursor, "image_id") {
            Ok(entries) => Ok(AnnPageMap::from_entries(&entries)),
            Err(e) => Err(e),
        }
    }

    /// Decodes the annotation records of image `img_id` again from `doc`,
    /// the document that the index was built from, in their order. An
    /// image without annotations has none: that is no failure.
    pub fn get_anns(&self, doc: &[u8], img_id: i64) -> (r: Result<Vec<JsonDict>, CocoError>)
        ensures
            match self@.items(doc@, img_id) {
                Ok(texts) => r matches Ok(dicts) && texts_of(dicts@) == texts,
                Err(e) => r matches Err(x) && x@ == e,
            },
    {
        let mut dicts: Vec<JsonDict> = Vec::new();
        proof {
            assert(texts_of(dicts@) =~= Seq::empty());
        }
        match self.groups.get(&img_id) {
            None => Ok(dicts),
            Some(pages) => {
                let mut i: usize = 0;
                while i < pages.len()
                    invariant
                        i <= pages@.len(),
                        record_texts(doc@, pages@.take(i as int), annotation_key(), img_id) == Ok::<
                            Seq<Seq<u8>>,
                            CocoErrorView,
                        >(texts_of(dicts@)),
                        pages@ == self@.group(img_id),
                    decreases pages@.len() - i,
                {
                    proof {
                        assert(pages@.take(i + 1).drop_last() =~= pages@.take(i as int));
                    }
                    match fetch_record(doc, pages[i], "image_id", img_id) {
                        Ok(dict) => {
                            proof {
                                assert(texts_of(dicts@.push(dict)) =~= texts_of(dicts@).push(dict@));
                            }
                            dicts.push(dict);
                        },
                        Err(e) => {
                            proof {
                                lemma_record_texts_fail(
                                    doc@,
                                    pages@,
                                    i + 1,
                                    annotation_key(),
                                    img_id,
                                );
                            }
                            return Err(e);
                        },
                    }
                    i = i + 1;
                }
                proof {
                    assert(pages@.take(i as int) =~= pages@);
                }
                Ok(dicts)
            },
        }
    }
}

/// Where the first `n` pages cannot all be found again, neither can all of
/// them, and the failure is the same.
proof fn lemma_record_texts_fail(
    doc: Seq<u8>,
    pages: Seq<Page>,
    n: int,
    field: Seq<char>,
    key: i64,
)
    requires
        0 <= n <= pages.len(),
        record_texts(doc, pages.take(n), field, key) is Err,
    ensures
        record_texts(doc, pages, field, key) == record_texts(doc, pages.take(n), field, key),
    decreases pages.len() - n,
{
    if n < pages.len() {
        assert(pages.take(n + 1).drop_last() =~= pages.take(n));
        lemma_record_texts_fail(doc, pages, n + 1, field, key);
    } else {
        assert(pages.take(n) =~= pages);
    }
}

} // verus!
