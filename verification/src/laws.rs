//! What holds of the indexes, of the scan and of the mapper, proved from
//! their definitions.

use crate::cursor::{
    find_byte, lemma_find_byte, lemma_skip_ws, past_byte, remaining, skip_ws, COLON, QUOTE,
};
use crate::error::{malformed, CocoErrorView, MalformedKindView};
use crate::json::{json_integer_member, value_at};
use crate::mapper::{
    first_missing, last_section, lemma_step_advances, mapper_of, scan, section_value, step,
    MapperView, SectionView, Step,
};
use crate::page_maps::{annotation_key, image_key, record_texts, AnnIndex, ImgIndex};
use crate::records::{
    array_next, array_open, record_at, record_text, records, records_from, Entry, Page,
};
use crate::section::{eq_ignore_ascii_case, tag_of_key, SectionTag};
use vstd::prelude::*;
use vstd::utf8::{decode_utf8, valid_utf8};

verus! {

/// A key names a section exactly where it is that section's name but for
/// the case of its letters: no key names two sections.
pub proof fn law_key_names_one_section(key: Seq<char>, tag: SectionTag)
    ensures
        tag_of_key(key) == Some(tag) <==> eq_ignore_ascii_case(key, tag.spec_name()),
{
    reveal_strlit("licenses");
    reveal_strlit("info");
    reveal_strlit("categories");
    reveal_strlit("images");
    reveal_strlit("annotations");
}

/// Whether a record of `entries` is found by `key`.
pub open spec fn has_key(entries: Seq<Entry>, key: i64) -> bool {
    exists|i: int| 0 <= i < entries.len() && (#[trigger] entries[i]).key == key
}

/// Whether a record with key `x` stands in `entries` before every record
/// with key `y`.
pub open spec fn seen_before(entries: Seq<Entry>, x: i64, y: i64) -> bool {
    exists|i: int|
        0 <= i < entries.len() && (#[trigger] entries[i]).key == x && forall|j: int|
            0 <= j <= i ==> (#[trigger] entries[j]).key != y
}

/// The pages of the records of `entries` that are found by `key`, in
/// their order.
pub open spec fn pages_of(entries: Seq<Entry>, key: i64) -> Seq<Page> {
    entries.filter(|e: Entry| e.key == key).map_values(|e: Entry| e.page)
}

/// The identifiers of an image index are the keys of its records, each
/// once, in the order in which each was first seen; and a key has a page
/// exactly where it is an identifier.
pub proof fn law_ids_first_seen(entries: Seq<Entry>)
    ensures
        ImgIndex::of(entries).ids.no_duplicates(),
        forall|key: i64| ImgIndex::of(entries).ids.contains(key) <==> has_key(entries, key),
        forall|key: i64| ImgIndex::of(entries).pages.contains_key(key) <==> has_key(entries, key),
        forall|a: int, b: int|
            0 <= a < b < ImgIndex::of(entries).ids.len() ==> seen_before(
                entries,
                #[trigger] ImgIndex::of(entries).ids[a],
                #[trigger] ImgIndex::of(entries).ids[b],
            ),
    decreases entries.len(),
{
    let index = ImgIndex::of(entries);
    if entries.len() > 0 {
        let init = entries.drop_last();
        let last = entries.last();
        let before = ImgIndex::of(init);
        law_ids_first_seen(init);
        assert forall|key: i64| has_key(entries, key) <==> (has_key(init, key) || last.key
            == key) by {
            if has_key(init, key) {
                let i = choose|i: int| 0 <= i < init.len() && (#[trigger] init[i]).key == key;
                assert(entries[i].key == key);
            }
            if last.key == key {
                assert(entries[entries.len() - 1].key == key);
            }
            if has_key(entries, key) {
                let i = choose|i: int| 0 <= i < entries.len() && (#[trigger] entries[i]).key == key;
                if i < init.len() {
                    assert(init[i].key == key);
                }
            }
        }
        assert forall|key: i64| index.ids.contains(key) <==> has_key(entries, key) by {
            if before.pages.contains_key(last.key) {
            } else {
                if index.ids.contains(key) {
                    let i = choose|i: int| 0 <= i < index.ids.len() && index.ids[i] == key;
                    if i < before.ids.len() {
                        assert(before.ids[i] == key);
                    }
                }
                if before.ids.contains(key) {
                    let i = choose|i: int| 0 <= i < before.ids.len() && before.ids[i] == key;
                    assert(index.ids[i] == key);
                }
                if last.key == key {
                    assert(index.ids[index.ids.len() - 1] == key);
                }
            }
        }
        assert forall|a: int, b: int| 0 <= a < b < index.ids.len() implies seen_before(
            entries,
            #[trigger] index.ids[a],
            #[trigger] index.ids[b],
        ) by {
            let x = index.ids[a];
            let y = index.ids[b];
            if b < before.ids.len() {
                assert(seen_before(init, before.ids[a], before.ids[b]));
                let i = choose|i: int|
                    0 <= i < init.len() && (#[trigger] init[i]).key == x && forall|j: int|
                        0 <= j <= i ==> (#[trigger] init[j]).key != y;
                assert(entries[i].key == x);
                assert forall|j: int| 0 <= j <= i implies (#[trigger] entries[j]).key != y by {
                    assert(init[j].key != y);
                }
            } else {
                assert(before.ids[a] == x);
                assert(before.ids.contains(x));
                assert(has_key(init, x));
                assert(!has_key(init, y));
                let i = choose|i: int| 0 <= i < init.len() && (#[trigger] init[i]).key == x;
                assert(entries[i].key == x);
                assert forall|j: int| 0 <= j <= i implies (#[trigger] entries[j]).key != y by {
                    assert(init[j] == entries[j]);
                }
            }
        }
    }
}

/// The page of an identifier in an image index is that of the last record
/// that has it as its key.
pub proof fn law_page_of_last(entries: Seq<Entry>, key: i64)
    requires
        has_key(entries, key),
    ensures
        ImgIndex::of(entries).pages.contains_key(key),
        exists|i: int|
            0 <= i < entries.len() && (#[trigger] entries[i]).key == key && ImgIndex::of(
                entries,
            ).pages[key] == entries[i].page && forall|j: int|
                i < j < entries.len() ==> (#[trigger] entries[j]).key != key,
    decreases entries.len(),
{
    let init = entries.drop_last();
    let last = entries.last();
    if last.key == key {
        assert(entries[entries.len() - 1].key == key);
    } else {
        let w = choose|i: int| 0 <= i < entries.len() && (#[trigger] entries[i]).key == key;
        assert(init[w].key == key);
        law_page_of_last(init, key);
        let i = choose|i: int|
            0 <= i < init.len() && (#[trigger] init[i]).key == key && ImgIndex::of(init).pages[key]
                == init[i].page && forall|j: int|
                i < j < init.len() ==> (#[trigger] init[j]).key != key;
        assert(entries[i].key == key);
        assert forall|j: int| i < j < entries.len() implies (#[trigger] entries[j]).key != key by {
            if j < init.len() {
                assert(init[j].key != key);
            }
        }
    }
}

/// The group of an image in an annotation index holds the pages of the
/// records that have the image as their key, in the order of the records.
pub proof fn law_group_in_order(entries: Seq<Entry>, key: i64)
    ensures
        AnnIndex::of(entries).group(key) == pages_of(entries, key),
        AnnIndex::of(entries).groups.contains_key(key) <==> has_key(entries, key),
    decreases entries.len(),
{
    reveal(Seq::filter);
    let pred = |e: Entry| e.key == key;
    if entries.len() > 0 {
        let init = entries.drop_last();
        let last = entries.last();
        law_group_in_order(init, key);
        law_group_in_order(init, last.key);
        if last.key == key {
            assert(entries[entries.len() - 1].key == key);
            assert(entries.filter(pred) == init.filter(pred).push(last));
            assert(pages_of(entries, key) =~= pages_of(init, key).push(last.page));
        } else {
            assert(entries.filter(pred) == init.filter(pred));
            if has_key(entries, key) {
                let i = choose|i: int| 0 <= i < entries.len() && (#[trigger] entries[i]).key == key;
                assert(init[i].key == key);
            }
        }
        if has_key(init, key) {
            let i = choose|i: int| 0 <= i < init.len() && (#[trigger] init[i]).key == key;
            assert(entries[i].key == key);
        }
    } else {
        assert(pages_of(entries, key) =~= Seq::empty());
    }
}

/// Whether the record of `entry` is found again in `doc` by its page and
/// its key.
pub open spec fn found_again(doc: Seq<u8>, entry: Entry, field: Seq<char>) -> bool {
    record_text(doc, entry.page, field, entry.key) == Ok::<Seq<u8>, CocoErrorView>(
        doc.subrange(entry.page.offset as int, entry.page.offset + entry.page.size),
    )
}

/// Every record of an array that was read in a document is found again in
/// that document by its page and its key.
pub proof fn law_records_found_again(doc: Seq<u8>, pos: int, field: Seq<char>)
    requires
        0 <= pos,
        doc.len() <= usize::MAX,
    ensures
        records(doc, pos, field) matches Ok((entries, _)) ==> forall|i: int|
            0 <= i < entries.len() ==> found_again(doc, #[trigger] entries[i], field),
{
    if pos <= doc.len() {
        lemma_skip_ws(doc, pos);
        if let Ok((more, start)) = array_open(doc, pos) {
            lemma_skip_ws(doc, skip_ws(doc, pos) + 1);
            lemma_records_from_found_again(doc, start, more, field);
        }
    }
}

proof fn lemma_records_from_found_again(doc: Seq<u8>, pos: int, more: bool, field: Seq<char>)
    requires
        0 <= pos <= doc.len(),
        doc.len() <= usize::MAX,
    ensures
        records_from(doc, pos, more, field) matches Ok((entries, _)) ==> forall|i: int|
            0 <= i < entries.len() ==> found_again(doc, #[trigger] entries[i], field),
    decreases remaining(doc, pos),
{
    if more {
        if let Ok((entry, after)) = record_at(doc, pos, field) {
            lemma_skip_ws(doc, after);
            assert(found_again(doc, entry, field));
            if let Ok((again, next)) = array_next(doc, after) {
                lemma_records_from_found_again(doc, next, again, field);
                if let Ok((rest, _)) = records_from(doc, next, again, field) {
                    let entries = seq![entry] + rest;
                    assert forall|i: int| 0 <= i < entries.len() implies found_again(
                        doc,
                        #[trigger] entries[i],
                        field,
                    ) by {
                        if i > 0 {
                            assert(entries[i] == rest[i - 1]);
                        }
                    }
                }
            }
        }
    }
}

/// Whether `section` is what is read at offset `start` of `doc` as the
/// value of its section.
pub open spec fn read_at(doc: Seq<u8>, section: SectionView, start: int) -> bool {
    &&& 0 <= start <= doc.len()
    &&& section_value(doc, start, section.tag()) matches Ok((read, _))
    &&& read == section
}

/// Whether `section` is the value of its section somewhere in `doc`.
pub open spec fn read_from(doc: Seq<u8>, section: SectionView) -> bool {
    exists|start: int| read_at(doc, section, start)
}

/// Each section that a scan gives was read from the document as the value
/// of its section.
pub proof fn law_sections_read(doc: Seq<u8>, pos: int, depth: int)
    requires
        0 <= pos,
    ensures
        scan(doc, pos, depth) matches Ok((sections, _)) ==> forall|i: int|
            0 <= i < sections.len() ==> read_from(doc, #[trigger] sections[i]),
    decreases remaining(doc, pos),
{
    lemma_step_advances(doc, pos, depth);
    if let Step::Go { pos: next, depth: open, section } = step(doc, pos, depth) {
        law_sections_read(doc, next, open);
        if let Some(first) = section {
            if let Ok((rest, _)) = scan(doc, next, open) {
                lemma_skip_ws(doc, pos);
                let at = skip_ws(doc, pos);
                lemma_find_byte(doc, at + 1, QUOTE);
                let after = past_byte(doc, at + 1, QUOTE);
                lemma_find_byte(doc, after, COLON);
                assert(read_at(doc, first, past_byte(doc, after, COLON)));
                let sections = seq![first] + rest;
                assert forall|i: int| 0 <= i < sections.len() implies read_from(
                    doc,
                    #[trigger] sections[i],
                ) by {
                    if i > 0 {
                        assert(sections[i] == rest[i - 1]);
                    }
                }
            }
        }
    }
}

/// Whether `sections` holds section `tag`.
pub open spec fn observed(sections: Seq<SectionView>, tag: SectionTag) -> bool {
    exists|i: int| 0 <= i < sections.len() && (#[trigger] sections[i]).tag() == tag
}

/// The last section with a tag is one of the sections, has that tag, and
/// no section after it has; there is none exactly where no section has the
/// tag.
pub proof fn law_last_section(sections: Seq<SectionView>, tag: SectionTag)
    ensures
        last_section(sections, tag) is Some <==> observed(sections, tag),
        last_section(sections, tag) matches Some(section) ==> exists|i: int|
            0 <= i < sections.len() && #[trigger] sections[i] == section && section.tag() == tag
                && forall|j: int| i < j < sections.len() ==> (#[trigger] sections[j]).tag() != tag,
    decreases sections.len(),
{
    if sections.len() > 0 {
        let init = sections.drop_last();
        let last = sections.last();
        if last.tag() == tag {
            assert(sections[sections.len() - 1] == last);
        } else {
            law_last_section(init, tag);
            if observed(sections, tag) {
                let i = choose|i: int|
                    0 <= i < sections.len() && (#[trigger] sections[i]).tag() == tag;
                assert(init[i].tag() == tag);
            }
            if let Some(section) = last_section(init, tag) {
                let i = choose|i: int|
                    0 <= i < init.len() && #[trigger] init[i] == section && section.tag() == tag
                        && forall|j: int| i < j < init.len() ==> (#[trigger] init[j]).tag() != tag;
                assert(sections[i] == section);
                assert forall|j: int| i < j < sections.len() implies (#[trigger] sections[j]).tag()
                    != tag by {
                    if j < init.len() {
                        assert(init[j].tag() != tag);
                    }
                }
            }
        }
    }
}

/// A document has a mapper exactly where its scan does not fail and gives
/// each of the five sections at least once.
pub proof fn law_construction(doc: Seq<u8>)
    ensures
        mapper_of(doc) is Ok <==> (scan(doc, 0, 0) matches Ok((sections, _)) && forall|
            tag: SectionTag,
        |
            observed(sections, tag)),
{
    if let Ok((sections, end)) = scan(doc, 0, 0) {
        law_last_section(sections, SectionTag::Licenses);
        law_last_section(sections, SectionTag::Info);
        law_last_section(sections, SectionTag::Categories);
        law_last_section(sections, SectionTag::Images);
        law_last_section(sections, SectionTag::Annotations);
        if first_missing(sections) is None {
            assert forall|tag: SectionTag| observed(sections, tag) by {
                match tag {
                    SectionTag::Licenses => {},
                    SectionTag::Info => {},
                    SectionTag::Categories => {},
                    SectionTag::Images => {},
                    SectionTag::Annotations => {},
                }
            }
        }
    }
}

/// A document whose scan does not fail but gives no section `tag` has no
/// mapper: construction fails where the scan stopped, naming a section
/// that is missing, the first of them in the order licenses, info,
/// categories, images, annotations; so it names `tag` where no other is
/// missing.
pub proof fn law_missing_section(doc: Seq<u8>, tag: SectionTag)
    requires
        scan(doc, 0, 0) matches Ok((sections, _)) && !observed(sections, tag),
    ensures
        scan(doc, 0, 0) matches Ok((sections, end)) && mapper_of(doc) matches Err(
            CocoErrorView::Malformed { offset, kind: MalformedKindView::MissingSection(named) },
        ) && offset == end && !observed(sections, named) && first_missing(sections) == Some(named),
        scan(doc, 0, 0) matches Ok((sections, end)) && ((forall|other: SectionTag|
            other != tag ==> observed(sections, other)) ==> mapper_of(doc) == Err::<
            MapperView,
            CocoErrorView,
        >(malformed(end, MalformedKindView::MissingSection(tag)))),
{
    let (sections, end) = scan(doc, 0, 0)->Ok_0;
    law_last_section(sections, SectionTag::Licenses);
    law_last_section(sections, SectionTag::Info);
    law_last_section(sections, SectionTag::Categories);
    law_last_section(sections, SectionTag::Images);
    law_last_section(sections, SectionTag::Annotations);
    match tag {
        SectionTag::Licenses => {},
        SectionTag::Info => {},
        SectionTag::Categories => {},
        SectionTag::Images => {},
        SectionTag::Annotations => {},
    }
}

/// Whether `entries` are the records of an array of `doc` that is read by
/// `field`.
pub open spec fn read_as_records(doc: Seq<u8>, entries: Seq<Entry>, field: Seq<char>) -> bool {
    exists|start: int| records_at(doc, entries, field, start)
}

/// Whether `entries` are the records of the array that is read by `field`
/// at offset `start` of `doc`.
pub open spec fn records_at(doc: Seq<u8>, entries: Seq<Entry>, field: Seq<char>, start: int) -> bool {
    &&& 0 <= start <= doc.len()
    &&& records(doc, start, field) matches Ok((read, _))
    &&& read == entries
}

proof fn lemma_images_read(doc: Seq<u8>) -> (entries: Seq<Entry>)
    requires
        mapper_of(doc) is Ok,
    ensures
        read_as_records(doc, entries, image_key()),
        mapper_of(doc)->Ok_0.images == ImgIndex::of(entries),
{
    let (sections, end) = scan(doc, 0, 0)->Ok_0;
    law_last_section(sections, SectionTag::Images);
    law_sections_read(doc, 0, 0);
    let section = last_section(sections, SectionTag::Images).unwrap();
    let i = choose|i: int| 0 <= i < sections.len() && #[trigger] sections[i] == section;
    assert(read_from(doc, sections[i]));
    let start = choose|start: int| read_at(doc, section, start);
    let (entries, _) = records(doc, start, image_key())->Ok_0;
    assert(records_at(doc, entries, image_key(), start));
    entries
}

proof fn lemma_annotations_read(doc: Seq<u8>) -> (entries: Seq<Entry>)
    requires
        mapper_of(doc) is Ok,
    ensures
        read_as_records(doc, entries, annotation_key()),
        mapper_of(doc)->Ok_0.annotations == AnnIndex::of(entries),
{
    let (sections, end) = scan(doc, 0, 0)->Ok_0;
    law_last_section(sections, SectionTag::Annotations);
    law_sections_read(doc, 0, 0);
    let section = last_section(sections, SectionTag::Annotations).unwrap();
    let i = choose|i: int| 0 <= i < sections.len() && #[trigger] sections[i] == section;
    assert(read_from(doc, sections[i]));
    let start = choose|start: int| read_at(doc, section, start);
    let (entries, _) = records(doc, start, annotation_key())->Ok_0;
    assert(records_at(doc, entries, annotation_key(), start));
    entries
}

/// The identifiers that the mapper of a document enumerates are the
/// identifiers of the image records that were read, each once, in the
/// order in which each was first seen. The proof gives these records.
pub proof fn law_image_ids(doc: Seq<u8>) -> (entries: Seq<Entry>)
    requires
        mapper_of(doc) is Ok,
    ensures
        read_as_records(doc, entries, image_key()),
        mapper_of(doc)->Ok_0.images == ImgIndex::of(entries),
        mapper_of(doc)->Ok_0.images.ids.no_duplicates(),
        forall|id: i64| mapper_of(doc)->Ok_0.images.ids.contains(id) <==> has_key(entries, id),
        forall|a: int, b: int|
            0 <= a < b < mapper_of(doc)->Ok_0.images.ids.len() ==> seen_before(
                entries,
                #[trigger] mapper_of(doc)->Ok_0.images.ids[a],
                #[trigger] mapper_of(doc)->Ok_0.images.ids[b],
            ),
{
    let entries = lemma_images_read(doc);
    law_ids_first_seen(entries);
    entries
}

/// For every identifier that the mapper of a document enumerates, the
/// query for that image on the same document gives a record, and the `id`
/// of that record is the identifier that was asked for.
pub proof fn law_item_of_enumerated(doc: Seq<u8>, id: i64)
    requires
        doc.len() <= usize::MAX,
        mapper_of(doc) matches Ok(mapper) && mapper.images.ids.contains(id),
    ensures
        mapper_of(doc)->Ok_0.item(doc, id) matches Ok(text) && json_integer_member(
            text,
            image_key(),
        ) == Some(id),
{
    let entries = lemma_images_read(doc);
    law_ids_first_seen(entries);
    law_page_of_last(entries, id);
    let i = choose|i: int|
        0 <= i < entries.len() && (#[trigger] entries[i]).key == id && ImgIndex::of(
            entries,
        ).pages[id] == entries[i].page;
    let start = choose|start: int| records_at(doc, entries, image_key(), start);
    law_records_found_again(doc, start, image_key());
    assert(found_again(doc, entries[i], image_key()));
}

/// Where each of `pages` is found again, all of them are, in their order.
proof fn lemma_record_texts_found(doc: Seq<u8>, pages: Seq<Page>, field: Seq<char>, key: i64)
    requires
        forall|j: int| 0 <= j < pages.len() ==> record_text(doc, #[trigger] pages[j], field, key) is Ok,
    ensures
        record_texts(doc, pages, field, key) matches Ok(texts) && texts.len() == pages.len()
            && forall|j: int|
            0 <= j < pages.len() ==> record_text(doc, pages[j], field, key) == Ok::<
                Seq<u8>,
                CocoErrorView,
            >(#[trigger] texts[j]),
    decreases pages.len(),
{
    if pages.len() > 0 {
        let init = pages.drop_last();
        assert forall|j: int| 0 <= j < init.len() implies record_text(
            doc,
            #[trigger] init[j],
            field,
            key,
        ) is Ok by {
            assert(init[j] == pages[j]);
        }
        lemma_record_texts_found(doc, init, field, key);
        assert(record_text(doc, pages[pages.len() - 1], field, key) is Ok);
    }
}

/// For every identifier that the mapper of a document enumerates, the
/// query for the annotations of that image on the same document gives
/// one record for each annotation record that was read with that
/// `image_id`, in the order in which they were read, and the `image_id` of
/// each is the identifier that was asked for. So it gives no record, and
/// does not fail, where the image has no annotation, and at least one
/// where it has. The proof gives the annotation records that were read.
pub proof fn law_annotations_of_enumerated(doc: Seq<u8>, id: i64) -> (entries: Seq<Entry>)
    requires
        doc.len() <= usize::MAX,
        mapper_of(doc) matches Ok(mapper) && mapper.images.ids.contains(id),
    ensures
        read_as_records(doc, entries, annotation_key()),
        mapper_of(doc)->Ok_0.annotations_of(doc, id) is Ok,
        mapper_of(doc)->Ok_0.annotations_of(doc, id)->Ok_0.len() == pages_of(entries, id).len(),
        mapper_of(doc)->Ok_0.annotations_of(doc, id)->Ok_0.len() > 0 <==> has_key(entries, id),
        forall|j: int|
            0 <= j < pages_of(entries, id).len() ==> value_at(
                doc,
                (#[trigger] pages_of(entries, id)[j]).offset as int,
            ) == Some(mapper_of(doc)->Ok_0.annotations_of(doc, id)->Ok_0[j]),
        forall|j: int|
            0 <= j < pages_of(entries, id).len() ==> json_integer_member(
                #[trigger] mapper_of(doc)->Ok_0.annotations_of(doc, id)->Ok_0[j],
                annotation_key(),
            ) == Some(id),
{
    let images = lemma_images_read(doc);
    law_ids_first_seen(images);
    let entries = lemma_annotations_read(doc);
    law_group_in_order(entries, id);
    let start = choose|start: int| records_at(doc, entries, annotation_key(), start);
    law_records_found_again(doc, start, annotation_key());
    let pred = |e: Entry| e.key == id;
    let kept = entries.filter(pred);
    let pages = pages_of(entries, id);
    assert forall|j: int| 0 <= j < pages.len() implies record_text(
        doc,
        #[trigger] pages[j],
        annotation_key(),
        id,
    ) is Ok by {
        entries.lemma_filter_pred(pred, j);
        assert(kept.contains(kept[j]));
        entries.lemma_filter_contains_rev(pred, kept[j]);
        let i = choose|i: int| 0 <= i < entries.len() && entries[i] == kept[j];
        assert(found_again(doc, entries[i], annotation_key()));
    }
    lemma_record_texts_found(doc, pages, annotation_key(), id);
    assert(has_key(images, id));
    if has_key(entries, id) {
        let i = choose|i: int| 0 <= i < entries.len() && (#[trigger] entries[i]).key == id;
        entries.lemma_filter_contains(pred, i);
    }
    if pages.len() > 0 {
        entries.lemma_filter_pred(pred, 0);
        assert(kept.contains(kept[0]));
        entries.lemma_filter_contains_rev(pred, kept[0]);
        let i = choose|i: int| 0 <= i < entries.len() && entries[i] == kept[0];
        assert(entries[i].key == id);
    }
    entries
}

/// The state of the scanner after `n` steps from offset `pos` with `depth`
/// objects open: the offset and the depth then reached; `None` where a
/// step before that stopped or failed.
pub open spec fn run(doc: Seq<u8>, pos: int, depth: int, n: nat) -> Option<(int, int)>
    decreases n,
{
    if n == 0 {
        Some((pos, depth))
    } else {
        match step(doc, pos, depth) {
            Step::Go { pos: next, depth: open, .. } => run(doc, next, open, (n - 1) as nat),
            _ => None,
        }
    }
}

proof fn lemma_failure_propagates(doc: Seq<u8>, pos: int, depth: int, n: nat)
    requires
        0 <= pos,
        run(doc, pos, depth, n) matches Some((at, open)) && step(doc, at, open) is Fail,
    ensures
        run(doc, pos, depth, n) matches Some((at, open)) && 0 <= at && scan(doc, pos, depth) == Err::<
            (Seq<SectionView>, int),
            CocoErrorView,
        >(step(doc, at, open)->Fail_0),
    decreases n,
{
    if n > 0 {
        lemma_step_advances(doc, pos, depth);
        if let Step::Go { pos: next, depth: open, .. } = step(doc, pos, depth) {
            lemma_failure_propagates(doc, next, open, (n - 1) as nat);
        }
    }
}

/// Where a step of the scan of a document fails, the document has no
/// mapper: construction fails as that step did.
pub proof fn law_failed_step(doc: Seq<u8>, n: nat)
    requires
        run(doc, 0, 0, n) matches Some((pos, depth)) && step(doc, pos, depth) is Fail,
    ensures
        run(doc, 0, 0, n) matches Some((pos, depth)) && mapper_of(doc) == Err::<
            MapperView,
            CocoErrorView,
        >(step(doc, pos, depth)->Fail_0),
{
    lemma_failure_propagates(doc, 0, 0, n);
}

/// Where the scan of a document comes to a key that names none of the five
/// sections, the document has no mapper: construction fails with that key
/// and the offset just past it.
pub proof fn law_unknown_key(doc: Seq<u8>, n: nat)
    requires
        run(doc, 0, 0, n) matches Some((pos, depth)) && skip_ws(doc, pos) < doc.len() && doc[skip_ws(
            doc,
            pos,
        )] == QUOTE && valid_utf8(key_at(doc, pos)) && tag_of_key(decode_utf8(key_at(doc, pos)))
            is None,
    ensures
        run(doc, 0, 0, n) matches Some((pos, depth)) && mapper_of(doc) == Err::<
            MapperView,
            CocoErrorView,
        >(
            malformed(
                past_key(doc, pos),
                MalformedKindView::UnknownKey(decode_utf8(key_at(doc, pos))),
            ),
        ),
{
    law_failed_step(doc, n);
}

/// Where the scan of a document comes to a key that is not UTF-8 text, the
/// document has no mapper: construction fails with the bytes of that key
/// and the offset just past it.
pub proof fn law_undecodable_key(doc: Seq<u8>, n: nat)
    requires
        run(doc, 0, 0, n) matches Some((pos, depth)) && skip_ws(doc, pos) < doc.len() && doc[skip_ws(
            doc,
            pos,
        )] == QUOTE && !valid_utf8(key_at(doc, pos)),
    ensures
        run(doc, 0, 0, n) matches Some((pos, depth)) && mapper_of(doc) == Err::<
            MapperView,
            CocoErrorView,
        >(malformed(past_key(doc, pos), MalformedKindView::UndecodableKey(key_at(doc, pos)))),
{
    law_failed_step(doc, n);
}

/// The bytes of the key that opens at the first byte at or after `pos`
/// that is not whitespace: those between that byte and the next `"`.
pub open spec fn key_at(doc: Seq<u8>, pos: int) -> Seq<u8> {
    doc.subrange(skip_ws(doc, pos) + 1, find_byte(doc, skip_ws(doc, pos) + 1, QUOTE))
}

/// The offset just past the `"` that closes that key.
pub open spec fn past_key(doc: Seq<u8>, pos: int) -> int {
    past_byte(doc, skip_ws(doc, pos) + 1, QUOTE)
}

} // verus!
