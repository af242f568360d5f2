use coco_page_mapper::page_maps::{AnnPageMap, ImgPageMap};
use coco_page_mapper::records::{Entry, Page};
use coco_page_mapper::{CocoError, CocoPageMapper, MalformedKind};

const INTERLEAVED: &str = r#"{"licenses":[],"info":{},"categories":[],
"images":[{"id":7,"w":1},{"id":3},{"id":7,"w":2},{"id":9}],
"annotations":[{"id":1,"image_id":7},{"id":2,"image_id":3},{"id":3,"image_id":7},{"id":4,"image_id":12},{"id":5,"image_id":7}]}"#;

#[test]
fn identifiers_come_once_in_the_order_first_seen() {
    let document = INTERLEAVED.as_bytes();
    let mapper = CocoPageMapper::new(document).unwrap();
    assert_eq!(mapper.get_img_ids(), &vec![7i64, 3, 9]);
}

#[test]
fn every_enumerated_identifier_gives_its_own_record() {
    let document = INTERLEAVED.as_bytes();
    let mapper = CocoPageMapper::new(document).unwrap();
    for img_id in mapper.get_img_ids().clone() {
        let item = mapper.get_item_dict(img_id, document).unwrap();
        assert_eq!(item.value()["id"].as_i64(), Some(img_id));
        assert_eq!(item.integer_member("id"), Some(img_id));
    }
}

#[test]
fn identifier_seen_again_gives_the_later_record() {
    let document = INTERLEAVED.as_bytes();
    let mapper = CocoPageMapper::new(document).unwrap();
    let item = mapper.get_item_dict(7, document).unwrap();
    assert_eq!(item.value()["w"].as_i64(), Some(2));
}

#[test]
fn annotations_of_an_image_come_in_their_order() {
    let document = INTERLEAVED.as_bytes();
    let mapper = CocoPageMapper::new(document).unwrap();

    let anns = mapper.get_anns_dict(7, document).unwrap();
    let ids: Vec<Option<i64>> = anns.iter().map(|ann| ann.value()["id"].as_i64()).collect();
    assert_eq!(ids, vec![Some(1), Some(3), Some(5)]);
    for ann in &anns {
        assert_eq!(ann.value()["image_id"].as_i64(), Some(7));
        assert_eq!(ann.integer_member("image_id"), Some(7));
    }

    let anns = mapper.get_anns_dict(3, document).unwrap();
    assert_eq!(anns.len(), 1);
    assert_eq!(anns[0].value()["id"].as_i64(), Some(2));
}

#[test]
fn image_without_annotations_has_an_empty_group() {
    let document = INTERLEAVED.as_bytes();
    let mapper = CocoPageMapper::new(document).unwrap();
    let anns = mapper.get_anns_dict(9, document).unwrap();
    assert!(anns.is_empty());
}

#[test]
fn annotations_of_an_unknown_image_are_not_found() {
    let document = INTERLEAVED.as_bytes();
    let mapper = CocoPageMapper::new(document).unwrap();
    assert!(matches!(mapper.get_anns_dict(12, document), Err(CocoError::NotFound { id: 12 })));
    assert!(matches!(mapper.get_item_dict(12, document), Err(CocoError::NotFound { id: 12 })));
    assert!(matches!(mapper.get_item_dict(-1, document), Err(CocoError::NotFound { id: -1 })));
}

#[test]
fn failed_query_leaves_the_mapper_as_it_was() {
    let document = INTERLEAVED.as_bytes();
    let mapper = CocoPageMapper::new(document).unwrap();
    assert!(mapper.get_item_dict(1000, document).is_err());
    assert!(mapper.get_anns_dict(1000, document).is_err());
    assert_eq!(mapper.get_item_dict(3, document).unwrap().as_bytes(), br#"{"id":3}"#);
    assert_eq!(mapper.get_anns_dict(3, document).unwrap().len(), 1);
    assert_eq!(mapper.get_img_ids(), &vec![7i64, 3, 9]);
}

#[test]
fn queries_may_come_in_any_order_and_again() {
    let document = INTERLEAVED.as_bytes();
    let mapper = CocoPageMapper::new(document).unwrap();
    let order: [i64; 6] = [9, 7, 3, 7, 9, 3];
    for img_id in order {
        let item = mapper.get_item_dict(img_id, document).unwrap();
        assert_eq!(item.value()["id"].as_i64(), Some(img_id));
        let anns = mapper.get_anns_dict(img_id, document).unwrap();
        for ann in anns {
            assert_eq!(ann.value()["image_id"].as_i64(), Some(img_id));
        }
    }
}

#[test]
fn query_on_another_document_fails_and_does_not_invent_a_record() {
    let document = br#"{"licenses":[],"info":{},"categories":[],"images":[{"id":5},{"id":6}],"annotations":[{"image_id":5}]}"#;
    let mapper = CocoPageMapper::new(document).unwrap();

    let shorter = &document[..40];
    assert!(matches!(
        mapper.get_item_dict(5, shorter),
        Err(CocoError::Malformed { offset: 51, kind: MalformedKind::InvalidValue })
    ));

    let other_id = br#"{"licenses":[],"info":{},"categories":[],"images":[{"id":4},{"id":6}],"annotations":[{"image_id":5}]}"#;
    assert!(matches!(
        mapper.get_item_dict(5, other_id),
        Err(CocoError::Malformed { offset: 51, kind: MalformedKind::MissingIdentifier })
    ));
    assert!(mapper.get_item_dict(6, other_id).is_ok());

    let other_size = br#"{"licenses":[],"info":{},"categories":[],"images":[{"id":5,"w":1},{"id":6}],"annotations":[{"image_id":5}]}"#;
    assert!(matches!(
        mapper.get_item_dict(5, other_size),
        Err(CocoError::Malformed { offset: 51, kind: MalformedKind::InvalidValue })
    ));
    assert!(matches!(
        mapper.get_anns_dict(5, other_size),
        Err(CocoError::Malformed { offset: 85, kind: MalformedKind::InvalidValue })
    ));
}

#[test]
fn image_index_keeps_first_place_and_last_page() {
    let mut index = ImgPageMap::new();
    assert!(index.ids().is_empty());
    assert!(!index.contains(4));
    index.push(Entry { key: 4, page: Page { offset: 10, size: 3 } });
    index.push(Entry { key: -2, page: Page { offset: 14, size: 5 } });
    index.push(Entry { key: 4, page: Page { offset: 20, size: 7 } });
    assert_eq!(index.ids(), &vec![4i64, -2]);
    assert!(index.contains(4));
    assert!(index.contains(-2));
    assert!(!index.contains(5));

    let entries = vec![
        Entry { key: 1, page: Page { offset: 0, size: 8 } },
        Entry { key: 1, page: Page { offset: 9, size: 8 } },
    ];
    let document = br#"{"id":1},{"id":1}"#;
    let index = ImgPageMap::from_entries(&entries);
    assert_eq!(index.ids(), &vec![1i64]);
    assert_eq!(index.get_dict(document, 1).unwrap().as_bytes(), br#"{"id":1}"#);
    assert!(matches!(index.get_dict(document, 2), Err(CocoError::NotFound { id: 2 })));
}

#[test]
fn annotation_index_groups_by_image() {
    let document = br#"{"image_id":2,"n":0},{"image_id":1,"n":1},{"image_id":2,"n":2}"#;
    let mut index = AnnPageMap::new();
    index.push(Entry { key: 2, page: Page { offset: 0, size: 20 } });
    index.push(Entry { key: 1, page: Page { offset: 21, size: 20 } });
    index.push(Entry { key: 2, page: Page { offset: 42, size: 20 } });

    let second = index.get_anns(document, 2).unwrap();
    assert_eq!(second.len(), 2);
    assert_eq!(second[0].value()["n"].as_i64(), Some(0));
    assert_eq!(second[1].value()["n"].as_i64(), Some(2));
    let first = index.get_anns(document, 1).unwrap();
    assert_eq!(first.len(), 1);
    assert_eq!(first[0].value()["n"].as_i64(), Some(1));
    assert!(index.get_anns(document, 3).unwrap().is_empty());

    let wrong = AnnPageMap::from_entries(&vec![
        Entry { key: 2, page: Page { offset: 0, size: 20 } },
        Entry { key: 2, page: Page { offset: 21, size: 20 } },
    ]);
    assert!(matches!(
        wrong.get_anns(document, 2),
        Err(CocoError::Malformed { offset: 21, kind: MalformedKind::MissingIdentifier })
    ));
}
