use coco_page_mapper::cursor::Cursor;
use coco_page_mapper::{CocoError, CocoJsonSection, CocoPageMapper, MalformedKind, SectionTag};

const LITERAL: &str = r#"{"licenses":[],"info":{},"categories":[],"images":[{"id":5,"width":10,"height":5}],"annotations":[{"id":1,"image_id":5},{"id":2,"image_id":5}]}"#;

fn failure(document: &[u8]) -> CocoError {
    match CocoPageMapper::new(document) {
        Ok(_) => panic!("a mapper was made"),
        Err(e) => e,
    }
}

#[test]
fn literal_document_gives_its_identifiers_and_records() {
    let document = LITERAL.as_bytes();
    let mapper = CocoPageMapper::new(document).unwrap();

    assert_eq!(mapper.get_img_ids(), &vec![5i64]);

    let anns = mapper.get_anns_dict(5, document).unwrap();
    assert_eq!(anns.len(), 2);
    assert_eq!(anns[0].value()["id"].as_i64(), Some(1));
    assert_eq!(anns[1].value()["id"].as_i64(), Some(2));
    assert_eq!(anns[0].as_bytes(), br#"{"id":1,"image_id":5}"#);
    assert_eq!(anns[1].as_bytes(), br#"{"id":2,"image_id":5}"#);

    let item = mapper.get_item_dict(5, document).unwrap();
    assert_eq!(item.value()["id"].as_i64(), Some(5));
    assert_eq!(item.integer_member("id"), Some(5));
    assert_eq!(item.as_bytes(), br#"{"id":5,"width":10,"height":5}"#);

    assert!(matches!(mapper.get_item_dict(999, document), Err(CocoError::NotFound { id: 999 })));
    assert!(matches!(mapper.get_anns_dict(999, document), Err(CocoError::NotFound { id: 999 })));
}

#[test]
fn metadata_sections_are_kept_as_values() {
    let document =
        br#"{"licenses":[{"id":0}],"info":{"year":"2023"},"categories":[{"id":1,"name":"a"}],"images":[],"annotations":[]}"#;
    let mapper = CocoPageMapper::new(document).unwrap();

    assert_eq!(mapper.licenses().as_bytes(), br#"[{"id":0}]"#);
    assert_eq!(mapper.licenses().value()[0]["id"].as_i64(), Some(0));
    assert_eq!(mapper.info().as_bytes(), br#"{"year":"2023"}"#);
    assert_eq!(mapper.info().value()["year"].as_str(), Some("2023"));
    assert_eq!(mapper.categories().value()[0]["name"].as_str(), Some("a"));
    assert!(mapper.get_img_ids().is_empty());
}

#[test]
fn each_missing_section_is_named() {
    let members: [(&str, &str, SectionTag); 5] = [
        ("licenses", "[]", SectionTag::Licenses),
        ("info", "{}", SectionTag::Info),
        ("categories", "[]", SectionTag::Categories),
        ("images", "[]", SectionTag::Images),
        ("annotations", "[]", SectionTag::Annotations),
    ];
    for (left_out, _, tag) in members {
        let kept: Vec<String> = members
            .iter()
            .filter(|(key, _, _)| *key != left_out)
            .map(|(key, value, _)| format!("\"{}\":{}", key, value))
            .collect();
        let document = format!("{{{}}}", kept.join(","));
        match failure(document.as_bytes()) {
            CocoError::Malformed { offset, kind: MalformedKind::MissingSection(named) } => {
                assert_eq!(named, tag);
                assert_eq!(offset, document.len());
            }
            other => panic!("{:?}", other),
        }
    }
}

#[test]
fn first_missing_section_is_named_in_fixed_order() {
    assert!(matches!(
        failure(b"{}"),
        CocoError::Malformed { offset: 2, kind: MalformedKind::MissingSection(SectionTag::Licenses) }
    ));
    assert!(matches!(
        failure(br#"{"annotations":[],"licenses":1}"#),
        CocoError::Malformed { offset: 31, kind: MalformedKind::MissingSection(SectionTag::Info) }
    ));
    assert!(matches!(
        failure(br#"{"info":1,"licenses":1,"annotations":[]}"#),
        CocoError::Malformed {
            offset: 40,
            kind: MalformedKind::MissingSection(SectionTag::Categories)
        }
    ));
    assert!(matches!(
        failure(b""),
        CocoError::Malformed { offset: 0, kind: MalformedKind::MissingSection(SectionTag::Licenses) }
    ));
}

#[test]
fn unknown_key_fails_with_the_key_and_the_offset_past_it() {
    match failure(br#"{"licenses":[],"bogus":1}"#) {
        CocoError::Malformed { offset, kind: MalformedKind::UnknownKey(key) } => {
            assert_eq!(key, "bogus");
            assert_eq!(offset, 22);
        }
        other => panic!("{:?}", other),
    }
    match failure("{\"caf\u{e9}\":1}".as_bytes()) {
        CocoError::Malformed { offset, kind: MalformedKind::UnknownKey(key) } => {
            assert_eq!(key, "caf\u{e9}");
            assert_eq!(offset, 8);
        }
        other => panic!("{:?}", other),
    }
}

#[test]
fn undecodable_key_fails_with_its_bytes_and_the_offset_past_it() {
    let document: Vec<u8> = vec![b'{', b'"', 0xff, 0xfe, b'"', b':', b'1', b'}'];
    match failure(&document) {
        CocoError::Malformed { offset, kind: MalformedKind::UndecodableKey(bytes) } => {
            assert_eq!(bytes, vec![0xffu8, 0xfe]);
            assert_eq!(offset, 5);
        }
        other => panic!("{:?}", other),
    }
}

#[test]
fn key_is_read_as_raw_bytes_between_the_quotes() {
    match failure(br#"{"in fo":{}}"#) {
        CocoError::Malformed { offset, kind: MalformedKind::UnknownKey(key) } => {
            assert_eq!(key, "in fo");
            assert_eq!(offset, 8);
        }
        other => panic!("{:?}", other),
    }
}

#[test]
fn key_without_its_closing_quote_runs_to_the_end() {
    match failure(br#"{"inf"#) {
        CocoError::Malformed { offset, kind: MalformedKind::UnknownKey(key) } => {
            assert_eq!(key, "inf");
            assert_eq!(offset, 5);
        }
        other => panic!("{:?}", other),
    }
    assert!(matches!(
        failure(br#"{"info"#),
        CocoError::Malformed { offset: 6, kind: MalformedKind::InvalidValue }
    ));
    assert!(matches!(
        failure(br#"{"images"#),
        CocoError::Malformed { offset: 8, kind: MalformedKind::UnexpectedEnd }
    ));
}

#[test]
fn unexpected_byte_fails_with_the_byte_and_the_offset_past_it() {
    assert!(matches!(
        failure(b"{x}"),
        CocoError::Malformed { offset: 2, kind: MalformedKind::UnexpectedByte(b'x') }
    ));
    assert!(matches!(
        failure(b"  7"),
        CocoError::Malformed { offset: 3, kind: MalformedKind::UnexpectedByte(b'7') }
    ));
    assert!(matches!(
        failure(br#"{"info":{}:}"#),
        CocoError::Malformed { offset: 11, kind: MalformedKind::UnexpectedByte(b':') }
    ));
}

#[test]
fn truncated_document_is_reported_as_a_missing_section() {
    let document = br#"{"licenses":[],"info":{}"#;
    assert!(matches!(
        failure(document),
        CocoError::Malformed {
            offset: 24,
            kind: MalformedKind::MissingSection(SectionTag::Categories)
        }
    ));
}

#[test]
fn truncated_value_is_invalid() {
    assert!(matches!(
        failure(br#"{"licenses":[1,"#),
        CocoError::Malformed { offset: 12, kind: MalformedKind::InvalidValue }
    ));
    assert!(matches!(
        failure(br#"{"info""#),
        CocoError::Malformed { offset: 7, kind: MalformedKind::InvalidValue }
    ));
    assert!(matches!(
        failure(br#"{"images":[{"id":1},{"id":"#),
        CocoError::Malformed { offset: 20, kind: MalformedKind::InvalidValue }
    ));
}

#[test]
fn truncated_array_ends_unexpectedly() {
    assert!(matches!(
        failure(br#"{"images":[{"id":1} "#),
        CocoError::Malformed { offset: 20, kind: MalformedKind::UnexpectedEnd }
    ));
    assert!(matches!(
        failure(br#"{"annotations":"#),
        CocoError::Malformed { offset: 15, kind: MalformedKind::UnexpectedEnd }
    ));
}

#[test]
fn array_must_open_and_separate_its_records() {
    assert!(matches!(
        failure(br#"{"images":{"id":1}}"#),
        CocoError::Malformed { offset: 11, kind: MalformedKind::UnexpectedByte(b'{') }
    ));
    assert!(matches!(
        failure(br#"{"images":[{"id":1}{"id":2}]}"#),
        CocoError::Malformed { offset: 20, kind: MalformedKind::UnexpectedByte(b'{') }
    ));
    assert!(matches!(
        failure(br#"{"images":[{"id":1},]}"#),
        CocoError::Malformed { offset: 20, kind: MalformedKind::InvalidValue }
    ));
}

#[test]
fn record_without_its_integer_member_fails_where_it_starts() {
    assert!(matches!(
        failure(br#"{"images":[{"id":1},{"name":"x"}]}"#),
        CocoError::Malformed { offset: 20, kind: MalformedKind::MissingIdentifier }
    ));
    assert!(matches!(
        failure(br#"{"images":[{"id":"1"}]}"#),
        CocoError::Malformed { offset: 11, kind: MalformedKind::MissingIdentifier }
    ));
    assert!(matches!(
        failure(br#"{"annotations":[{"id":1}]}"#),
        CocoError::Malformed { offset: 16, kind: MalformedKind::MissingIdentifier }
    ));
    assert!(matches!(
        failure(br#"{"images":[7]}"#),
        CocoError::Malformed { offset: 11, kind: MalformedKind::MissingIdentifier }
    ));
}

#[test]
fn later_section_overwrites_earlier_one() {
    let document = br#"{"licenses":[],"info":{"a":1},"categories":[],"images":[{"id":1}],"annotations":[],"info":{"a":2},"images":[{"id":8},{"id":9}]}"#;
    let mapper = CocoPageMapper::new(document).unwrap();
    assert_eq!(mapper.info().value()["a"].as_i64(), Some(2));
    assert_eq!(mapper.get_img_ids(), &vec![8i64, 9]);
    assert!(matches!(mapper.get_item_dict(1, document), Err(CocoError::NotFound { id: 1 })));
}

#[test]
fn keys_are_matched_whatever_their_case() {
    let document =
        br#"{"LICENSES":[],"Info":{},"cAtEgOrIeS":[],"IMAGES":[{"id":3}],"Annotations":[]}"#;
    let mapper = CocoPageMapper::new(document).unwrap();
    assert_eq!(mapper.get_img_ids(), &vec![3i64]);
}

#[test]
fn whitespace_between_tokens_is_skipped() {
    let document =
        b" \t\r\n{ \"licenses\" : [ ] ,\n\"info\" :\t{ } , \"categories\":[]\x0c, \"images\" : [ {\"id\" : 4 } , { \"id\":2}\n] ,\"annotations\":[ ]\n}\n";
    let mapper = CocoPageMapper::new(document).unwrap();
    assert_eq!(mapper.get_img_ids(), &vec![4i64, 2]);
    assert_eq!(mapper.licenses().as_bytes(), b" [ ]");
    let item = mapper.get_item_dict(2, document).unwrap();
    assert_eq!(item.as_bytes(), b" { \"id\":2}");
}

#[test]
fn scan_stops_where_the_outermost_object_closes() {
    let document = br#"{"info":1,{"licenses":2}} trailing"#;
    let mut cursor = Cursor::new(document);
    let sections = CocoPageMapper::parse_json(&mut cursor).unwrap();
    assert_eq!(cursor.position(), 25);
    assert_eq!(sections.len(), 2);
    assert_eq!(sections[0].tag(), SectionTag::Info);
    assert_eq!(sections[1].tag(), SectionTag::Licenses);
    match &sections[1] {
        CocoJsonSection::LICENSES(value) => assert_eq!(value.as_bytes(), b"2"),
        other => panic!("{:?}", other),
    }
}

#[test]
fn scan_stops_at_the_end_of_a_document_that_does_not_close() {
    let document = br#"{{"info":1}"#;
    let mut cursor = Cursor::new(document);
    let sections = CocoPageMapper::parse_json(&mut cursor).unwrap();
    assert_eq!(cursor.position(), 11);
    assert_eq!(sections.len(), 1);

    let closed_first = b"}{}";
    let mut cursor = Cursor::new(closed_first);
    let sections = CocoPageMapper::parse_json(&mut cursor).unwrap();
    assert_eq!(cursor.position(), 3);
    assert!(sections.is_empty());
}

#[test]
fn scan_starts_where_the_cursor_stands() {
    let document = br#"xx{"info":{}}"#;
    let mut cursor = Cursor::at(document, 2);
    let sections = CocoPageMapper::parse_json(&mut cursor).unwrap();
    assert_eq!(sections.len(), 1);
    assert_eq!(cursor.position(), 13);
}

#[test]
fn section_is_read_from_its_key() {
    let document = br#"   :  [{"id":7},{"id":8}] ,"#;
    let mut cursor = Cursor::new(document);
    let section =
        CocoPageMapper::parse_section_from_key(String::from("Images"), &mut cursor).unwrap();
    assert_eq!(cursor.position(), 25);
    match section {
        CocoJsonSection::IMAGES(index) => assert_eq!(index.ids(), &vec![7i64, 8]),
        other => panic!("{:?}", other),
    }

    let mut cursor = Cursor::at(document, 1);
    match CocoPageMapper::parse_section_from_key(String::from("imagez"), &mut cursor) {
        Err(CocoError::Malformed { offset, kind: MalformedKind::UnknownKey(key) }) => {
            assert_eq!(offset, 1);
            assert_eq!(key, "imagez");
        }
        other => panic!("{:?}", other),
    }
    assert_eq!(cursor.position(), 1);
}
