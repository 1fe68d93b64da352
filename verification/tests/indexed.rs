use rusty_source_map::consumer::{create_consumer, BasicConsumer, Consumer, IndexedConsumer, IterOrd};
use rusty_source_map::errors::DocumentError;
use rusty_source_map::source_map::{Position, Section, SourceMapJson};

fn flat_doc(source: &str, mappings: &str) -> SourceMapJson {
    SourceMapJson {
        version: 3,
        sources: vec![String::from(source)],
        names: Vec::new(),
        mappings: String::from(mappings),
        file: None,
        source_root: None,
        sources_content: None,
        sections: None,
    }
}

fn two_section_doc() -> SourceMapJson {
    SourceMapJson {
        version: 3,
        sources: Vec::new(),
        names: Vec::new(),
        mappings: String::new(),
        file: None,
        source_root: None,
        sources_content: None,
        sections: Some(vec![
            Section {
                offset: Position { line: 0, column: 0 },
                map: Box::new(flat_doc("a.js", "AAAA")),
                url: None,
            },
            Section {
                offset: Position { line: 1, column: 0 },
                map: Box::new(flat_doc("b.js", "AAAA")),
                url: None,
            },
        ]),
    }
}

#[test]
fn second_line_query_resolves_through_second_section() {
    let mut consumer = IndexedConsumer::from_source_map_json(two_section_doc()).unwrap();
    let found = consumer
        .original_position_for(Position { line: 2, column: 1 }, None)
        .unwrap()
        .unwrap();
    // The +1 line shift of the second section is applied: the query on
    // global line 2 lands on the second section's own first line, and the
    // answer is reported back in the global frame.
    assert_eq!(found.source, Some(String::from("b.js")));
    assert_eq!(found.original, Some(Position { line: 1, column: 0 }));
    assert_eq!(found.generated, Position { line: 2, column: 0 });
    let first = consumer
        .original_position_for(Position { line: 1, column: 1 }, None)
        .unwrap()
        .unwrap();
    assert_eq!(first.source, Some(String::from("a.js")));
    assert_eq!(first.generated, Position { line: 1, column: 0 });
}

#[test]
fn column_offset_shifts_back_to_the_global_frame() {
    let doc = SourceMapJson {
        version: 3,
        sources: Vec::new(),
        names: Vec::new(),
        mappings: String::new(),
        file: None,
        source_root: None,
        sources_content: None,
        sections: Some(vec![
            Section {
                offset: Position { line: 0, column: 0 },
                map: Box::new(flat_doc("a.js", "AAAA")),
                url: None,
            },
            Section {
                offset: Position { line: 0, column: 10 },
                map: Box::new(flat_doc("b.js", "AAAA")),
                url: None,
            },
        ]),
    };
    let mut consumer = IndexedConsumer::from_source_map_json(doc).unwrap();
    let found = consumer
        .original_position_for(Position { line: 1, column: 11 }, None)
        .unwrap()
        .unwrap();
    // The second section starts at column 10 of the first line: its local
    // column 0 comes back as global column 10.
    assert_eq!(found.source, Some(String::from("b.js")));
    assert_eq!(found.generated, Position { line: 1, column: 10 });
}

#[test]
fn section_url_fails_construction() {
    let mut doc = two_section_doc();
    if let Some(ss) = &mut doc.sections {
        ss[0].url = Some(String::from("https://example.invalid/map.json"));
    }
    match IndexedConsumer::from_source_map_json(doc) {
        Err(e) => assert_eq!(e, DocumentError::SectionUrlPresent),
        Ok(_) => panic!("construction should fail on a section url"),
    }
}

#[test]
fn unordered_offsets_fail_construction() {
    let mut doc = two_section_doc();
    if let Some(ss) = &mut doc.sections {
        ss[1].offset = Position { line: 0, column: 0 };
        ss[0].offset = Position { line: 1, column: 0 };
    }
    assert!(IndexedConsumer::from_source_map_json(doc).is_err());
}

#[test]
fn unsupported_version_fails_construction() {
    let mut doc = two_section_doc();
    doc.version = 4;
    assert!(IndexedConsumer::from_source_map_json(doc).is_err());
}

#[test]
fn dispatch_follows_the_sections_field() {
    let indexed = create_consumer(two_section_doc()).unwrap();
    assert!(indexed.try_as_indexed_consumer().is_some());
    assert!(indexed.try_as_basic_consumer().is_none());
    let basic = create_consumer(flat_doc("a.js", "AAAA")).unwrap();
    match basic {
        Consumer::BasicConsumer(_) => {}
        Consumer::IndexedConsumer(_) => panic!("expected a flat consumer"),
    }
}

#[test]
fn each_mapping_orders_follow_the_tables() {
    let mut doc = flat_doc("a.js", "ACAC,CACD");
    doc.sources.push(String::from("b.js"));
    let mut consumer = BasicConsumer::from_source_map_json(doc);
    let generated = consumer.each_mapping_entries(IterOrd::GeneratedOrd).unwrap();
    let original = consumer.each_mapping_entries(IterOrd::OriginalOrd).unwrap();
    assert_eq!(generated.len(), 2);
    assert_eq!(original.len(), 2);
    // Generated order goes by generated column; original order by source.
    assert!(generated[0].generated_column <= generated[1].generated_column);
    let s0 = original[0].original.as_ref().unwrap().source;
    let s1 = original[1].original.as_ref().unwrap().source;
    assert!(s0 <= s1);
}
