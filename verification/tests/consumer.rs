use rusty_source_map::binary_search::Bias;
use rusty_source_map::consumer::BasicConsumer;
use rusty_source_map::generator::SourceMapGenerator;
use rusty_source_map::mapping::Mapping;
use rusty_source_map::source_map::{Position, SourceMapJson};

fn test_map_document() -> SourceMapJson {
    SourceMapJson {
        version: 3,
        sources: vec![String::from("one.js"), String::from("two.js")],
        names: vec![
            String::from("bar"),
            String::from("baz"),
            String::from("n"),
        ],
        mappings: String::from(
            "CAAC,IAAI,IAAM,SAAUA,GAClB,OAAOC,IAAID;CCDb,IAAI,IAAM,SAAUE,GAClB,OAAOA",
        ),
        file: Some(String::from("min.js")),
        source_root: Some(String::from("/the/root")),
        sources_content: None,
        sections: None,
    }
}

#[test]
fn sources_resolve_against_source_root() {
    let consumer = BasicConsumer::from_source_map_json(test_map_document());
    let sources = consumer.get_sources();
    assert_eq!(sources[0], "/the/root/one.js");
    assert_eq!(sources[1], "/the/root/two.js");
    assert_eq!(sources.len(), 2);
}

#[test]
fn original_position_on_second_line_maps_to_second_source() {
    let mut consumer = BasicConsumer::from_source_map_json(test_map_document());
    let found = consumer
        .original_position_for(Position { line: 2, column: 1 }, None)
        .unwrap()
        .unwrap();
    assert_eq!(found.source, Some(String::from("/the/root/two.js")));
    assert_eq!(found.original, Some(Position { line: 1, column: 1 }));
}

#[test]
fn malformed_vlq_surfaces_at_first_query() {
    let mut doc = test_map_document();
    doc.mappings = String::from("CA%C");
    // Construction still succeeds: the stream is decoded lazily.
    let mut consumer = BasicConsumer::from_source_map_json(doc);
    let r = consumer.original_position_for(Position { line: 1, column: 1 }, None);
    assert!(r.is_err());
}

#[test]
fn generated_position_for_finds_entry() {
    let mut consumer = BasicConsumer::from_source_map_json(test_map_document());
    let found = consumer
        .generated_position_for(&String::from("/the/root/two.js"), 1, 1, None)
        .unwrap()
        .unwrap();
    assert_eq!(found.generated.line, 2);
    assert_eq!(found.generated.column, 1);
}

#[test]
fn source_content_fails_closed_for_unknown_source() {
    let mut doc = test_map_document();
    doc.sources_content = Some(vec![String::from("ONE"), String::from("TWO")]);
    let mut consumer = BasicConsumer::from_source_map_json(doc);
    let ok = consumer
        .source_content_for(&String::from("/the/root/one.js"), None)
        .unwrap();
    assert_eq!(ok, Some(String::from("ONE")));
    let missing = consumer.source_content_for(&String::from("nope.js"), None);
    assert!(missing.is_err());
    let soft = consumer
        .source_content_for(&String::from("nope.js"), Some(false))
        .unwrap();
    assert_eq!(soft, None);
}

#[test]
fn has_contents_of_all_sources_counts_entries() {
    let mut doc = test_map_document();
    assert!(!BasicConsumer::from_source_map_json(test_map_document()).has_contents_of_all_sources());
    doc.sources_content = Some(vec![String::from("ONE"), String::from("TWO")]);
    assert!(BasicConsumer::from_source_map_json(doc).has_contents_of_all_sources());
}

#[test]
fn generator_output_round_trips_through_a_consumer() {
    let mut map = SourceMapGenerator::new(Some(String::from("out.js")), None);
    let added = [
        (1, 2, 3, 4, "a.js"),
        (1, 9, 3, 7, "a.js"),
        (2, 0, 5, 1, "b.js"),
        (4, 6, 7, 8, "a.js"),
    ];
    for (gl, gc, ol, oc, src) in added.iter() {
        map.add_mapping(Mapping {
            generated: Position { line: *gl, column: *gc },
            original: Some(Position { line: *ol, column: *oc }),
            source: Some(String::from(*src)),
            name: None,
            last_generated_column: None,
        })
        .unwrap();
    }
    let doc = map.as_json();
    let mut consumer = BasicConsumer::from_source_map_json(doc);
    for (gl, gc, ol, oc, src) in added.iter() {
        let found = consumer
            .original_position_for(
                Position { line: *gl, column: *gc },
                Some(Bias::GreatestLowerBound),
            )
            .unwrap()
            .unwrap();
        assert_eq!(found.generated, Position { line: *gl, column: *gc });
        assert_eq!(found.original, Some(Position { line: *ol, column: *oc }));
        assert_eq!(found.source, Some(String::from(*src)));
        assert_eq!(found.name, None);
    }
}

#[test]
fn column_spans_reported_once_computed() {
    let mut consumer = BasicConsumer::from_source_map_json(test_map_document());
    consumer.compute_column_spans().unwrap();
    let found = consumer
        .generated_position_for(&String::from("/the/root/one.js"), 1, 1, None)
        .unwrap()
        .unwrap();
    // The first mapping of the first line ends just before the next one.
    assert_eq!(found.last_generated_column, Some(4));
}
