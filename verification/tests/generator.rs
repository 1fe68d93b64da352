use rusty_source_map::generator::SourceMapGenerator;
use rusty_source_map::mapping::Mapping;
use rusty_source_map::source_map::Position;

fn entry(
    gen_line: i32,
    gen_col: i32,
    orig_line: i32,
    orig_col: i32,
    source: &str,
    name: Option<&str>,
) -> Mapping {
    Mapping {
        generated: Position { line: gen_line, column: gen_col },
        original: Some(Position { line: orig_line, column: orig_col }),
        source: Some(String::from(source)),
        name: name.map(String::from),
        last_generated_column: None,
    }
}

#[test]
fn simple() {
    let mut map = SourceMapGenerator::new(Some(String::from("foo.js")), Some(String::from(".")));
    let doc = map.as_json();
    assert!(doc.file.is_some());
    assert!(doc.source_root.is_some());
    assert_eq!(doc.version, 3);
    assert_eq!(doc.mappings, "");
    assert!(doc.sources_content.is_none());
    assert!(doc.sections.is_none());
}

#[test]
fn mappings() {
    let mut map = SourceMapGenerator::new(
        Some(String::from("min.js")),
        Some(String::from("/the/root")),
    );

    map.add_mapping(entry(1, 1, 1, 1, "one.js", None)).unwrap();
    map.add_mapping(entry(1, 5, 1, 5, "one.js", None)).unwrap();
    map.add_mapping(entry(1, 9, 1, 11, "one.js", None)).unwrap();
    map.add_mapping(entry(1, 18, 1, 21, "one.js", Some("bar"))).unwrap();
    map.add_mapping(entry(1, 21, 2, 3, "one.js", None)).unwrap();
    map.add_mapping(entry(1, 28, 2, 10, "one.js", Some("baz"))).unwrap();
    map.add_mapping(entry(1, 32, 2, 14, "one.js", Some("bar"))).unwrap();
    map.add_mapping(entry(2, 1, 1, 1, "two.js", None)).unwrap();
    map.add_mapping(entry(2, 5, 1, 5, "two.js", None)).unwrap();
    map.add_mapping(entry(2, 9, 1, 11, "two.js", None)).unwrap();
    map.add_mapping(entry(2, 18, 1, 21, "two.js", Some("n"))).unwrap();
    map.add_mapping(entry(2, 21, 2, 3, "two.js", None)).unwrap();
    map.add_mapping(entry(2, 28, 2, 10, "two.js", Some("n"))).unwrap();

    let doc = map.as_json();
    assert_eq!(
        doc.mappings,
        "CAAC,IAAI,IAAM,SAAUA,GAClB,OAAOC,IAAID;CCDb,IAAI,IAAM,SAAUE,GAClB,OAAOA"
    );
    assert_eq!(doc.sources, vec![String::from("one.js"), String::from("two.js")]);
    assert_eq!(
        doc.names,
        vec![String::from("bar"), String::from("baz"), String::from("n")]
    );
    assert_eq!(doc.file, Some(String::from("min.js")));
    assert_eq!(doc.source_root, Some(String::from("/the/root")));
    assert!(doc.sources_content.is_none());
}

#[test]
fn invalid_mapping_is_rejected() {
    let mut map = SourceMapGenerator::new(None, None);
    let bad = Mapping {
        generated: Position { line: 0, column: 0 },
        original: None,
        source: None,
        name: None,
        last_generated_column: None,
    };
    assert!(map.add_mapping(bad).is_err());
    // A source without an original position is also rejected.
    let bad2 = Mapping {
        generated: Position { line: 1, column: 0 },
        original: None,
        source: Some(String::from("a.js")),
        name: None,
        last_generated_column: None,
    };
    assert!(map.add_mapping(bad2).is_err());
}

#[test]
fn source_contents_follow_the_sources() {
    let mut map = SourceMapGenerator::new(None, None);
    map.add_mapping(entry(1, 1, 1, 1, "one.js", None)).unwrap();
    map.set_source_content(String::from("one.js"), Some(String::from("ONE")))
        .unwrap();
    let doc = map.as_json();
    assert_eq!(doc.sources_content, Some(vec![String::from("ONE")]));

    map.set_source_content(String::from("one.js"), None).unwrap();
    let doc2 = map.as_json();
    assert!(doc2.sources_content.is_none());
}
