use rusty_source_map::base64_vlq;
use rusty_source_map::mapping_index::MappingIndex;

#[test]
fn vlq_round_trip_concrete() {
    for value in [0i32, 1, -1, 15, 16, -16, 123, -456, 1000000] {
        let encoded = base64_vlq::encode(value);
        let bytes: Vec<u8> = encoded.as_bytes().to_vec();
        let decoded = base64_vlq::decode(&bytes, 0).unwrap();
        assert_eq!(decoded.0, value);
        assert_eq!(decoded.1, bytes.len());
    }
}

#[test]
fn vlq_single_digit_values() {
    assert_eq!(base64_vlq::encode(0), "A");
    assert_eq!(base64_vlq::encode(1), "C");
    assert_eq!(base64_vlq::encode(-1), "D");
}

#[test]
fn vlq_rejects_byte_outside_alphabet() {
    let bytes: Vec<u8> = vec![b'%'];
    assert!(base64_vlq::decode(&bytes, 0).is_err());
}

#[test]
fn column_spans_are_idempotent() {
    let bytes: Vec<u8> = "CACA,IACA,IACA;CACA".as_bytes().to_vec();
    let mut once = MappingIndex::decode_stream(&bytes).unwrap();
    once.compute_column_spans();
    let mut twice = MappingIndex::decode_stream(&bytes).unwrap();
    twice.compute_column_spans();
    twice.compute_column_spans();
    let a = once.by_generated_location();
    let b = twice.by_generated_location();
    assert_eq!(a.len(), b.len());
    for i in 0..a.len() {
        assert_eq!(a[i].generated_line, b[i].generated_line);
        assert_eq!(a[i].generated_column, b[i].generated_column);
        assert_eq!(a[i].last_generated_column, b[i].last_generated_column);
    }
    // The first two entries on line 0 end just before their successors.
    assert_eq!(a[0].last_generated_column, Some(4));
    assert_eq!(a[1].last_generated_column, Some(8));
    assert_eq!(a[2].last_generated_column, None);
    assert_eq!(a[3].last_generated_column, None);
}
