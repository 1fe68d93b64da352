use rusty_source_map::base64::encode;

#[test]
fn test_encode() {
    assert_eq!(encode(0), Some('A'));
    assert_eq!(encode(26), Some('a'));
    assert_eq!(encode(64), None);
}
