use rusty_source_map::array_set::ArraySet;

#[test]
fn add_without_duplicates_keeps_one_entry() {
    let mut set = ArraySet::new();
    set.add(String::from("a"), false);
    set.add(String::from("a"), false);
    assert_eq!(set.size(), 1);
    assert_eq!(set.index_of(&String::from("a")), Some(0));
}

#[test]
fn add_with_duplicates_keeps_first_index() {
    let mut set = ArraySet::new();
    set.add(String::from("a"), true);
    set.add(String::from("a"), true);
    assert_eq!(set.to_vec().len(), 2);
    assert_eq!(set.index_of(&String::from("a")), Some(0));
    assert_eq!(set.size(), 1);
}

#[test]
fn from_array_records_first_indices() {
    let set = ArraySet::from_array(
        vec![String::from("x"), String::from("y"), String::from("x")],
        true,
    );
    assert_eq!(set.to_vec().len(), 3);
    assert_eq!(set.index_of(&String::from("x")), Some(0));
    assert_eq!(set.index_of(&String::from("y")), Some(1));
    assert!(set.has(&String::from("y")));
    assert!(!set.has(&String::from("z")));
    assert_eq!(set.at(2), Some(String::from("x")));
    assert_eq!(set.at(-1), None);
    assert_eq!(set.at(3), None);
}
