use rusty_source_map::binary_search::{search, Bias};
use rusty_source_map::compare::NumberComparator;

#[test]
fn test_too_high_with_default_bias() {
    let needle = 30;
    let hay_stack = vec![2, 4, 6, 8, 10, 12, 14, 16, 18, 20];

    assert_eq!(
        hay_stack[search(needle, &hay_stack, NumberComparator, NumberComparator, None) as usize],
        20
    );
}

#[test]
fn test_too_low_with_default_bias() {
    let needle = 1;
    let hay_stack = vec![2, 4, 6, 8, 10, 12, 14, 16, 18, 20];
    assert_eq!(
        hay_stack[search(
            needle,
            &hay_stack,
            NumberComparator,
            NumberComparator,
            Some(Bias::LeastUpperBound)
        ) as usize],
        2
    )
}

#[test]
fn test_exact_search() {
    let needle = 4;
    let hay_stack = vec![2, 4, 6, 8, 10, 12, 14, 16, 18, 20];

    assert_eq!(
        hay_stack[search(needle, &hay_stack, NumberComparator, NumberComparator, None) as usize],
        4
    )
}

#[test]
fn test_fuzzy_search_with_glb_bias() {
    let needle = 19;
    let hay_stack = vec![2, 4, 6, 8, 10, 12, 14, 16, 18, 20];

    assert_eq!(
        hay_stack[search(needle, &hay_stack, NumberComparator, NumberComparator, None) as usize],
        18
    )
}

#[test]
fn test_fuzzy_search_with_lub_bias() {
    let needle = 19;
    let hay_stack = vec![2, 4, 6, 8, 10, 12, 14, 16, 18, 20];

    assert_eq!(
        hay_stack[search(
            needle,
            &hay_stack,
            NumberComparator,
            NumberComparator,
            Some(Bias::LeastUpperBound)
        ) as usize],
        20
    )
}

#[test]
fn test_multiple_matches() {
    let needle = 5;
    let hay_stack = vec![1, 1, 2, 5, 5, 5, 13, 21];
    assert_eq!(
        search(
            needle,
            &hay_stack,
            NumberComparator,
            NumberComparator,
            Some(Bias::LeastUpperBound)
        ),
        3
    )
}

#[test]
fn test_multiple_matches_at_beginning() {
    let needle = 1;
    let hay_stack = vec![1, 1, 2, 5, 5, 5, 13, 21];

    assert_eq!(
        search(
            needle,
            &hay_stack,
            NumberComparator,
            NumberComparator,
            Some(Bias::LeastUpperBound)
        ),
        0
    )
}

#[test]
fn test_glb_not_found_below_all() {
    let hay_stack = vec![2, 4, 6, 8, 10, 12, 14, 16, 18, 20];
    assert_eq!(
        search(1, &hay_stack, NumberComparator, NumberComparator, None),
        -1
    );
}

#[test]
fn test_lub_not_found_above_all() {
    let hay_stack = vec![2, 4, 6, 8, 10, 12, 14, 16, 18, 20];
    assert_eq!(
        search(
            30,
            &hay_stack,
            NumberComparator,
            NumberComparator,
            Some(Bias::LeastUpperBound)
        ),
        -1
    );
}

#[test]
fn test_empty_haystack() {
    let hay_stack: Vec<i32> = Vec::new();
    assert_eq!(
        search(5, &hay_stack, NumberComparator, NumberComparator, None),
        -1
    );
}
