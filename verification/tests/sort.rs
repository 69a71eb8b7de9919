use noise_cdf::sort::{precedes, sort_entries};

#[test]
fn entries_are_ordered_by_key_then_index() {
    assert!(precedes((1, 9), (2, 0)));
    assert!(!precedes((2, 0), (1, 9)));
    assert!(precedes((5, 3), (5, 4)));
    assert!(!precedes((5, 4), (5, 3)));
    assert!(!precedes((5, 4), (5, 4)));
    assert!(precedes((-7, 100), (-6, 0)));
    assert!(precedes((i32::MIN, usize::MAX), (i32::MAX, 0)));
}

#[test]
fn sort_gives_the_ascending_arrangement() {
    let entries = vec![(3, 0), (-1, 1), (3, 2), (0, 3), (-1, 4), (7, 5), (3, 6)];
    let sorted = sort_entries(&entries);
    assert_eq!(sorted, vec![(-1, 1), (-1, 4), (0, 3), (3, 0), (3, 2), (3, 6), (7, 5)]);
}

#[test]
fn sort_of_nothing_and_of_one() {
    assert_eq!(sort_entries(&Vec::new()), Vec::new());
    assert_eq!(sort_entries(&vec![(4, 2)]), vec![(4, 2)]);
}

#[test]
fn sort_keeps_repeated_entries() {
    let entries = vec![(2, 2), (1, 1), (2, 2), (1, 1), (2, 2)];
    assert_eq!(sort_entries(&entries), vec![(1, 1), (1, 1), (2, 2), (2, 2), (2, 2)]);
}

#[test]
fn sort_agrees_with_the_standard_sort() {
    let mut state: u64 = 0x2545_f491_4f6c_dd1d;
    let mut entries: Vec<(i32, usize)> = Vec::new();
    for i in 0..1000usize {
        state ^= state << 13;
        state ^= state >> 7;
        state ^= state << 17;
        entries.push((((state >> 40) as i32 % 50) - 25, i));
    }
    let mut expected = entries.clone();
    expected.sort();
    assert_eq!(sort_entries(&entries), expected);
    let mut descending = expected.clone();
    descending.reverse();
    assert_eq!(sort_entries(&descending), expected);
    assert_eq!(sort_entries(&expected), expected);
}
