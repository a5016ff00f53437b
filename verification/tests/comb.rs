use pokerrs::comb::{combinations, combinations_with_replacement};
use std::collections::BTreeSet;

fn as_sets(combos: Vec<Vec<u64>>) -> BTreeSet<BTreeSet<u64>> {
    combos.into_iter().map(|v| v.into_iter().collect()).collect()
}

#[test]
fn test_combinations_empty() {
    let empty: Vec<i64> = Vec::new();
    for p in 1..5 {
        let result: Vec<_> = combinations(empty.clone(), p).collect();
        assert!(result.is_empty(), "Combination of empty set not empty: {:?}", result);
    }
}

#[test]
fn test_combinations_small() {
    let lst: Vec<u64> = vec![2, 3, 5, 7, 11];
    let combos = as_sets(combinations(lst, 2).collect());
    let expected = as_sets(vec![
        vec![2, 3],
        vec![2, 5],
        vec![2, 7],
        vec![2, 11],
        vec![3, 5],
        vec![3, 7],
        vec![3, 11],
        vec![5, 7],
        vec![5, 11],
        vec![7, 11],
    ]);
    assert!(combos == expected);
}

#[test]
fn test_combinations_with_replacement() {
    let lst: Vec<u64> = vec![2, 3, 5];
    let combos = as_sets(combinations_with_replacement(lst, 2).collect());
    let expected = as_sets(vec![
        vec![2, 2],
        vec![2, 3],
        vec![2, 5],
        vec![3, 3],
        vec![3, 5],
        vec![5, 5],
    ]);
    assert!(combos == expected);
}

#[test]
fn combinations_come_in_dictionary_order() {
    let all = combinations(vec!['a', 'b', 'c', 'd'], 3).collect();
    assert_eq!(
        all,
        vec![
            vec!['a', 'b', 'c'],
            vec!['a', 'b', 'd'],
            vec!['a', 'c', 'd'],
            vec!['b', 'c', 'd'],
        ]
    );
    let with = combinations_with_replacement(vec![1u8, 2, 3], 2).collect();
    assert_eq!(
        with,
        vec![vec![1, 1], vec![1, 2], vec![1, 3], vec![2, 2], vec![2, 3], vec![3, 3]]
    );
}

#[test]
fn combinations_of_nothing_is_one_empty_selection() {
    let mut c = combinations(vec![1u8, 2, 3], 0);
    assert_eq!(c.next(), Some(vec![]));
    assert_eq!(c.next(), None);
    assert_eq!(c.next(), None);
    let mut e = combinations(Vec::<u8>::new(), 0);
    assert_eq!(e.next(), Some(vec![]));
    assert_eq!(e.next(), None);
    let mut r = combinations_with_replacement(Vec::<u8>::new(), 0);
    assert_eq!(r.next(), Some(vec![]));
    assert_eq!(r.next(), None);
    let mut none = combinations_with_replacement(Vec::<u8>::new(), 2);
    assert_eq!(none.next(), None);
}

#[test]
fn combinations_too_large_are_none() {
    let mut c = combinations(vec![1u8, 2], 3);
    assert_eq!(c.next(), None);
    let mut whole = combinations(vec![1u8, 2], 2);
    assert_eq!(whole.next(), Some(vec![1, 2]));
    assert_eq!(whole.next(), None);
}

#[test]
fn combinations_can_be_resumed() {
    let mut c = combinations((0..52u8).collect(), 5);
    let mut count: u64 = 0;
    for _ in 0..1000 {
        assert!(c.next().is_some());
        count += 1;
    }
    while let Some(v) = c.next() {
        assert_eq!(v.len(), 5);
        count += 1;
    }
    assert_eq!(count, 2_598_960);
}

#[test]
fn collect_hands_out_what_is_left() {
    let mut c = combinations(vec![1u8, 2, 3, 4], 2);
    assert_eq!(c.next(), Some(vec![1, 2]));
    assert_eq!(c.next(), Some(vec![1, 3]));
    assert_eq!(c.collect(), vec![vec![1, 4], vec![2, 3], vec![2, 4], vec![3, 4]]);
    assert_eq!(c.next(), None);
    assert!(c.collect().is_empty());
}

#[test]
fn combinations_of_items_that_are_cloned() {
    let names = vec!["ann".to_string(), "bob".to_string(), "cy".to_string()];
    let pairs = combinations(names, 2).collect();
    assert_eq!(
        pairs,
        vec![
            vec!["ann".to_string(), "bob".to_string()],
            vec!["ann".to_string(), "cy".to_string()],
            vec!["bob".to_string(), "cy".to_string()],
        ]
    );
}
