use ys_differential_evolution::ranking::{is_ahead, is_level_or_ahead, sort_best_first};

#[test]
fn the_first_difference_decides() {
    assert!(is_ahead(&vec![1, 2], &vec![1, 1]));
    assert!(!is_ahead(&vec![1, 1], &vec![1, 2]));
    assert!(is_ahead(&vec![2, 0], &vec![1, 9]));
    assert!(!is_ahead(&vec![1, 9], &vec![2, 0]));
    assert!(is_ahead(&vec![0], &vec![-1]));
    assert!(is_ahead(&vec![i64::MAX, 0], &vec![i64::MAX, i64::MIN]));
}

#[test]
fn a_vector_is_ahead_of_its_prefixes() {
    assert!(is_ahead(&vec![1, 2], &vec![1]));
    assert!(!is_ahead(&vec![1], &vec![1, 2]));
    assert!(is_ahead(&vec![-7], &vec![]));
    assert!(!is_ahead(&vec![], &vec![-7]));
}

#[test]
fn equal_vectors_are_level() {
    assert!(!is_ahead(&vec![3, 4], &vec![3, 4]));
    assert!(!is_ahead(&vec![], &vec![]));
    assert!(is_level_or_ahead(&vec![3, 4], &vec![3, 4]));
    assert!(is_level_or_ahead(&vec![], &vec![]));
}

#[test]
fn level_or_ahead_is_the_opposite_of_behind() {
    assert!(is_level_or_ahead(&vec![1, 2], &vec![1, 1]));
    assert!(!is_level_or_ahead(&vec![1, 1], &vec![1, 2]));
    assert!(is_level_or_ahead(&vec![1, 2], &vec![1]));
    assert!(!is_level_or_ahead(&vec![1], &vec![1, 2]));
}

#[test]
fn ranking_is_total_on_samples() {
    let samples: Vec<Vec<i64>> =
        vec![vec![], vec![0], vec![0, 0], vec![1], vec![-1, 5], vec![1, -5], vec![1, -5, 0]];
    for a in &samples {
        for b in &samples {
            let ahead = is_ahead(a, b);
            let behind = is_ahead(b, a);
            assert!(!(ahead && behind));
            assert_eq!(!ahead && !behind, a == b);
            assert_eq!(ahead, a > b);
        }
    }
}

#[test]
fn sort_best_first_puts_the_best_score_first() {
    let items = vec![("a", vec![1]), ("b", vec![3]), ("c", vec![2]), ("d", vec![2, 1])];
    let sorted = sort_best_first(items);
    let names: Vec<&str> = sorted.iter().map(|item| item.0).collect();
    assert_eq!(names, vec!["b", "d", "c", "a"]);
}

#[test]
fn sort_best_first_keeps_every_item() {
    let items = vec![(1, vec![5]), (2, vec![5]), (3, vec![]), (4, vec![5, 0]), (5, vec![4])];
    let sorted = sort_best_first(items);
    assert_eq!(sorted.len(), 5);
    let mut names: Vec<i32> = sorted.iter().map(|item| item.0).collect();
    names.sort();
    assert_eq!(names, vec![1, 2, 3, 4, 5]);
    for pair in sorted.windows(2) {
        assert!(pair[0].1 >= pair[1].1);
    }
    assert_eq!(sorted[0].0, 4);
    assert_eq!(sorted[4].0, 3);
    let nothing: Vec<(i32, Vec<i64>)> = sort_best_first(vec![]);
    assert!(nothing.is_empty());
}
