use solvers::distances::{count_occurrences, similarity_score, sort_values, total_distance};

#[test]
fn sorting_orders_values() {
    assert_eq!(sort_values(&vec![3, 1, 2]), vec![1, 2, 3]);
    assert_eq!(sort_values(&vec![]), Vec::<i32>::new());
    assert_eq!(sort_values(&vec![5, 5, -1]), vec![-1, 5, 5]);
}

#[test]
fn example_distance_and_similarity() {
    let lhs = sort_values(&vec![3, 4, 2, 1, 3, 3]);
    let rhs = sort_values(&vec![4, 3, 5, 3, 9, 3]);
    assert_eq!(total_distance(&lhs, &rhs), 11);
    assert_eq!(similarity_score(&lhs, &rhs), 31);
}

#[test]
fn occurrence_counting() {
    assert_eq!(count_occurrences(&vec![4, 3, 5, 3, 9, 3], 3), 3);
    assert_eq!(count_occurrences(&vec![4, 3, 5], 7), 0);
}
