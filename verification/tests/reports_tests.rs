use solvers::reports::{count_safe_reports, is_report_safe, is_report_safe_damped};

#[test]
fn safe_and_unsafe_reports() {
    assert!(is_report_safe(&[7, 6, 4, 2, 1]));
    assert!(is_report_safe(&[1, 3, 6, 7, 9]));
    assert!(!is_report_safe(&[1, 2, 7, 8, 9]));
    assert!(!is_report_safe(&[9, 7, 6, 2, 1]));
    assert!(!is_report_safe(&[8, 6, 4, 4, 1]));
    assert!(is_report_safe(&[]));
    assert!(is_report_safe(&[5]));
}

#[test]
fn dampened_reports() {
    assert!(is_report_safe_damped(&[1, 3, 2, 4, 5]));
    assert!(is_report_safe_damped(&[8, 6, 4, 4, 1]));
    assert!(!is_report_safe_damped(&[1, 2, 7, 8, 9]));
    assert!(is_report_safe_damped(&[7, 6, 4, 2, 1]));
}

#[test]
fn example_report_counts() {
    let reports: Vec<Vec<i32>> = vec![
        vec![7, 6, 4, 2, 1],
        vec![1, 2, 7, 8, 9],
        vec![9, 7, 6, 2, 1],
        vec![1, 3, 2, 4, 5],
        vec![8, 6, 4, 4, 1],
        vec![1, 3, 6, 7, 9],
    ];
    assert_eq!(count_safe_reports(&reports), (2, 4));
}
