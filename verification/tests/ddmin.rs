//! The splitting and complement helpers of the three reducers.

use reducer::bruteforce_debug;
use reducer::delta_debug;
use reducer::delta_debug_stmt;

#[test]
fn bruteforce_debug_test_split_tests() {
    let tests: Vec<String> = vec![
        "a".into(),
        "b".into(),
        "c".into(),
        "d".into(),
        "e".into(),
    ];
    let parts = bruteforce_debug::split_tests(&tests, 3);
    assert_eq!(parts, vec![vec!["a", "b"], vec!["c", "d"], vec!["e"]]);
}

#[test]
fn bruteforce_debug_test_get_nabla() {
    let data: Vec<String> = vec!["1".into(), "2".into(), "3".into()];
    let delta: Vec<String> = vec!["1".into(), "2".into()];
    let nabla = bruteforce_debug::get_nabla(&data, &delta);
    assert_eq!(nabla, vec!["3"]);
}

#[test]
fn delta_debug_test_split_tests() {
    let tests: Vec<u64> = vec![1, 2, 3, 4, 5, 6, 7, 8, 9, 10];
    let parts = delta_debug::split_tests(&tests, 3);
    assert_eq!(parts, vec![vec![1, 2, 3, 4], vec![5, 6, 7], vec![8, 9, 10]]);
}

#[test]
fn delta_debug_test_get_nabla() {
    let data: Vec<u64> = vec![1, 2, 3, 4, 5, 6, 7, 8, 9, 10];
    let delta: Vec<u64> = vec![1, 2, 3, 4, 5, 6, 7, 8, 9];
    let nabla = delta_debug::get_nabla(&data, &delta);
    assert_eq!(nabla, vec![10]);
}

#[test]
fn delta_debug_stmt_test_split_tests() {
    let tests: Vec<u64> = vec![1, 2, 3, 4, 5, 6, 7, 8, 9, 10];
    let parts = delta_debug_stmt::split_tests(&tests, 3);
    assert_eq!(parts, vec![vec![1, 2, 3, 4], vec![5, 6, 7], vec![8, 9, 10]]);
}

#[test]
fn delta_debug_stmt_test_get_nabla() {
    let data: Vec<u64> = vec![1, 2, 3, 4, 5, 6, 7, 8, 9, 10];
    let delta: Vec<u64> = vec![1, 2, 3, 4, 5, 6, 7, 8, 9];
    let nabla = delta_debug::get_nabla(&data, &delta);
    assert_eq!(nabla, vec![10]);
}

#[test]
fn split_tests_uneven_sizes() {
    // the first len % n parts get one extra element
    let tests: Vec<u64> = vec![1, 2, 3, 4, 5];
    let parts = delta_debug::split_tests(&tests, 3);
    assert_eq!(parts, vec![vec![1, 2], vec![3, 4], vec![5]]);
}

#[test]
fn split_tests_single_part() {
    let tests: Vec<u64> = vec![7, 8];
    let parts = delta_debug::split_tests(&tests, 1);
    assert_eq!(parts, vec![vec![7, 8]]);
}

#[test]
fn split_tests_more_parts_than_items() {
    let tests: Vec<u64> = vec![7];
    let parts = delta_debug::split_tests(&tests, 3);
    assert_eq!(parts, vec![vec![7], vec![], vec![]]);
}

#[test]
fn get_nabla_removes_every_copy() {
    // duplicate-valued elements are compared by value
    let data: Vec<u64> = vec![1, 2, 1, 3];
    let delta: Vec<u64> = vec![1];
    assert_eq!(delta_debug::get_nabla(&data, &delta), vec![2, 3]);
}
