use sorting::{bubble_sort, merge, merge_sort};

type SortFn<T> = fn(&mut [T]);

fn test_sort_basic(sort_fn: SortFn<i32>) {
    let mut data = vec![5, 3, 8, 4, 2];
    sort_fn(&mut data);
    assert_eq!(data, vec![2, 3, 4, 5, 8]);
}

fn test_sort_already_sorted(sort_fn: SortFn<i32>) {
    let mut data = vec![1, 2, 3, 4, 5];
    sort_fn(&mut data);
    assert_eq!(data, vec![1, 2, 3, 4, 5]);
}

fn test_sort_reverse_sorted(sort_fn: SortFn<i32>) {
    let mut data = vec![9, 7, 5, 3, 1];
    sort_fn(&mut data);
    assert_eq!(data, vec![1, 3, 5, 7, 9]);
}

fn test_sort_with_duplicates(sort_fn: SortFn<i32>) {
    let mut data = vec![4, 2, 4, 1, 3, 2];
    sort_fn(&mut data);
    assert_eq!(data, vec![1, 2, 2, 3, 4, 4]);
}

fn test_sort_empty(sort_fn: SortFn<i32>) {
    let mut data: Vec<i32> = vec![];
    sort_fn(&mut data);
    assert_eq!(data, vec![]);
}

fn test_sort_single_element(sort_fn: SortFn<i32>) {
    let mut data = vec![42];
    sort_fn(&mut data);
    assert_eq!(data, vec![42]);
}

#[test]
fn bubble_sort_tests_basic() {
    test_sort_basic(bubble_sort);
}

#[test]
fn bubble_sort_tests_already_sorted() {
    test_sort_already_sorted(bubble_sort);
}

#[test]
fn bubble_sort_tests_reverse_sorted() {
    test_sort_reverse_sorted(bubble_sort);
}

#[test]
fn bubble_sort_tests_with_duplicates() {
    test_sort_with_duplicates(bubble_sort);
}

#[test]
fn bubble_sort_tests_empty() {
    test_sort_empty(bubble_sort);
}

#[test]
fn bubble_sort_tests_single_element() {
    test_sort_single_element(bubble_sort);
}

#[test]
fn merge_sort_tests_basic() {
    test_sort_basic(merge_sort);
}

#[test]
fn merge_sort_tests_already_sorted() {
    test_sort_already_sorted(merge_sort);
}

#[test]
fn merge_sort_tests_reverse_sorted() {
    test_sort_reverse_sorted(merge_sort);
}

#[test]
fn merge_sort_tests_with_duplicates() {
    test_sort_with_duplicates(merge_sort);
}

#[test]
fn merge_sort_tests_empty() {
    test_sort_empty(merge_sort);
}

#[test]
fn merge_sort_tests_single_element() {
    test_sort_single_element(merge_sort);
}

#[test]
fn sorting_tests_test_merge() {
    let mut data = vec![1, 3, 2, 4, 8];
    merge(&mut data, 2);
    assert_eq!(data, vec![1, 2, 3, 4, 8]);
}

#[test]
fn main_test_merge() {
    let mut data = vec![1, 3, 2, 4, 8];
    merge(&mut data, 2);
    assert_eq!(data, vec![1, 2, 3, 4, 8]);
}
