use sorting::{bubble_sort, merge, merge_sort};
use std::cmp::Ordering;

/// A value that is ordered by `key` alone, so that two of them can be equal in
/// the order and still be told apart by `tag`.
#[derive(Clone, Copy, Debug)]
struct Tagged {
    key: u32,
    tag: char,
}

impl PartialEq for Tagged {
    fn eq(&self, other: &Self) -> bool {
        self.key == other.key
    }
}

impl Eq for Tagged {}

impl PartialOrd for Tagged {
    fn partial_cmp(&self, other: &Self) -> Option<Ordering> {
        Some(self.cmp(other))
    }
}

impl Ord for Tagged {
    fn cmp(&self, other: &Self) -> Ordering {
        self.key.cmp(&other.key)
    }
}

fn tagged(pairs: &[(u32, char)]) -> Vec<Tagged> {
    pairs.iter().map(|&(key, tag)| Tagged { key, tag }).collect()
}

fn untagged(items: &[Tagged]) -> Vec<(u32, char)> {
    items.iter().map(|t| (t.key, t.tag)).collect()
}

fn is_ascending(data: &[i64]) -> bool {
    data.windows(2).all(|w| w[0] <= w[1])
}

fn occurrences(data: &[i64], value: i64) -> usize {
    data.iter().filter(|&&x| x == value).count()
}

fn same_elements(a: &[i64], b: &[i64]) -> bool {
    a.len() == b.len() && a.iter().all(|&x| occurrences(a, x) == occurrences(b, x))
}

/// A fixed sequence with repeats, negative numbers and both extremes.
fn sample() -> Vec<i64> {
    vec![17, -4, 0, 99, 17, i64::MIN, 3, 3, -4, i64::MAX, 8, 0, 17, 1, -100, 42]
}

#[test]
fn bubble_sort_result_is_ascending() {
    let mut data = sample();
    bubble_sort(&mut data);
    assert!(is_ascending(&data));
    assert_eq!(
        data,
        vec![i64::MIN, -100, -4, -4, 0, 0, 1, 3, 3, 8, 17, 17, 17, 42, 99, i64::MAX]
    );
}

#[test]
fn merge_sort_result_is_ascending() {
    let mut data = sample();
    merge_sort(&mut data);
    assert!(is_ascending(&data));
    assert_eq!(
        data,
        vec![i64::MIN, -100, -4, -4, 0, 0, 1, 3, 3, 8, 17, 17, 17, 42, 99, i64::MAX]
    );
}

#[test]
fn bubble_sort_keeps_every_element() {
    let mut data = sample();
    bubble_sort(&mut data);
    assert!(same_elements(&data, &sample()));
}

#[test]
fn merge_sort_keeps_every_element() {
    let mut data = sample();
    merge_sort(&mut data);
    assert!(same_elements(&data, &sample()));
}

#[test]
fn bubble_sort_twice_is_bubble_sort_once() {
    let mut once = sample();
    bubble_sort(&mut once);
    let mut twice = once.clone();
    bubble_sort(&mut twice);
    assert_eq!(once, twice);
}

#[test]
fn merge_sort_twice_is_merge_sort_once() {
    let mut once = sample();
    merge_sort(&mut once);
    let mut twice = once.clone();
    merge_sort(&mut twice);
    assert_eq!(once, twice);
}

#[test]
fn both_sorts_agree() {
    let mut by_bubble = sample();
    let mut by_merge = sample();
    bubble_sort(&mut by_bubble);
    merge_sort(&mut by_merge);
    assert_eq!(by_bubble, by_merge);
}

#[test]
fn bubble_sort_is_stable() {
    let mut data = tagged(&[(2, 'a'), (1, 'b'), (2, 'c'), (1, 'd'), (3, 'e'), (2, 'f'), (1, 'g')]);
    bubble_sort(&mut data);
    assert_eq!(
        untagged(&data),
        vec![(1, 'b'), (1, 'd'), (1, 'g'), (2, 'a'), (2, 'c'), (2, 'f'), (3, 'e')]
    );
}

#[test]
fn merge_sort_is_stable() {
    let mut data = tagged(&[(2, 'a'), (1, 'b'), (2, 'c'), (1, 'd'), (3, 'e'), (2, 'f'), (1, 'g')]);
    merge_sort(&mut data);
    assert_eq!(
        untagged(&data),
        vec![(1, 'b'), (1, 'd'), (1, 'g'), (2, 'a'), (2, 'c'), (2, 'f'), (3, 'e')]
    );
}

#[test]
fn sorts_leave_equal_keys_in_place() {
    let all_equal = [(7, 'p'), (7, 'q'), (7, 'r'), (7, 's'), (7, 't')];
    let mut by_bubble = tagged(&all_equal);
    let mut by_merge = tagged(&all_equal);
    bubble_sort(&mut by_bubble);
    merge_sort(&mut by_merge);
    assert_eq!(untagged(&by_bubble), all_equal.to_vec());
    assert_eq!(untagged(&by_merge), all_equal.to_vec());
}

#[test]
fn merge_takes_from_the_left_on_a_tie() {
    let mut data = tagged(&[(1, 'a'), (2, 'b'), (2, 'c'), (1, 'x'), (2, 'y'), (3, 'z')]);
    merge(&mut data, 3);
    assert_eq!(
        untagged(&data),
        vec![(1, 'a'), (1, 'x'), (2, 'b'), (2, 'c'), (2, 'y'), (3, 'z')]
    );
}

#[test]
fn merge_of_sorted_runs_is_sorted_and_keeps_every_element() {
    let mut data: Vec<i64> = vec![-5, 0, 0, 7, 12, -9, 0, 3, 7, 7, 100];
    let before = data.clone();
    merge(&mut data, 5);
    assert!(is_ascending(&data));
    assert!(same_elements(&data, &before));
    assert_eq!(data, vec![-9, -5, 0, 0, 0, 3, 7, 7, 7, 12, 100]);
}

#[test]
fn merge_with_an_empty_left_run_changes_nothing() {
    let mut data = vec![2, 4, 6, 8];
    merge(&mut data, 0);
    assert_eq!(data, vec![2, 4, 6, 8]);
}

#[test]
fn merge_with_an_empty_right_run_changes_nothing() {
    let mut data = vec![2, 4, 6, 8];
    merge(&mut data, 4);
    assert_eq!(data, vec![2, 4, 6, 8]);
}

#[test]
fn merge_of_nothing() {
    let mut data: Vec<u8> = vec![];
    merge(&mut data, 0);
    assert_eq!(data, Vec::<u8>::new());
}

#[test]
fn merge_of_one_element() {
    let mut left_only = vec![5u8];
    merge(&mut left_only, 1);
    assert_eq!(left_only, vec![5]);
    let mut right_only = vec![5u8];
    merge(&mut right_only, 0);
    assert_eq!(right_only, vec![5]);
}

#[test]
fn merge_when_the_right_run_comes_first() {
    let mut data = vec![10, 20, 30, 1, 2];
    merge(&mut data, 3);
    assert_eq!(data, vec![1, 2, 10, 20, 30]);
}

#[test]
fn merge_when_the_left_run_is_used_up_first() {
    let mut data = vec![1, 2, 5, 6, 7, 8];
    merge(&mut data, 2);
    assert_eq!(data, vec![1, 2, 5, 6, 7, 8]);
}

#[test]
fn merge_of_unsorted_runs_still_interleaves_by_the_first_elements() {
    // Neither run is sorted: the cursors still take the lesser head each time,
    // and the rest of the right run follows once the left one is used up.
    let mut data = vec![3, 1, 2, 0];
    merge(&mut data, 2);
    assert_eq!(data, vec![2, 0, 3, 1]);
}

#[test]
fn merge_sort_of_an_odd_length() {
    let mut data = vec![3, 1, 2];
    merge_sort(&mut data);
    assert_eq!(data, vec![1, 2, 3]);
    let mut seven = vec![7, 6, 5, 4, 3, 2, 1];
    merge_sort(&mut seven);
    assert_eq!(seven, vec![1, 2, 3, 4, 5, 6, 7]);
}

#[test]
fn sorts_of_two_elements() {
    let mut a = vec![2, 1];
    bubble_sort(&mut a);
    assert_eq!(a, vec![1, 2]);
    let mut b = vec![2, 1];
    merge_sort(&mut b);
    assert_eq!(b, vec![1, 2]);
    let mut c = vec![1, 2];
    bubble_sort(&mut c);
    assert_eq!(c, vec![1, 2]);
    let mut d = vec![1, 2];
    merge_sort(&mut d);
    assert_eq!(d, vec![1, 2]);
}

#[test]
fn bubble_sort_of_values_that_are_not_copied() {
    let mut words: Vec<String> = ["pear", "apple", "fig", "apple", "kiwi"]
        .iter()
        .map(|w| w.to_string())
        .collect();
    bubble_sort(&mut words);
    assert_eq!(words, vec!["apple", "apple", "fig", "kiwi", "pear"]);
}

#[test]
fn sorts_of_a_part_of_a_slice_leave_the_rest() {
    let mut data = vec![9, 8, 7, 6, 5, 4];
    bubble_sort(&mut data[1..4]);
    assert_eq!(data, vec![9, 6, 7, 8, 5, 4]);
    merge_sort(&mut data[2..]);
    assert_eq!(data, vec![9, 6, 4, 5, 7, 8]);
}

#[test]
fn sorts_of_a_longer_sequence() {
    // A fixed pseudo-random sequence, long enough for several levels of halving.
    let mut state: u64 = 12345;
    let mut data: Vec<i64> = Vec::new();
    for _ in 0..300 {
        state = state.wrapping_mul(6364136223846793005).wrapping_add(1442695040888963407);
        data.push(((state >> 33) % 50) as i64);
    }
    let mut expected = data.clone();
    expected.sort();
    let mut by_bubble = data.clone();
    bubble_sort(&mut by_bubble);
    assert_eq!(by_bubble, expected);
    let mut by_merge = data.clone();
    merge_sort(&mut by_merge);
    assert_eq!(by_merge, expected);
}
