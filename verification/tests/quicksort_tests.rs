use sorting::quicksort::{partition, sort, split_sort};
use std::cmp::Ordering;

/// A record ordered by `key` alone, so that records with equal keys tie.
#[derive(Clone, Copy, Debug)]
struct Ranked {
    key: i32,
    tag: char,
}

impl PartialEq for Ranked {
    fn eq(&self, other: &Self) -> bool {
        self.key == other.key
    }
}

impl PartialOrd for Ranked {
    fn partial_cmp(&self, other: &Self) -> Option<Ordering> {
        self.key.partial_cmp(&other.key)
    }
}

fn ranked(pairs: &[(i32, char)]) -> Vec<Ranked> {
    pairs.iter().map(|&(key, tag)| Ranked { key, tag }).collect()
}

#[test]
fn test_quicksort_ints() {
    let mut vec = vec![1, 5, 4, 3, 2, 0];
    sort(&mut vec);
    assert_eq!(vec, vec![0, 1, 2, 3, 4, 5]);
}

#[test]
fn test_quicksort_chars() {
    let mut vec = vec!['b', 'c', 'e', 'a', 'y'];
    sort(&mut vec);
    assert_eq!(vec, vec!['a', 'b', 'c', 'e', 'y']);
}

#[test]
fn test_quicksort_duplicates() {
    let mut vec = vec![1, -1, 1, -1, 1, -1, 1, -1];
    sort(&mut vec);
    assert_eq!(vec, vec![-1, -1, -1, -1, 1, 1, 1, 1]);
}

#[test]
fn test_quicksort_singleton() {
    let mut vec = vec![1];
    sort(&mut vec);
    assert_eq!(vec, vec![1]);
}

#[test]
fn test_quicksort_empty() {
    let mut vec: Vec<bool> = Vec::new();
    sort(&mut vec);
    assert_eq!(vec, Vec::<bool>::new());
}

#[test]
fn quicksort_negative_and_repeated() {
    let mut vec = vec![1, 5, 4, 3, 2, 0, 1, -10];
    sort(&mut vec);
    assert_eq!(vec, vec![-10, 0, 1, 1, 2, 3, 4, 5]);
}

#[test]
fn quicksort_two_elements() {
    let mut vec = vec![2, 1];
    sort(&mut vec);
    assert_eq!(vec, vec![1, 2]);
}

#[test]
fn quicksort_sorted_and_reversed_inputs() {
    let mut up: Vec<i64> = (0..64).collect();
    sort(&mut up);
    assert_eq!(up, (0..64).collect::<Vec<i64>>());
    let mut down: Vec<i64> = (0..64).rev().collect();
    sort(&mut down);
    assert_eq!(down, (0..64).collect::<Vec<i64>>());
}

#[test]
fn quicksort_every_length_up_to_forty() {
    for length in 0..=40usize {
        let input: Vec<u64> = (0..length as u64).map(|i| (i * 7919 + 13) % 31).collect();
        let mut expected = input.clone();
        expected.sort();
        let mut vec = input.clone();
        sort(&mut vec);
        assert_eq!(vec, expected);
    }
}

#[test]
fn quicksort_strings_without_clone() {
    let mut vec = vec![String::from("pear"), String::from("apple"), String::from("fig")];
    sort(&mut vec);
    assert_eq!(vec, vec!["apple", "fig", "pear"]);
}

#[test]
fn quicksort_floats_without_nan() {
    let mut vec = vec![2.5f64, -1.0, 0.0, 2.5, 1.0e9, -0.5];
    sort(&mut vec);
    assert_eq!(vec, vec![-1.0, -0.5, 0.0, 2.5, 2.5, 1.0e9]);
}

#[test]
fn quicksort_with_nan_is_still_a_rearrangement() {
    let mut vec = vec![3.0f64, f64::NAN, 1.0, 2.0];
    sort(&mut vec);
    assert_eq!(vec.len(), 4);
    assert_eq!(vec.iter().filter(|x| x.is_nan()).count(), 1);
    for value in [1.0f64, 2.0, 3.0] {
        assert_eq!(vec.iter().filter(|&&x| x == value).count(), 1);
    }
}

#[test]
fn quicksort_is_a_rearrangement() {
    let input = vec![9u8, 3, 7, 3, 0, 255, 9, 9, 1, 3];
    let mut vec = input.clone();
    sort(&mut vec);
    assert_eq!(vec.len(), input.len());
    for value in 0..=255u8 {
        let before = input.iter().filter(|&&x| x == value).count();
        let after = vec.iter().filter(|&&x| x == value).count();
        assert_eq!(before, after);
    }
}

#[test]
fn quicksort_result_is_ordered() {
    let mut vec: Vec<u32> = (0..200u32).map(|i| i.wrapping_mul(2654435761) % 1000).collect();
    sort(&mut vec);
    for i in 1..vec.len() {
        assert!(vec[i - 1] <= vec[i]);
    }
}

#[test]
fn quicksort_sorted_input_keeps_its_keys() {
    let input = ranked(&[(1, 'a'), (1, 'b'), (2, 'c'), (3, 'd'), (3, 'e')]);
    let mut vec = input.clone();
    sort(&mut vec);
    let keys: Vec<i32> = vec.iter().map(|r| r.key).collect();
    assert_eq!(keys, vec![1, 1, 2, 3, 3]);
    let mut tags: Vec<char> = vec.iter().map(|r| r.tag).collect();
    tags.sort();
    assert_eq!(tags, vec!['a', 'b', 'c', 'd', 'e']);
}

#[test]
fn quicksort_may_reorder_ties() {
    // The pivot, the last of two tying records, is moved in front of the other.
    let mut vec = ranked(&[(1, 'a'), (1, 'b')]);
    sort(&mut vec);
    let tags: Vec<char> = vec.iter().map(|r| r.tag).collect();
    assert_eq!(tags, vec!['b', 'a']);
}

#[test]
fn quicksort_twice_same_as_once() {
    let mut once = vec![5, 3, 8, 3, 1, 9, 5];
    sort(&mut once);
    let mut twice = once.clone();
    sort(&mut twice);
    assert_eq!(once, vec![1, 3, 3, 5, 5, 8, 9]);
    assert_eq!(twice, once);
}

#[test]
fn partition_places_the_pivot() {
    let mut vec = vec![3, 1, 4, 1, 5, 2];
    let pivot = partition(&mut vec, 0, 5);
    assert_eq!(pivot, 2);
    assert_eq!(vec, vec![1, 1, 2, 3, 5, 4]);
}

#[test]
fn partition_with_smallest_pivot() {
    let mut vec = vec![1, 5, 4, 3, 2, 0];
    let pivot = partition(&mut vec, 0, 5);
    assert_eq!(pivot, 0);
    assert_eq!(vec, vec![0, 5, 4, 3, 2, 1]);
}

#[test]
fn partition_with_largest_pivot() {
    let mut vec = vec![2, 0, 1, 9];
    let pivot = partition(&mut vec, 0, 3);
    assert_eq!(pivot, 3);
    assert_eq!(vec, vec![2, 0, 1, 9]);
}

#[test]
fn partition_puts_equal_elements_behind_the_pivot() {
    let mut vec = ranked(&[(2, 'a'), (1, 'b'), (2, 'c'), (0, 'd'), (2, 'e')]);
    let pivot = partition(&mut vec, 0, 4);
    assert_eq!(pivot, 2);
    let got: Vec<(i32, char)> = vec.iter().map(|r| (r.key, r.tag)).collect();
    assert_eq!(got, vec![(1, 'b'), (0, 'd'), (2, 'e'), (2, 'a'), (2, 'c')]);
}

#[test]
fn partition_of_an_inner_range() {
    let mut vec = vec![9, 7, 2, 8, 5, 0];
    let pivot = partition(&mut vec, 1, 4);
    assert_eq!(pivot, 2);
    assert_eq!(vec, vec![9, 2, 5, 8, 7, 0]);
}

#[test]
fn partition_of_a_single_element() {
    let mut vec = vec![4, 6, 5];
    let pivot = partition(&mut vec, 1, 1);
    assert_eq!(pivot, 1);
    assert_eq!(vec, vec![4, 6, 5]);
}

#[test]
fn split_sort_leaves_the_rest_alone() {
    let mut vec = vec![9, 8, 3, 1, 2, 7, 6];
    split_sort(&mut vec, 2, 4);
    assert_eq!(vec, vec![9, 8, 1, 2, 3, 7, 6]);
}

#[test]
fn split_sort_of_an_empty_or_single_range() {
    let mut vec = vec![3, 2, 1];
    split_sort(&mut vec, 1, 1);
    assert_eq!(vec, vec![3, 2, 1]);
    split_sort(&mut vec, 2, 1);
    assert_eq!(vec, vec![3, 2, 1]);
    let mut none: Vec<i32> = Vec::new();
    split_sort(&mut none, 0, 0);
    assert_eq!(none, Vec::<i32>::new());
}

#[test]
fn split_sort_with_pivot_at_the_lower_bound() {
    // The pivot, 0, comes to rest at index 0: there is no range to its left.
    let mut vec = vec![4, 3, 2, 1, 0];
    split_sort(&mut vec, 0, 4);
    assert_eq!(vec, vec![0, 1, 2, 3, 4]);
    // The same with a range that starts past index 0.
    let mut inner = vec![7, 4, 3, 1, 7];
    split_sort(&mut inner, 1, 3);
    assert_eq!(inner, vec![7, 1, 3, 4, 7]);
}
