use quicksort::{partition, quicksort, sort};
use rand::Rng;

fn sorted_copy(v: &[i32]) -> Vec<i32> {
    let mut w = v.to_vec();
    w.sort();
    w
}

fn is_non_decreasing(v: &[i32]) -> bool {
    v.windows(2).all(|w| w[0] <= w[1])
}

#[test]
fn sorts_fixed_example() {
    let mut v: Vec<i32> = vec![7, 8, 3, 9, 5, 5, 1, 2, 6, 2];
    sort(&mut v);
    assert_eq!(v, vec![1, 2, 2, 3, 5, 5, 6, 7, 8, 9]);
}

#[test]
fn sorts_fixed_example_by_range() {
    let mut v: Vec<i32> = vec![7, 8, 3, 9, 5, 5, 1, 2, 6, 2];
    let len = v.len();
    quicksort(&mut v, 0, len - 1);
    assert_eq!(v, vec![1, 2, 2, 3, 5, 5, 6, 7, 8, 9]);
}

#[test]
fn singleton_unchanged() {
    let mut v: Vec<i32> = vec![5];
    sort(&mut v);
    assert_eq!(v, vec![5]);
}

#[test]
fn empty_unchanged() {
    let mut v: Vec<i32> = vec![];
    sort(&mut v);
    assert_eq!(v, Vec::<i32>::new());
}

#[test]
fn all_duplicates_terminate() {
    let mut v: Vec<i32> = vec![2, 2, 2, 2];
    sort(&mut v);
    assert_eq!(v, vec![2, 2, 2, 2]);
}

#[test]
fn sorting_twice_changes_nothing() {
    let mut v: Vec<i32> = vec![4, -1, 4, 0, 9, -7, 3];
    sort(&mut v);
    let once = v.clone();
    sort(&mut v);
    assert_eq!(v, once);
    assert_eq!(once, vec![-7, -1, 0, 3, 4, 4, 9]);
}

#[test]
fn extreme_values() {
    let mut v: Vec<i32> = vec![i32::MAX, 0, i32::MIN, -1, i32::MAX, i32::MIN];
    sort(&mut v);
    assert_eq!(v, vec![i32::MIN, i32::MIN, -1, 0, i32::MAX, i32::MAX]);
}

#[test]
fn already_sorted_and_reversed() {
    let mut a: Vec<i32> = (0..50).collect();
    sort(&mut a);
    assert_eq!(a, (0..50).collect::<Vec<i32>>());
    let mut b: Vec<i32> = (0..50).rev().collect();
    sort(&mut b);
    assert_eq!(b, (0..50).collect::<Vec<i32>>());
}

#[test]
fn random_sequences_sorted_and_permuted() {
    let mut rng = rand::thread_rng();
    for round in 0..200usize {
        let len: usize = round % 40;
        let bound: i32 = 1 + (round as i32 % 7) * 15;
        let mut v: Vec<i32> = Vec::new();
        for _ in 0..len {
            v.push(rng.gen_range(-bound, bound + 1));
        }
        let expected = sorted_copy(&v);
        sort(&mut v);
        assert!(is_non_decreasing(&v));
        assert_eq!(v, expected);
    }
}

#[test]
fn partition_splits_around_middle_value() {
    let original: Vec<i32> = vec![7, 8, 3, 9, 5, 5, 1, 2, 6, 2];
    let mut v = original.clone();
    let pivot = original[4];
    let p = partition(&mut v, 0, 9);
    assert!(p < 9);
    assert!(v[..=p].iter().all(|&x| x <= pivot));
    assert!(v[p + 1..].iter().all(|&x| x >= pivot));
    assert_eq!(sorted_copy(&v), sorted_copy(&original));
}

#[test]
fn partition_two_elements() {
    let mut v: Vec<i32> = vec![2, 1];
    let p = partition(&mut v, 0, 1);
    assert_eq!(p, 0);
    assert_eq!(v, vec![1, 2]);
}

#[test]
fn partition_leaves_outside_untouched() {
    let mut v: Vec<i32> = vec![100, 4, 2, 2, 9, 1, -100];
    let p = partition(&mut v, 1, 5);
    assert!(1 <= p && p < 5);
    assert_eq!(v[0], 100);
    assert_eq!(v[6], -100);
    let pivot = 2;
    assert!(v[1..=p].iter().all(|&x| x <= pivot));
    assert!(v[p + 1..=5].iter().all(|&x| x >= pivot));
}

#[test]
fn quicksort_sorts_only_its_range() {
    let mut v: Vec<i32> = vec![9, 5, 3, 4, 1, 0];
    quicksort(&mut v, 1, 4);
    assert_eq!(v, vec![9, 1, 3, 4, 5, 0]);
}

#[test]
fn quicksort_empty_range_is_noop() {
    let mut v: Vec<i32> = vec![3, 2, 1];
    quicksort(&mut v, 2, 1);
    assert_eq!(v, vec![3, 2, 1]);
    quicksort(&mut v, 1, 1);
    assert_eq!(v, vec![3, 2, 1]);
}
