use sort_bench::sorts::{
    bubble_sort, partition, BubbleSort, InsertionSort, QuickSort, RustStdSort, SortingMethod,
};

fn is_sorted(v: &[i32]) -> bool {
    v.windows(2).all(|w| w[0] <= w[1])
}

fn samples() -> Vec<Vec<i32>> {
    let mut long: Vec<i32> = (0..500).map(|i| (i * 7919 + 13) % 211 - 100).collect();
    long.push(i32::MIN);
    long.push(i32::MAX);
    vec![
        vec![],
        vec![42],
        vec![2, 1],
        vec![1, 2],
        vec![5, 5, 5, 5, 5, 5, 5, 5, 5, 5, 5, 5, 5, 5, 5, 5, 5, 5, 5, 5, 5, 5, 5, 5, 5],
        (0..100).collect(),
        (0..100).rev().collect(),
        (0..64).map(|i| i % 3).collect(),
        long,
    ]
}

fn check_strategy<S: SortingMethod>() {
    for input in samples() {
        let mut once = input.clone();
        S::sort(&mut once);
        assert!(is_sorted(&once), "{} left {:?}", S::name(), once);
        let mut expected = input.clone();
        expected.sort();
        assert_eq!(once, expected);
        let mut twice = once.clone();
        S::sort(&mut twice);
        assert_eq!(twice, once);
    }
}

#[test]
fn std_sort_sorts() {
    check_strategy::<RustStdSort>();
}

#[test]
fn quicksort_sorts() {
    check_strategy::<QuickSort>();
}

#[test]
fn bubble_sort_strategy_sorts() {
    check_strategy::<BubbleSort>();
}

#[test]
fn insertion_sort_sorts() {
    check_strategy::<InsertionSort>();
}

#[test]
fn bubble_sort_function() {
    let mut v = vec![3, -1, 2, 2, 0];
    bubble_sort(&mut v);
    assert_eq!(v, vec![-1, 0, 2, 2, 3]);
}

#[test]
fn quicksort_on_adversarial_inputs() {
    // The smallest value last makes the first partition put the pivot at index 0.
    let mut v: Vec<i32> = (1..60).collect();
    v.push(0);
    QuickSort::sort(&mut v);
    assert_eq!(v, (0..60).collect::<Vec<i32>>());
    let mut w: Vec<i32> = (0..300).map(|i| if i % 2 == 0 { i } else { 300 - i }).collect();
    let mut expected = w.clone();
    expected.sort();
    QuickSort::sort(&mut w);
    assert_eq!(w, expected);
}

#[test]
fn partition_two_values() {
    let mut v = vec![9, 4];
    let p = partition(&mut v);
    assert_eq!(v, vec![4, 9]);
    assert!(p <= 2);
    assert_eq!(p, 0);
}

#[test]
fn partition_short_slices() {
    let mut empty: Vec<i32> = vec![];
    assert_eq!(partition(&mut empty), 1);
    let mut one = vec![7];
    assert_eq!(partition(&mut one), 1);
    assert_eq!(one, vec![7]);
}

#[test]
fn partition_places_pivot() {
    let mut v = vec![8, 1, 9, 3, 7, 2, 5];
    let p = partition(&mut v);
    assert_eq!(p, 3);
    assert_eq!(v[p], 5);
    assert!(v[..p].iter().all(|&x| x <= 5));
    assert!(v[p + 1..].iter().all(|&x| x > 5));
}

#[test]
fn strategy_names_and_claims() {
    assert_eq!(<RustStdSort as SortingMethod>::name(), "Rust Standard library");
    assert_eq!(<QuickSort as SortingMethod>::name(), "Verq's Quicksort");
    assert_eq!(<BubbleSort as SortingMethod>::name(), "Basic bubblesort");
    assert_eq!(<InsertionSort as SortingMethod>::name(), "Basic insertion sort");
    assert!(!<RustStdSort as SortingMethod>::stable());
    assert!(!<QuickSort as SortingMethod>::stable());
    assert!(!<BubbleSort as SortingMethod>::stable());
    assert!(!<InsertionSort as SortingMethod>::stable());
}
