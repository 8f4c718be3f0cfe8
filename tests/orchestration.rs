use rand::rngs::StdRng;
use rand::SeedableRng;
use sort_bench::distributions::{Reverse, Shuffled, Sorted};
use sort_bench::harness::{
    bench, is_non_descending, summarize_runs, tabulate, BenchmarkData, BenchmarkResult,
    DistributionResult, HarnessInputProvider, ResultTable, SizeResults, SortingMethodProvider,
};
use sort_bench::sorts::{BubbleSort, InsertionSort, QuickSort};

fn find<'a>(part: &'a [SizeResults], size: usize, name: &str) -> Option<&'a Vec<(String, BenchmarkResult)>> {
    part.iter()
        .find(|s| s.size == size)
        .and_then(|s| s.algorithms.iter().find(|a| a.name == name))
        .map(|a| &a.results)
}

#[test]
fn bench_two_lengths_two_distributions_two_algorithms() {
    let mut rng = StdRng::seed_from_u64(3);
    let table: ResultTable = bench::<(Sorted, Shuffled), (BubbleSort, QuickSort)>(&mut rng, &[10, 20], 3);
    assert!(table.stable.is_empty());
    assert_eq!(table.unstable.len(), 2);
    for size in [10usize, 20] {
        for alg in ["Basic bubblesort", "Verq's Quicksort"] {
            let entries = find(&table.unstable, size, alg).expect("entry present");
            assert_eq!(entries.len(), 2);
            assert_eq!(entries[0].0, "Sorted");
            assert_eq!(entries[1].0, "Shuffled");
            assert!(entries.iter().all(|e| e.1.success));
        }
    }
}

#[test]
fn bench_partitions_by_stability() {
    let mut rng = StdRng::seed_from_u64(5);
    let table = bench::<(Reverse,), (InsertionSort, QuickSort)>(&mut rng, &[4, 8, 16], 2);
    for part in &table.unstable {
        assert_eq!(part.algorithms.len(), 2);
        for alg in &part.algorithms {
            assert!(alg.name == "Basic insertion sort" || alg.name == "Verq's Quicksort");
        }
    }
    assert!(table.stable.is_empty());
    assert_eq!(table.unstable.len(), 3);
    let results = vec![
        BenchmarkData {
            result: BenchmarkResult { time: 1, success: true },
            name: "claimed stable".to_string(),
            stable: true,
        },
        BenchmarkData {
            result: BenchmarkResult { time: 2, success: true },
            name: "claimed unstable".to_string(),
            stable: false,
        },
    ];
    let inputs = vec![DistributionResult { name: "d".to_string(), data: vec![1] }];
    let t = tabulate(&inputs, &results);
    assert!(find(&t.stable, 1, "claimed stable").is_some());
    assert!(find(&t.unstable, 1, "claimed stable").is_none());
    assert!(find(&t.unstable, 1, "claimed unstable").is_some());
    assert!(find(&t.stable, 1, "claimed unstable").is_none());
}

#[test]
fn generate_input_catalogue_order() {
    let mut rng = StdRng::seed_from_u64(1);
    let inputs = <(Sorted, Reverse) as HarnessInputProvider>::generate_input(&mut rng, &[2, 3]);
    let names: Vec<&str> = inputs.iter().map(|d| d.name.as_str()).collect();
    assert_eq!(names, vec!["Sorted", "Sorted", "Reversed", "Reversed"]);
    assert_eq!(inputs[0].data, vec![0, 1]);
    assert_eq!(inputs[1].data, vec![0, 1, 2]);
    assert_eq!(inputs[2].data, vec![2, 1]);
    assert_eq!(inputs[3].data, vec![3, 2, 1]);
}

#[test]
fn run_all_blocks_per_strategy() {
    let data = vec![
        DistributionResult { name: "a".to_string(), data: vec![3, 1, 2] },
        DistributionResult { name: "b".to_string(), data: vec![] },
    ];
    let out = <(BubbleSort, InsertionSort) as SortingMethodProvider>::run_all(&data, 2);
    assert_eq!(out.len(), 4);
    assert_eq!(out[0].name, "Basic bubblesort");
    assert_eq!(out[1].name, "Basic bubblesort");
    assert_eq!(out[2].name, "Basic insertion sort");
    assert_eq!(out[3].name, "Basic insertion sort");
    assert!(!out[0].stable);
    assert!(out.iter().all(|d| d.result.success));
}

#[test]
fn tabulate_cycles_inputs_and_keeps_order() {
    let inputs = vec![
        DistributionResult { name: "x".to_string(), data: vec![1, 2] },
        DistributionResult { name: "y".to_string(), data: vec![1, 2, 3] },
        DistributionResult { name: "z".to_string(), data: vec![5, 6] },
    ];
    let rec = |name: &str, stable: bool, time: u128| BenchmarkData {
        result: BenchmarkResult { time, success: time % 2 == 0 },
        name: name.to_string(),
        stable,
    };
    let results = vec![
        rec("p", false, 1),
        rec("p", false, 2),
        rec("p", false, 3),
        rec("q", true, 4),
        rec("q", true, 5),
        rec("q", true, 6),
    ];
    let table = tabulate(&inputs, &results);
    let p_short = find(&table.unstable, 2, "p").unwrap();
    assert_eq!(p_short.len(), 2);
    assert_eq!((p_short[0].0.as_str(), p_short[0].1.time), ("x", 1));
    assert_eq!((p_short[1].0.as_str(), p_short[1].1.time), ("z", 3));
    let p_long = find(&table.unstable, 3, "p").unwrap();
    assert_eq!(p_long.len(), 1);
    assert_eq!(p_long[0].1.time, 2);
    let q2 = find(&table.stable, 2, "q").unwrap();
    assert_eq!(q2.iter().map(|e| e.1.time).collect::<Vec<_>>(), vec![4, 6]);
    assert!(q2[1].1.success);
    assert!(find(&table.unstable, 2, "q").is_none());
    assert!(find(&table.stable, 3, "p").is_none());
    let empty = tabulate(&[], &results);
    assert!(empty.unstable.is_empty() && empty.stable.is_empty());
}

#[test]
fn non_descending_check() {
    assert!(is_non_descending(&[]));
    assert!(is_non_descending(&[1]));
    assert!(is_non_descending(&[1, 1, 2]));
    assert!(!is_non_descending(&[2, 1]));
    assert!(!is_non_descending(&[1, 3, 2, 4]));
}

#[test]
fn summarize_runs_mean_and_success() {
    let good = vec![vec![1, 2], vec![0, 0]];
    let r = summarize_runs(10, &good, 3);
    assert_eq!(r.time, 3);
    assert!(r.success);
    let bad = vec![vec![1, 2], vec![2, 1]];
    let r = summarize_runs(10, &bad, 2);
    assert_eq!(r.time, 5);
    assert!(!r.success);
}
