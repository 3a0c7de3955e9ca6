use benchcmp::benchmark::{Benchmark, Benchmarks, Status};
use benchcmp::overlap::{find_overlap, sort_by_name};
use benchcmp::parse::parse_line;

fn measured(name: &str, ns: u64) -> Benchmark {
    Benchmark {
        name: name.to_string(),
        ns,
        variance: 0,
        throughput: None,
        status: Status::Measured,
    }
}

fn failed(name: &str) -> Benchmark {
    Benchmark {
        name: name.to_string(),
        ns: 0,
        variance: 0,
        throughput: None,
        status: Status::Failed(None),
    }
}

#[test]
fn overlap_partitions_sorted_inputs() {
    let left = vec![measured("a", 1), measured("b", 2), measured("c", 3)];
    let right = vec![measured("b", 20), measured("c", 30), measured("d", 40)];
    let (only_left, pairs, only_right) = find_overlap(left, right);
    assert_eq!(only_left.len(), 1);
    assert_eq!(only_left[0].name, "a");
    assert_eq!(pairs.len(), 2);
    assert_eq!(pairs[0].0.name, "b");
    assert_eq!(pairs[0].1.ns, 20);
    assert_eq!(pairs[1].0.name, "c");
    assert_eq!(pairs[1].1.ns, 30);
    assert_eq!(only_right.len(), 1);
    assert_eq!(only_right[0].name, "d");
}

#[test]
fn overlap_pairs_duplicates_positionally() {
    let left = vec![measured("a", 1), measured("a", 2)];
    let right = vec![measured("a", 10)];
    let (only_left, pairs, only_right) = find_overlap(left, right);
    assert_eq!(pairs.len(), 1);
    assert_eq!(pairs[0].0.ns, 1);
    assert_eq!(pairs[0].1.ns, 10);
    assert_eq!(only_left.len(), 1);
    assert_eq!(only_left[0].ns, 2);
    assert_eq!(only_right.len(), 0);
}

#[test]
fn overlap_reconstructs_its_inputs() {
    let left = vec![measured("a", 1), measured("b", 2), measured("c", 3)];
    let right = vec![measured("b", 20), measured("x", 40)];
    let (only_left, pairs, only_right) = find_overlap(left, right);
    let mut left_names: Vec<String> = only_left.iter().map(|b| b.name.clone()).collect();
    left_names.extend(pairs.iter().map(|p| p.0.name.clone()));
    left_names.sort();
    assert_eq!(left_names, vec!["a".to_string(), "b".to_string(), "c".to_string()]);
    let mut right_names: Vec<String> = only_right.iter().map(|b| b.name.clone()).collect();
    right_names.extend(pairs.iter().map(|p| p.1.name.clone()));
    right_names.sort();
    assert_eq!(right_names, vec!["b".to_string(), "x".to_string()]);
    // No name is both left-only and right-only.
    for l in &only_left {
        for r in &only_right {
            assert_ne!(l.name, r.name);
        }
    }
}

#[test]
fn sort_by_name_orders_records() {
    let v = vec![measured("pear", 3), measured("apple", 1), measured("mango", 2)];
    let sorted = sort_by_name(v);
    let names: Vec<&str> = sorted.iter().map(|b| b.name.as_str()).collect();
    assert_eq!(names, vec!["apple", "mango", "pear"]);
}

#[test]
fn unpaired_old_record_is_reported_missing() {
    let benches = Benchmarks::from((vec![measured("alpha", 10)], vec![]));
    let paired = benches.paired();
    assert_eq!(paired.comparisons().len(), 0);
    assert_eq!(paired.missing_old().len(), 1);
    assert_eq!(paired.missing_old()[0].name, "alpha");
    assert_eq!(paired.missing_new().len(), 0);
}

#[test]
fn measured_to_failed_pair_is_a_failure_not_a_comparison() {
    let benches = Benchmarks::from((vec![measured("x", 10)], vec![failed("x")]));
    let paired = benches.paired();
    assert_eq!(paired.comparisons().len(), 0);
    assert_eq!(paired.failures().len(), 1);
    assert_eq!(paired.failures()[0].name, "x");
    assert_eq!(paired.new_benchmarks().len(), 0);
}

#[test]
fn failed_to_measured_pair_is_a_new_benchmark() {
    let benches = Benchmarks::from((vec![failed("x")], vec![measured("x", 10)]));
    let paired = benches.paired();
    assert_eq!(paired.comparisons().len(), 0);
    assert_eq!(paired.failures().len(), 0);
    assert_eq!(paired.new_benchmarks().len(), 1);
    assert_eq!(paired.new_benchmarks()[0].ns, 10);
}

#[test]
fn paired_runs_compare_by_name() {
    let old = vec![measured("b", 100), measured("a", 50)];
    let new = vec![measured("a", 60), measured("b", 90), measured("c", 1)];
    let paired = Benchmarks::from((old, new)).paired();
    let cmps = paired.comparisons();
    assert_eq!(cmps.len(), 2);
    assert_eq!(cmps[0].old.name, "a");
    assert_eq!(cmps[0].diff_ns, 10);
    assert_eq!(cmps[1].old.name, "b");
    assert_eq!(cmps[1].diff_ns, -10);
    assert_eq!(paired.missing_new().len(), 1);
    assert_eq!(paired.missing_new()[0].name, "c");
}

#[test]
fn duplicate_names_pair_in_encounter_order() {
    let old = vec![measured("a", 1), measured("b", 5), measured("a", 2)];
    let new = vec![measured("a", 10), measured("a", 20)];
    let paired = Benchmarks::from((old, new)).paired();
    let cmps = paired.comparisons();
    assert_eq!(cmps.len(), 2);
    assert_eq!(cmps[0].old.ns, 1);
    assert_eq!(cmps[0].new.ns, 10);
    assert_eq!(cmps[1].old.ns, 2);
    assert_eq!(cmps[1].new.ns, 20);
    assert_eq!(paired.missing_old().len(), 1);
    assert_eq!(paired.missing_old()[0].name, "b");
}

#[test]
fn scenario_two_report_lines() {
    let old = parse_line("test foo::bar ... bench: 1,234 ns/iter (+/- 56)").unwrap();
    let new = parse_line("test foo::bar ... bench: 1,000 ns/iter (+/- 40)").unwrap();
    let cmp = old.compare(new);
    assert_eq!(cmp.diff_ns, -234);
    let diff_ratio = cmp.diff_ns as f64 / cmp.old.ns as f64;
    assert!((diff_ratio - (-0.1896272)).abs() < 1e-4);
    let speedup = 1.0 / (1.0 + diff_ratio);
    assert!((speedup - 1.234).abs() < 1e-4);
}
