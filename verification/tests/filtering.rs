use benchcmp::benchmark::{Benchmark, Status};
use benchcmp::normalize::{normalize, split_benchmarks, NormalizationRule, Pattern};

fn measured(name: &str, ns: u64) -> Benchmark {
    Benchmark {
        name: name.to_string(),
        ns,
        variance: 0,
        throughput: None,
        status: Status::Measured,
    }
}

#[test]
fn sign_convention() {
    let improvement = measured("x", 100).compare(measured("x", 50));
    assert_eq!(improvement.diff_ns, -50);
    assert!(!improvement.is_regression());
    let regression = measured("x", 50).compare(measured("x", 100));
    assert_eq!(regression.diff_ns, 50);
    assert!(regression.is_regression());
}

#[test]
fn threshold_is_inclusive_at_the_truncated_percentage() {
    // 9 percent, truncated: below a threshold of 10.
    let nine = measured("x", 100).compare(measured("x", 109));
    assert!(!nine.passes_threshold(10));
    // 10 percent: included.
    let ten = measured("x", 100).compare(measured("x", 110));
    assert!(ten.passes_threshold(10));
    // 10.9 percent still truncates to 10.
    let truncated = measured("x", 1000).compare(measured("x", 1109));
    assert!(truncated.passes_threshold(10));
    assert!(!truncated.passes_threshold(11));
}

#[test]
fn zero_old_measurement_counts_as_infinite_change() {
    let from_zero = measured("x", 0).compare(measured("x", 1));
    assert!(from_zero.passes_threshold(255));
    let zero_to_zero = measured("x", 0).compare(measured("x", 0));
    assert!(!zero_to_zero.passes_threshold(1));
    assert!(zero_to_zero.passes_threshold(0));
}

#[test]
fn direction_filters_keep_zero_diffs() {
    let same = measured("x", 10).compare(measured("x", 10));
    assert!(same.passes_filters(None, true, false));
    assert!(same.passes_filters(None, false, true));
    let better = measured("x", 10).compare(measured("x", 5));
    assert!(better.passes_filters(None, true, false));
    assert!(!better.passes_filters(None, false, true));
    let worse = measured("x", 5).compare(measured("x", 10));
    assert!(!worse.passes_filters(None, true, false));
    assert!(worse.passes_filters(None, false, true));
}

#[test]
fn threshold_filter_combines_with_direction() {
    let worse = measured("x", 100).compare(measured("x", 109));
    assert!(worse.passes_filters(None, false, true));
    assert!(!worse.passes_filters(Some(10), false, true));
    assert!(worse.passes_filters(Some(9), false, true));
}

#[test]
fn normalize_keeps_or_strips_names() {
    assert_eq!(normalize("dense::foo", &NormalizationRule::Keep), "dense::foo");
    let rule = NormalizationRule::StripPrefix("dense::".to_string());
    assert_eq!(normalize("dense::foo", &rule), "foo");
    assert_eq!(normalize("sparse::foo", &rule), "sparse::foo");
}

#[test]
fn normalize_strips_first_pattern_match() {
    let pat = Pattern::new("^[a-z]+::").unwrap();
    let rule = NormalizationRule::StripPattern(pat);
    assert_eq!(normalize("dense::foo", &rule), "foo");
    assert_eq!(normalize("foo", &rule), "foo");
    let unanchored = Pattern::new("::x").unwrap();
    let rule = NormalizationRule::StripPattern(unanchored);
    assert_eq!(normalize("a::xb::xc", &rule), "ab::xc");
}

#[test]
fn invalid_pattern_is_a_configuration_error() {
    assert!(Pattern::new("(").is_err());
    assert!(Pattern::new("[a-z").is_err());
    assert!(Pattern::new("a(b)c").is_ok());
}

#[test]
fn split_benchmarks_divides_one_run_by_prefix() {
    let benches = vec![
        measured("dense::a", 1),
        measured("dense_boxed::a", 2),
        measured("other::a", 3),
    ];
    let (old, new) = split_benchmarks(benches, "dense::", "dense_boxed::");
    assert_eq!(old.len(), 1);
    assert_eq!(old[0].name, "a");
    assert_eq!(old[0].ns, 1);
    assert_eq!(new.len(), 1);
    assert_eq!(new[0].name, "a");
    assert_eq!(new[0].ns, 2);
}

#[test]
fn saturating_difference_at_the_i64_range() {
    let huge = measured("x", 0).compare(measured("x", u64::MAX));
    assert_eq!(huge.diff_ns, i64::MAX);
    let huge_down = measured("x", u64::MAX).compare(measured("x", 0));
    assert_eq!(huge_down.diff_ns, i64::MIN);
}
