use benchcmp::benchmark::{Benchmark, Status};
use benchcmp::utils::{commafy, drop_commas, drop_commas_and_parse, fmt_thousands_sep, parse_commas};

fn measured(name: &str, ns: u64, variance: u64, throughput: Option<u64>) -> Benchmark {
    Benchmark {
        name: name.to_string(),
        ns,
        variance,
        throughput,
        status: Status::Measured,
    }
}

#[test]
fn commafy_groups_digits() {
    assert_eq!(commafy(0), "0");
    assert_eq!(commafy(100), "100");
    assert_eq!(commafy(1000), "1,000");
    assert_eq!(commafy(1234567), "1,234,567");
    assert_eq!(commafy(18446744073709551615), "18,446,744,073,709,551,615");
}

#[test]
fn thousands_separator_is_configurable() {
    assert_eq!(fmt_thousands_sep(12345, ','), "12,345");
    assert_eq!(fmt_thousands_sep(12345, ' '), "12 345");
    assert_eq!(fmt_thousands_sep(999, '.'), "999");
}

#[test]
fn grouping_strips_back_to_plain_decimal() {
    let values: Vec<u64> = vec![0, 7, 999, 1000, 123456, 9876543210, 18446744073709551615];
    for n in values {
        let grouped = commafy(n);
        let stripped: String = grouped.chars().filter(|&c| c != ',').collect();
        assert_eq!(stripped, format!("{}", n));
        let mut parts = grouped.split(',');
        let first = parts.next().unwrap();
        assert!(first.len() >= 1 && first.len() <= 3);
        for part in parts {
            assert_eq!(part.len(), 3);
        }
    }
}

#[test]
fn drop_commas_removes_only_commas() {
    assert_eq!(drop_commas("1,2,3"), "123");
    assert_eq!(drop_commas("abc"), "abc");
    assert_eq!(drop_commas(",,"), "");
}

#[test]
fn parse_commas_reads_grouped_numbers() {
    assert_eq!(parse_commas("1,234"), Some(1234));
    assert_eq!(parse_commas("0"), Some(0));
    assert_eq!(parse_commas("18446744073709551615"), Some(18446744073709551615));
    assert_eq!(parse_commas("18446744073709551616"), None);
    assert_eq!(parse_commas(""), None);
    assert_eq!(parse_commas(","), None);
    assert_eq!(parse_commas("12a"), None);
}

#[test]
fn parse_commas_accepts_one_leading_plus() {
    assert_eq!(parse_commas("+123"), Some(123));
    assert_eq!(parse_commas(",+1"), Some(1));
    assert_eq!(parse_commas("+1,234"), Some(1234));
    assert_eq!(parse_commas("+"), None);
    assert_eq!(parse_commas("++1"), None);
    assert_eq!(parse_commas("1+2"), None);
    assert_eq!(drop_commas_and_parse("+4,321"), Some(4321));
}

#[test]
fn drop_commas_and_parse_reads_usize() {
    assert_eq!(drop_commas_and_parse("4,321"), Some(4321));
    assert_eq!(drop_commas_and_parse("x"), None);
}

#[test]
fn fmt_ns_renders_measurement_column() {
    let plain = measured("x", 1234567, 56, None);
    assert_eq!(plain.fmt_ns(false), "1,234,567");
    assert_eq!(plain.fmt_ns(true), "1,234,567 (+/- 56)");
    let with_tp = measured("x", 1234567, 56, Some(2314));
    assert_eq!(with_tp.fmt_ns(false), "1,234,567 (2314 MB/s)");
    assert_eq!(with_tp.fmt_ns(true), "1,234,567 (+/- 56) (2314 MB/s)");
}

#[test]
fn fmt_diff_ns_carries_the_sign() {
    let faster = measured("x", 1234, 0, None).compare(measured("x", 1000, 0, None));
    assert_eq!(faster.fmt_diff_ns(), "-234");
    let slower = measured("x", 1000, 0, None).compare(measured("x", 2500, 0, None));
    assert_eq!(slower.fmt_diff_ns(), "1,500");
}
