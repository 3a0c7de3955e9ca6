use benchcmp::benchmark::{Benchmark, Status};
use benchcmp::parse::{parse_line, parse_lines, parse_panic_line, FailedMsgBuilder};

fn measured(name: &str, ns: u64, variance: u64, throughput: Option<u64>) -> Benchmark {
    Benchmark {
        name: name.to_string(),
        ns,
        variance,
        throughput,
        status: Status::Measured,
    }
}

#[test]
fn parses_measured_line_with_commas() {
    let b = parse_line("test foo::bar ... bench: 1,234 ns/iter (+/- 56)").unwrap();
    assert_eq!(b.name, "foo::bar");
    assert_eq!(b.ns, 1234);
    assert_eq!(b.variance, 56);
    assert_eq!(b.throughput, None);
    assert!(matches!(b.status, Status::Measured));
}

#[test]
fn parses_measured_line_with_throughput() {
    let b = parse_line("test x ... bench: 10 ns/iter (+/- 2) = 2,314 MB/s").unwrap();
    assert_eq!(b.ns, 10);
    assert_eq!(b.variance, 2);
    assert_eq!(b.throughput, Some(2314));
}

#[test]
fn parses_failed_line() {
    let b = parse_line("test broken ... FAILED").unwrap();
    assert_eq!(b.name, "broken");
    assert_eq!(b.ns, 0);
    assert!(matches!(b.status, Status::Failed(None)));
}

#[test]
fn rejects_unrelated_lines() {
    assert!(parse_line("running 5 tests").is_err());
    assert!(parse_line("").is_err());
    assert!(parse_line("test result: ok. 0 passed").is_err());
}

#[test]
fn rejects_malformed_numbers() {
    assert!(parse_line("test a ... bench: xx ns/iter (+/- 1)").is_err());
    assert!(parse_line("test a ... bench: 1 ns/iter (+/- y)").is_err());
    // a value one past u64::MAX
    assert!(parse_line("test a ... bench: 18446744073709551616 ns/iter (+/- 1)").is_err());
    // a sign is not part of the line grammar
    assert!(parse_line("test a ... bench: +1 ns/iter (+/- 1)").is_err());
}

#[test]
fn round_trips_measured_records() {
    let cases = vec![
        measured("foo::bar", 1234, 56, None),
        measured("a", 0, 0, None),
        measured("m::n::o", 18446744073709551615, 1, Some(99)),
        measured("x", 7, 3, Some(0)),
    ];
    for b in cases {
        let line = b.to_line();
        let back = parse_line(line.as_str()).unwrap();
        assert_eq!(back.name, b.name);
        assert_eq!(back.ns, b.ns);
        assert_eq!(back.variance, b.variance);
        assert_eq!(back.throughput, b.throughput);
        assert!(matches!(back.status, Status::Measured));
    }
}

#[test]
fn canonical_line_shape() {
    let b = measured("foo", 1234, 56, None);
    assert_eq!(b.to_line(), "test foo ... bench: 1234 ns/iter (+/- 56)");
    let b = measured("foo", 1234, 56, Some(78));
    assert_eq!(b.to_line(), "test foo ... bench: 1234 ns/iter (+/- 56) = 78 MB/s");
}

#[test]
fn parses_panic_diagnostic_line() {
    let p = parse_panic_line("thread 'main' panicked at 'boom', src/lib.rs:1:5").unwrap();
    assert_eq!(p.0, "main");
    assert_eq!(p.1, "boom");
    assert!(parse_panic_line("thread main panicked").is_none());
    assert!(parse_panic_line("thread 'main' panicked at ''").is_none());
}

#[test]
fn failure_builder_attaches_section_name() {
    let bld = FailedMsgBuilder::from_line("---- bench::it_works stdout ----").unwrap();
    let msg = bld
        .build("thread 'main' panicked at 'called `Option::unwrap()` on a `None` value'")
        .unwrap();
    assert_eq!(msg.name, "bench::it_works");
    assert_eq!(msg.msg, "called `Option::unwrap()` on a `None` value");
}

#[test]
fn failure_builder_rejects_other_lines() {
    assert!(FailedMsgBuilder::from_line("---- name stderr ----").is_err());
    let bld = FailedMsgBuilder::from_line("---- name stdout ----").unwrap();
    assert!(bld.build("some unrelated line").is_err());
}

#[test]
fn scan_attaches_panic_message_to_failed_record() {
    let lines = vec![
        "running 2 tests".to_string(),
        "test good ... bench: 5 ns/iter (+/- 1)".to_string(),
        "test bad ... FAILED".to_string(),
        "failures:".to_string(),
        "---- bad stdout ----".to_string(),
        "thread 'main' panicked at 'boom', src/lib.rs:1:1".to_string(),
    ];
    let records = parse_lines(&lines);
    assert_eq!(records.len(), 2);
    assert_eq!(records[0].name, "good");
    assert!(matches!(records[0].status, Status::Measured));
    assert_eq!(records[1].name, "bad");
    match &records[1].status {
        Status::Failed(Some(m)) => {
            assert_eq!(m.name, "bad");
            assert_eq!(m.msg, "boom");
        },
        _ => panic!("expected a failed record with a diagnostic"),
    }
}

#[test]
fn scan_without_open_section_ignores_panics() {
    let lines = vec![
        "test bad ... FAILED".to_string(),
        "thread 'main' panicked at 'boom'".to_string(),
    ];
    let records = parse_lines(&lines);
    assert_eq!(records.len(), 1);
    assert!(matches!(records[0].status, Status::Failed(None)));
}
