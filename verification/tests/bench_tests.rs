use gensuite_helper::bench::{bench_bigint, bench_matmul, bench_sieve};
use gensuite_helper::sampling::{ratio_centi, stats};

fn field<'a>(report: &'a str, label: &str) -> &'a str {
    for line in report.lines() {
        if let Some(rest) = line.strip_prefix(label) {
            return rest;
        }
    }
    panic!("label {:?} missing in report {:?}", label, report);
}

#[test]
fn zero_seconds_sieve_report() {
    let r = bench_sieve(0);
    assert_eq!(
        r,
        "Iterations: 0\nSieves/sec avg: 0.00\nSieves/sec min: 0.00\nSieves/sec max: 0.00\nSieves/sec overall: 0.00\nLimit: 2000000\nPrimes: 0"
    );
}

#[test]
fn zero_seconds_matmul_report() {
    let r = bench_matmul(0);
    assert_eq!(
        r,
        "Iterations: 0\nGFLOP/s avg: 0.00\nGFLOP/s min: 0.00\nGFLOP/s max: 0.00\nGFLOP/s overall: 0.00\nSize: 128x128"
    );
}

#[test]
fn zero_seconds_bigint_report() {
    let r = bench_bigint(0);
    assert_eq!(
        r,
        "Iterations: 0\nMultiplies/sec avg: 0.00\nMultiplies/sec min: 0.00\nMultiplies/sec max: 0.00\nMultiplies/sec overall: 0.00\nDigits: 1"
    );
}

#[test]
fn one_second_sieve_run_reports_ordered_stats() {
    let r = bench_sieve(1);
    let iters: u64 = field(&r, "Iterations: ").parse().unwrap();
    assert!(iters > 0);
    let primes: u64 = field(&r, "Primes: ").parse().unwrap();
    assert_eq!(primes, 148_933);
    let mn: f64 = field(&r, "Sieves/sec min: ").parse().unwrap();
    let avg: f64 = field(&r, "Sieves/sec avg: ").parse().unwrap();
    let mx: f64 = field(&r, "Sieves/sec max: ").parse().unwrap();
    let overall: f64 = field(&r, "Sieves/sec overall: ").parse().unwrap();
    assert!(mn <= avg && avg <= mx);
    assert!(overall > 0.0);
}

#[test]
fn one_second_bigint_run_reports_digit_count() {
    let r = bench_bigint(1);
    let iters: u64 = field(&r, "Iterations: ").parse().unwrap();
    assert!(iters > 0);
    let digits: u64 = field(&r, "Digits: ").parse().unwrap();
    // the product of the two 4097-digit operands has 8193 digits, and the
    // accumulated sum gains about log10(iterations) more
    assert!(digits >= 8193 && digits <= 8193 + 12, "digits = {}", digits);
    let mn: f64 = field(&r, "Multiplies/sec min: ").parse().unwrap();
    let avg: f64 = field(&r, "Multiplies/sec avg: ").parse().unwrap();
    let mx: f64 = field(&r, "Multiplies/sec max: ").parse().unwrap();
    assert!(mn <= avg && avg <= mx);
}

#[test]
fn one_second_matmul_run_reports_throughput() {
    let r = bench_matmul(1);
    let iters: u64 = field(&r, "Iterations: ").parse().unwrap();
    assert!(iters > 0);
    assert!(r.ends_with("Size: 128x128"));
    let mn: f64 = field(&r, "GFLOP/s min: ").parse().unwrap();
    let avg: f64 = field(&r, "GFLOP/s avg: ").parse().unwrap();
    let mx: f64 = field(&r, "GFLOP/s max: ").parse().unwrap();
    let overall: f64 = field(&r, "GFLOP/s overall: ").parse().unwrap();
    assert!(mn <= avg && avg <= mx);
    assert!(overall > 0.0);
}

#[test]
fn stats_of_samples() {
    assert_eq!(stats(&vec![]), (0, 0, 0));
    assert_eq!(stats(&vec![700]), (700, 700, 700));
    assert_eq!(stats(&vec![200, 100, 400]), (100, 233, 400));
}

#[test]
fn ratio_in_centi_units() {
    // five units of work in one second is 5.00 units per second
    assert_eq!(ratio_centi(5, 1_000_000_000, 100_000_000_000), 500);
    // zero elapsed time reports zero instead of dividing
    assert_eq!(ratio_centi(5, 0, 100_000_000_000), 0);
    // rounding to the nearest hundredth
    assert_eq!(ratio_centi(1, 3_000_000_000, 100_000_000_000), 33);
}
