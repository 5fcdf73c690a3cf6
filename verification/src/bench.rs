//! Time-boxed CPU benchmarks under an adaptive sampling harness.
//!
//! Each run is partitioned into one-second windows; the harness re-checks
//! both the window deadline and the total deadline before every unit of
//! work, records one throughput sample per window with positive measured
//! duration, and reports min/avg/max over the samples beside an overall
//! figure computed across the whole run.

use vstd::prelude::*;

use crate::bignum::{big_add, big_from_u64, big_mul, big_to_dec_bytes, big_value};
use crate::clock::{elapsed_nanos, instant_now};
use crate::digits::{ascii_to_string, dec_bytes, dec_bytes_int};
use crate::primes::{prime_count_upto, sieve_count};
use crate::report::{
    all_bytes_ascii, ascii_bytes, centi_bytes, push_ascii, push_centi, push_u64,
};
use crate::sampling::{
    lemma_ratio_zero, ratio_centi, ratio_centi_spec, seq_avg, seq_max, seq_min, stats,
};

verus! {

/// Scale that turns units-per-nanosecond into hundredths of units-per-second.
pub open spec fn per_second_centi_scale() -> int {
    100_000_000_000
}

/// Floating-point operations counted for one 128 x 128 multiply-accumulate:
/// two per inner step, `2 * 128 * 128 * 128` in all.
pub open spec fn matmul_unit_flops() -> int {
    4_194_304
}

/// The common upper bound on `seconds`, so the total budget in nanoseconds
/// fits the clock arithmetic.
pub open spec fn max_bench_seconds() -> int {
    18_000_000_000
}

/// The statistics block shared by every report: throughput avg, min, max
/// over the window samples, then the overall figure.
pub open spec fn stats_bytes(unit: Seq<char>, samples: Seq<u64>, overall: u64) -> Seq<u8> {
    ascii_bytes(unit) + ascii_bytes(" avg: "@) + centi_bytes(seq_avg(samples)) + ascii_bytes(unit)
        + ascii_bytes(" min: "@) + centi_bytes(seq_min(samples)) + ascii_bytes(unit)
        + ascii_bytes(" max: "@) + centi_bytes(seq_max(samples)) + ascii_bytes(unit)
        + ascii_bytes(" overall: "@) + centi_bytes(overall)
}

pub open spec fn sieve_report_chars(
    iters: u64,
    samples: Seq<u64>,
    elapsed: u64,
    primes: u64,
) -> Seq<char> {
    (ascii_bytes("Iterations: "@) + dec_bytes(iters as nat) + stats_bytes(
        "\nSieves/sec"@,
        samples,
        ratio_centi_spec(iters as int, elapsed as int, per_second_centi_scale()) as u64,
    ) + ascii_bytes("\nLimit: "@) + dec_bytes(2_000_000) + ascii_bytes("\nPrimes: "@) + dec_bytes(
        primes as nat,
    )).map_values(|b: u8| b as char)
}

/// Repeatedly count the primes below two million for up to `seconds`
/// seconds, and report the sieve throughput.
#[verifier::rlimit(100)]
pub fn bench_sieve(seconds: u64) -> (r: String)
    requires
        seconds <= max_bench_seconds(),
    ensures
        exists|iters: u64, samples: Seq<u64>, elapsed: u64, primes: u64|
            r@ == sieve_report_chars(iters, samples, elapsed, primes) && (iters == 0 ==> primes
                == 0) && (iters > 0 ==> primes == prime_count_upto(2_000_000)),
        seconds == 0 ==> r@ == sieve_report_chars(0, Seq::empty(), 0, 0),
{
    let limit: usize = 2_000_000;
    let total: u64 = seconds * 1_000_000_000;
    let start = instant_now();
    let mut iters: u64 = 0;
    let mut primes_count: usize = 0;
    let mut samples: Vec<u64> = Vec::new();
    let mut windows: u64 = 0;
    while windows < u64::MAX && elapsed_nanos(&start) < total
        invariant
            total == seconds * 1_000_000_000,
            limit == 2_000_000,
            iters == 0 ==> primes_count == 0,
            iters > 0 ==> primes_count == prime_count_upto(2_000_000),
            seconds == 0 ==> iters == 0 && samples@ =~= Seq::<u64>::empty(),
        decreases u64::MAX - windows,
    {
        let wstart = instant_now();
        let mut w_iters: u64 = 0;
        while w_iters < u64::MAX && iters < u64::MAX && elapsed_nanos(&wstart) < 1_000_000_000
            && elapsed_nanos(&start) < total
            invariant
                total == seconds * 1_000_000_000,
                limit == 2_000_000,
                iters == 0 ==> primes_count == 0,
                iters > 0 ==> primes_count == prime_count_upto(2_000_000),
                seconds == 0 ==> iters == 0,
            decreases u64::MAX - w_iters,
        {
            primes_count = sieve_count(limit);
            iters += 1;
            w_iters += 1;
        }
        let wnanos = elapsed_nanos(&wstart);
        if wnanos > 0 {
            proof {
                lemma_scaled_fits(w_iters as int, wnanos as int);
            }
            let s = ratio_centi(w_iters as u128, wnanos, 100_000_000_000);
            samples.push(s);
        }
        windows += 1;
    }
    let elapsed = elapsed_nanos(&start);
    let (mn, avg, mx) = stats(&samples);
    proof {
        lemma_scaled_fits(iters as int, elapsed as int);
    }
    let overall = ratio_centi(iters as u128, elapsed, 100_000_000_000);
    let mut out: Vec<u8> = Vec::new();
    proof {
        reveal_strlit("Iterations: ");
        reveal_strlit("\nSieves/sec");
        reveal_strlit(" avg: ");
        reveal_strlit(" min: ");
        reveal_strlit(" max: ");
        reveal_strlit(" overall: ");
        reveal_strlit("\nLimit: ");
        reveal_strlit("\nPrimes: ");
    }
    push_ascii(&mut out, "Iterations: ");
    push_u64(&mut out, iters);
    push_ascii(&mut out, "\nSieves/sec");
    push_ascii(&mut out, " avg: ");
    push_centi(&mut out, avg);
    push_ascii(&mut out, "\nSieves/sec");
    push_ascii(&mut out, " min: ");
    push_centi(&mut out, mn);
    push_ascii(&mut out, "\nSieves/sec");
    push_ascii(&mut out, " max: ");
    push_centi(&mut out, mx);
    push_ascii(&mut out, "\nSieves/sec");
    push_ascii(&mut out, " overall: ");
    push_centi(&mut out, overall);
    push_ascii(&mut out, "\nLimit: ");
    push_u64(&mut out, 2_000_000);
    push_ascii(&mut out, "\nPrimes: ");
    let pc: u64 = primes_count as u64;
    push_u64(&mut out, pc);
    proof {
        assert(all_bytes_ascii(Seq::<u8>::empty()));
    }
    let r = ascii_to_string(out);
    proof {
        assert(r@ =~= sieve_report_chars(iters, samples@, elapsed, pc));
        if seconds == 0 {
            lemma_ratio_zero(elapsed as int, per_second_centi_scale());
            assert(r@ =~= sieve_report_chars(0, Seq::empty(), 0, 0));
        }
    }
    r
}

/// The product scaled for the per-second figure stays well inside `u128`.
proof fn lemma_scaled_fits(work: int, nanos: int)
    requires
        0 <= work <= u64::MAX,
        0 <= nanos <= u64::MAX,
    ensures
        work * 100_000_000_000 + nanos / 2 <= u128::MAX,
{
    assert(work * 100_000_000_000 <= u64::MAX as int * 100_000_000_000) by (nonlinear_arith)
        requires
            0 <= work <= u64::MAX,
    ;
}


/// One dense 128 x 128 multiply-accumulate over the flattened matrices, in
/// wrapping integer arithmetic, with a feedback write into `a` so the work
/// cannot be discarded as dead.
fn matmul_unit(a: &mut Vec<u64>, b: &Vec<u64>, c: &mut Vec<u64>)
    requires
        old(a).len() == 16384,
        b.len() == 16384,
        old(c).len() == 16384,
    ensures
        final(a).len() == 16384,
        final(c).len() == 16384,
{
    let mut i: usize = 0;
    while i < 128
        invariant
            a.len() == 16384,
            b.len() == 16384,
            c.len() == 16384,
            i <= 128,
        decreases 128 - i,
    {
        let mut k: usize = 0;
        while k < 128
            invariant
                a.len() == 16384,
                b.len() == 16384,
                c.len() == 16384,
                i < 128,
                k <= 128,
            decreases 128 - k,
        {
            let aik = a[i * 128 + k];
            let mut j: usize = 0;
            while j < 128
                invariant
                    b.len() == 16384,
                    c.len() == 16384,
                    i < 128,
                    k < 128,
                    j <= 128,
                decreases 128 - j,
            {
                let idx = i * 128 + j;
                c[idx] = c[idx].wrapping_add(aik.wrapping_mul(b[k * 128 + j]));
                j += 1;
            }
            k += 1;
        }
        i += 1;
    }
    a[0] = c[0] / 3;
}

pub open spec fn matmul_report_chars(iters: u64, samples: Seq<u64>, elapsed: u64) -> Seq<char> {
    (ascii_bytes("Iterations: "@) + dec_bytes(iters as nat) + stats_bytes(
        "\nGFLOP/s"@,
        samples,
        ratio_centi_spec(iters as int * matmul_unit_flops(), elapsed as int, 100) as u64,
    ) + ascii_bytes("\nSize: 128x128"@)).map_values(|b: u8| b as char)
}

/// Repeatedly multiply two dense 128 x 128 matrices for up to `seconds`
/// seconds, and report the throughput in billions of counted operations per
/// second, two operations per inner multiply-accumulate step.
#[verifier::rlimit(100)]
pub fn bench_matmul(seconds: u64) -> (r: String)
    requires
        seconds <= max_bench_seconds(),
    ensures
        exists|iters: u64, samples: Seq<u64>, elapsed: u64|
            r@ == matmul_report_chars(iters, samples, elapsed),
        seconds == 0 ==> r@ == matmul_report_chars(0, Seq::empty(), 0),
{
    let mut a: Vec<u64> = vec![1001u64; 16384];
    let b: Vec<u64> = vec![999u64; 16384];
    let mut c: Vec<u64> = vec![0u64; 16384];
    let total: u64 = seconds * 1_000_000_000;
    let start = instant_now();
    let mut iters: u64 = 0;
    let mut samples: Vec<u64> = Vec::new();
    let mut windows: u64 = 0;
    while windows < u64::MAX && elapsed_nanos(&start) < total
        invariant
            total == seconds * 1_000_000_000,
            a.len() == 16384,
            b.len() == 16384,
            c.len() == 16384,
            seconds == 0 ==> iters == 0 && samples@ =~= Seq::<u64>::empty(),
        decreases u64::MAX - windows,
    {
        let wstart = instant_now();
        let mut w_iters: u64 = 0;
        while w_iters < u64::MAX && iters < u64::MAX && elapsed_nanos(&wstart) < 1_000_000_000
            && elapsed_nanos(&start) < total
            invariant
                total == seconds * 1_000_000_000,
                a.len() == 16384,
                b.len() == 16384,
                c.len() == 16384,
                seconds == 0 ==> iters == 0,
            decreases u64::MAX - w_iters,
        {
            matmul_unit(&mut a, &b, &mut c);
            iters += 1;
            w_iters += 1;
        }
        let wnanos = elapsed_nanos(&wstart);
        if wnanos > 0 {
            proof {
                lemma_flops_fits(w_iters as int * matmul_unit_flops(), wnanos as int);
            }
            let s = ratio_centi((w_iters as u128) * 4194304, wnanos, 100);
            samples.push(s);
        }
        windows += 1;
    }
    let elapsed = elapsed_nanos(&start);
    let (mn, avg, mx) = stats(&samples);
    proof {
        lemma_flops_fits(iters as int * matmul_unit_flops(), elapsed as int);
    }
    let overall = ratio_centi((iters as u128) * 4194304, elapsed, 100);
    let mut out: Vec<u8> = Vec::new();
    proof {
        reveal_strlit("Iterations: ");
        reveal_strlit("\nGFLOP/s");
        reveal_strlit(" avg: ");
        reveal_strlit(" min: ");
        reveal_strlit(" max: ");
        reveal_strlit(" overall: ");
        reveal_strlit("\nSize: 128x128");
    }
    push_ascii(&mut out, "Iterations: ");
    push_u64(&mut out, iters);
    push_ascii(&mut out, "\nGFLOP/s");
    push_ascii(&mut out, " avg: ");
    push_centi(&mut out, avg);
    push_ascii(&mut out, "\nGFLOP/s");
    push_ascii(&mut out, " min: ");
    push_centi(&mut out, mn);
    push_ascii(&mut out, "\nGFLOP/s");
    push_ascii(&mut out, " max: ");
    push_centi(&mut out, mx);
    push_ascii(&mut out, "\nGFLOP/s");
    push_ascii(&mut out, " overall: ");
    push_centi(&mut out, overall);
    push_ascii(&mut out, "\nSize: 128x128");
    proof {
        assert(all_bytes_ascii(Seq::<u8>::empty()));
    }
    let r = ascii_to_string(out);
    proof {
        assert(r@ =~= matmul_report_chars(iters, samples@, elapsed));
        if seconds == 0 {
            lemma_ratio_zero(elapsed as int, 100);
            assert(r@ =~= matmul_report_chars(0, Seq::empty(), 0));
        }
    }
    r
}

/// The flop count scaled for the report stays well inside `u128`.
proof fn lemma_flops_fits(work: int, nanos: int)
    requires
        0 <= work <= u64::MAX as int * 4194304,
        0 <= nanos <= u64::MAX,
    ensures
        work * 100 + nanos / 2 <= u128::MAX,
{
    assert(work * 100 <= u64::MAX as int * 4194304 * 100) by (nonlinear_arith)
        requires
            0 <= work <= u64::MAX as int * 4194304,
    ;
}

/// The value built by appending the digit `d` to `n` decimal places of an
/// operand that starts at one.
pub open spec fn repdigit_val(n: nat, d: nat) -> int
    decreases n,
{
    if n == 0 {
        1
    } else {
        10 * repdigit_val((n - 1) as nat, d) + d
    }
}

pub open spec fn bigint_report_chars(
    iters: u64,
    samples: Seq<u64>,
    elapsed: u64,
    digits: u64,
) -> Seq<char> {
    (ascii_bytes("Iterations: "@) + dec_bytes(iters as nat) + stats_bytes(
        "\nMultiplies/sec"@,
        samples,
        ratio_centi_spec(iters as int, elapsed as int, per_second_centi_scale()) as u64,
    ) + ascii_bytes("\nDigits: "@) + dec_bytes(digits as nat)).map_values(|b: u8| b as char)
}

/// Repeatedly multiply two fixed operands of about 4096 decimal digits into
/// a running accumulator for up to `seconds` seconds, and report the
/// multiplication throughput and the accumulator's final digit count.
#[verifier::rlimit(100)]
pub fn bench_bigint(seconds: u64) -> (r: String)
    requires
        seconds <= max_bench_seconds(),
    ensures
        exists|iters: u64, samples: Seq<u64>, elapsed: u64, digits: u64|
            r@ == bigint_report_chars(iters, samples, elapsed, digits) && digits
                == dec_bytes_int(1 + iters * repdigit_val(4096, 7) * repdigit_val(4096, 3)).len(),
        seconds == 0 ==> r@ == bigint_report_chars(0, Seq::empty(), 0, 1),
{
    let ten = big_from_u64(10);
    let seven = big_from_u64(7);
    let three = big_from_u64(3);
    let mut a = big_from_u64(1);
    let mut b = big_from_u64(1);
    let mut i: u32 = 0;
    while i < 4096
        invariant
            i <= 4096,
            big_value(ten) == 10,
            big_value(seven) == 7,
            big_value(three) == 3,
            big_value(a) == repdigit_val(i as nat, 7),
            big_value(b) == repdigit_val(i as nat, 3),
        decreases 4096 - i,
    {
        a = big_add(&big_mul(&a, &ten), &seven);
        b = big_add(&big_mul(&b, &ten), &three);
        i += 1;
    }
    let ghost av = big_value(a);
    let ghost bv = big_value(b);
    let total: u64 = seconds * 1_000_000_000;
    let start = instant_now();
    let mut iters: u64 = 0;
    let mut acc = big_from_u64(1);
    let mut samples: Vec<u64> = Vec::new();
    let mut windows: u64 = 0;
    while windows < u64::MAX && elapsed_nanos(&start) < total
        invariant
            total == seconds * 1_000_000_000,
            av == big_value(a),
            bv == big_value(b),
            big_value(acc) == 1 + iters * (av * bv),
            seconds == 0 ==> iters == 0 && samples@ =~= Seq::<u64>::empty(),
        decreases u64::MAX - windows,
    {
        let wstart = instant_now();
        let mut w_iters: u64 = 0;
        while w_iters < u64::MAX && iters < u64::MAX && elapsed_nanos(&wstart) < 1_000_000_000
            && elapsed_nanos(&start) < total
            invariant
                total == seconds * 1_000_000_000,
                av == big_value(a),
                bv == big_value(b),
                big_value(acc) == 1 + iters * (av * bv),
                seconds == 0 ==> iters == 0,
            decreases u64::MAX - w_iters,
        {
            acc = big_add(&big_mul(&a, &b), &acc);
            proof {
                assert(1 + (iters + 1) * (av * bv) == 1 + iters * (av * bv) + av * bv) by (
                nonlinear_arith);
            }
            iters += 1;
            w_iters += 1;
        }
        let wnanos = elapsed_nanos(&wstart);
        if wnanos > 0 {
            proof {
                lemma_scaled_fits(w_iters as int, wnanos as int);
            }
            let s = ratio_centi(w_iters as u128, wnanos, 100_000_000_000);
            samples.push(s);
        }
        windows += 1;
    }
    let elapsed = elapsed_nanos(&start);
    let (mn, avg, mx) = stats(&samples);
    proof {
        lemma_scaled_fits(iters as int, elapsed as int);
    }
    let overall = ratio_centi(iters as u128, elapsed, 100_000_000_000);
    let acc_dec = big_to_dec_bytes(&acc);
    let digits_count: usize = acc_dec.len();
    let dc: u64 = digits_count as u64;
    proof {
        assert(big_value(acc) == 1 + iters * (av * bv));
        assert(iters * (av * bv) == iters * av * bv) by (nonlinear_arith);
    }
    let mut out: Vec<u8> = Vec::new();
    proof {
        reveal_strlit("Iterations: ");
        reveal_strlit("\nMultiplies/sec");
        reveal_strlit(" avg: ");
        reveal_strlit(" min: ");
        reveal_strlit(" max: ");
        reveal_strlit(" overall: ");
        reveal_strlit("\nDigits: ");
    }
    push_ascii(&mut out, "Iterations: ");
    push_u64(&mut out, iters);
    push_ascii(&mut out, "\nMultiplies/sec");
    push_ascii(&mut out, " avg: ");
    push_centi(&mut out, avg);
    push_ascii(&mut out, "\nMultiplies/sec");
    push_ascii(&mut out, " min: ");
    push_centi(&mut out, mn);
    push_ascii(&mut out, "\nMultiplies/sec");
    push_ascii(&mut out, " max: ");
    push_centi(&mut out, mx);
    push_ascii(&mut out, "\nMultiplies/sec");
    push_ascii(&mut out, " overall: ");
    push_centi(&mut out, overall);
    push_ascii(&mut out, "\nDigits: ");
    push_u64(&mut out, dc);
    proof {
        assert(all_bytes_ascii(Seq::<u8>::empty()));
    }
    let r = ascii_to_string(out);
    proof {
        assert(r@ =~= bigint_report_chars(iters, samples@, elapsed, dc));
        if seconds == 0 {
            lemma_ratio_zero(elapsed as int, per_second_centi_scale());
            assert(dec_bytes_int(1) =~= seq![49u8]);
            assert(r@ =~= bigint_report_chars(0, Seq::empty(), 0, 1));
        }
    }
    r
}

} // verus!
