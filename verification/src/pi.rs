//! Digits of pi via Machin's formula, computed with scaled big integers:
//! pi = 16 atan(1/5) - 4 atan(1/239), each arctangent evaluated by its
//! alternating Taylor series at a working precision of five guard digits.

use vstd::prelude::*;

use crate::bignum::{
    big_add, big_clone, big_div, big_from_u64, big_is_zero, big_mul, big_sub, big_to_dec_bytes,
    big_value, trunc_div,
};
use crate::digits::{ascii_to_string, dec_bytes_int, lemma_dec_bytes_int_ascii};

verus! {

pub open spec fn pow10(n: nat) -> nat
    decreases n,
{
    if n == 0 {
        1
    } else {
        10 * pow10((n - 1) as nat)
    }
}

pub proof fn lemma_pow10_pos(n: nat)
    ensures
        pow10(n) >= 1,
    decreases n,
{
    if n > 0 {
        lemma_pow10_pos((n - 1) as nat);
    }
}

/// Sum contributed by the rest of the arctan series, starting from the
/// running `term` at index `k`; each step divides the term by `x * x`, then
/// by the odd denominator, and the series stops at the first zero summand.
pub open spec fn atan_tail(term: nat, k: nat, x: nat, negate: bool) -> int
    decreases term,
    via atan_tail_decreases
{
    if x < 2 {
        0
    } else {
        let t = term / (x * x);
        let add = t / (2 * k + 1);
        if add == 0 {
            0
        } else {
            (if negate {
                -(add as int)
            } else {
                add as int
            }) + atan_tail(t, k + 1, x, !negate)
        }
    }
}

#[via_fn]
proof fn atan_tail_decreases(term: nat, k: nat, x: nat, negate: bool) {
    if x >= 2 {
        let t = term / (x * x);
        let add = t / (2 * k + 1);
        if add != 0 {
            assert(x * x >= 4) by (nonlinear_arith)
                requires
                    x >= 2,
            ;
            vstd::arithmetic::div_mod::lemma_fundamental_div_mod(term as int, (x * x) as int);
            vstd::arithmetic::div_mod::lemma_fundamental_div_mod(t as int, 2 * k as int + 1);
            assert(t < term) by (nonlinear_arith)
                requires
                    add >= 1,
                    k >= 0,
                    x * x >= 4,
                    term as int == (x * x) as int * (t as int) + term as int % ((x * x) as int),
                    0 <= term as int % ((x * x) as int),
                    t as int == (2 * k as int + 1) * (add as int) + t as int % (2 * k as int + 1),
                    0 <= t as int % (2 * k as int + 1),
            ;
        }
    }
}

/// The series tail never exceeds the first summand it could produce: it is
/// an alternating sum whose summands shrink, so it stays between that
/// summand's negation and zero (or zero and the summand, by starting sign).
proof fn lemma_atan_tail_bounds(term: nat, k: nat, x: nat, negate: bool)
    requires
        x >= 2,
        k >= 1,
    ensures
        negate ==> -(((term / (x * x)) / (2 * k + 1)) as int) <= atan_tail(term, k, x, negate)
            <= 0,
        !negate ==> 0 <= atan_tail(term, k, x, negate) <= ((term / (x * x)) / (2 * k + 1)) as int,
    decreases term,
{
    let t = term / (x * x);
    let add = t / (2 * k + 1);
    if add != 0 {
        assert(x * x >= 4) by (nonlinear_arith)
            requires
                x >= 2,
        ;
        vstd::arithmetic::div_mod::lemma_fundamental_div_mod(term as int, (x * x) as int);
        vstd::arithmetic::div_mod::lemma_fundamental_div_mod(t as int, 2 * k as int + 1);
        assert(t < term) by (nonlinear_arith)
            requires
                add >= 1,
                k >= 1,
                x * x >= 4,
                term as int == (x * x) as int * (t as int) + term as int % ((x * x) as int),
                0 <= term as int % ((x * x) as int),
                t as int == (2 * k as int + 1) * (add as int) + t as int % (2 * k as int + 1),
                0 <= t as int % (2 * k as int + 1),
        ;
        lemma_atan_tail_bounds(t, k + 1, x, !negate);
        let t2 = t / (x * x);
        let add2 = t2 / (2 * (k + 1) + 1);
        assert(t2 <= t) by {
            vstd::arithmetic::div_mod::lemma_div_nonincreasing(t as int, (x * x) as int);
        }
        assert(add2 <= add) by {
            vstd::arithmetic::div_mod::lemma_div_is_ordered(t2 as int, t as int, 2 * k as int
                + 1);
            vstd::arithmetic::div_mod::lemma_div_is_ordered_by_denominator(t2 as int, 2 * k as int
                + 1, 2 * (k as int + 1) + 1);
        }
    }
}

/// `scale * atan(1/x)` as the series computes it in scaled integers.
pub open spec fn atan_scaled(scale: nat, x: nat) -> int {
    scale / x + atan_tail(scale / x, 1, x, true)
}

/// pi at working precision: `digits` requested digits plus five guard digits.
pub open spec fn pi_scaled(digits: nat) -> int {
    let s = pow10(digits + 5);
    16 * atan_scaled(s, 5) - 4 * atan_scaled(s, 239)
}

/// The working value rounded to the requested precision: add half a unit of
/// the last kept digit, then drop the guard digits.
pub open spec fn pi_rounded(digits: nat) -> int {
    trunc_div(pi_scaled(digits) + 5 * pow10(4), pow10(5) as int)
}

pub open spec fn zero_bytes(n: nat) -> Seq<u8> {
    Seq::new(n, |i| 48u8)
}

/// The digit bytes of the rounded value, left-padded with zeros to
/// `digits + 1` places so an integer digit always precedes the point.
pub open spec fn pi_padded_bytes(digits: nat) -> Seq<u8> {
    let s = dec_bytes_int(pi_rounded(digits));
    if s.len() < digits + 1 {
        zero_bytes((digits + 1 - s.len()) as nat) + s
    } else {
        s
    }
}

/// The final text: one leading digit, a decimal point, then exactly `digits`
/// fractional digits.
pub open spec fn pi_chars(digits: nat) -> Seq<char> {
    let padded = pi_padded_bytes(digits);
    (padded.subrange(0, 1) + seq![46u8] + padded.subrange(1, padded.len() as int)).map_values(
        |b: u8| b as char,
    )
}

proof fn lemma_pow10_add(a: nat, b: nat)
    ensures
        pow10(a + b) == pow10(a) * pow10(b),
    decreases b,
{
    if b == 0 {
        assert(pow10(a) * 1 == pow10(a)) by (nonlinear_arith);
    } else {
        lemma_pow10_add(a, (b - 1) as nat);
        assert(10 * (pow10(a) * pow10((b - 1) as nat)) == pow10(a) * (10 * pow10(
            (b - 1) as nat,
        ))) by (nonlinear_arith);
        assert(pow10((a + b - 1) as nat) == pow10(a) * pow10((b - 1) as nat));
    }
}

/// The scaled series value for pi lies strictly between 3 and 3.71 times
/// the scale: the two arctangent sums are pinned by their first summands.
proof fn lemma_pi_scaled_range(digits: nat)
    ensures
        3 * pow10(digits + 5) < pi_scaled(digits),
        100000 * pi_scaled(digits) <= 320000 * pow10(digits + 5),
{
    let sn = pow10(digits + 5);
    let s = sn as int;
    lemma_pow10_add(digits, 5);
    lemma_pow10_pos(digits);
    assert(pow10(5) == 100000) by {
        assert(pow10(0) == 1);
        assert(pow10(1) == 10);
        assert(pow10(2) == 100);
        assert(pow10(3) == 1000);
        assert(pow10(4) == 10000);
    }
    assert(sn >= 100000) by (nonlinear_arith)
        requires
            sn == pow10(digits) * 100000,
            pow10(digits) >= 1,
    ;
    let q5 = (sn / 5) as int;
    let q239 = (sn / 239) as int;
    let a5 = atan_scaled(sn, 5);
    let a239 = atan_scaled(sn, 239);
    lemma_atan_tail_bounds((sn / 5) as nat, 1, 5, true);
    lemma_atan_tail_bounds((sn / 239) as nat, 1, 239, true);
    let u5 = ((sn / 5) as nat / 25) as int / 3;
    let u239 = ((sn / 239) as nat / 57121) as int / 3;
    assert(q5 - u5 <= a5 <= q5);
    assert(q239 - u239 <= a239 <= q239);
    vstd::arithmetic::div_mod::lemma_fundamental_div_mod(s, 5);
    vstd::arithmetic::div_mod::lemma_fundamental_div_mod(s, 239);
    vstd::arithmetic::div_mod::lemma_fundamental_div_mod(q5, 25);
    vstd::arithmetic::div_mod::lemma_fundamental_div_mod(q5 / 25, 3);
    vstd::arithmetic::div_mod::lemma_div_pos_is_pos(q5, 25);
    vstd::arithmetic::div_mod::lemma_div_pos_is_pos(q5 / 25, 3);
    vstd::arithmetic::div_mod::lemma_div_pos_is_pos(q239, 57121);
    vstd::arithmetic::div_mod::lemma_div_pos_is_pos((q239 / 57121) as int, 3);
    // u5 is at most a seventy-fifth of q5, q239 at most a 239th of s
    assert(75 * u5 <= q5) by (nonlinear_arith)
        requires
            q5 == 25 * (q5 / 25) + q5 % 25,
            0 <= q5 % 25,
            q5 / 25 == 3 * u5 + (q5 / 25) % 3,
            0 <= (q5 / 25) % 3,
            u5 >= 0,
    ;
    assert(u239 >= 0);
    // the lower bound, scaled by 1875 to stay in integers
    assert(5 * q5 >= s - 4);
    assert(239 * q239 <= s);
    assert(pi_scaled(digits) == 16 * a5 - 4 * a239);
    assert(1875 * pi_scaled(digits) >= 30000 * (q5 - u5) - 7500 * q239);
    assert(30000 * q5 >= 6000 * s - 24000);
    assert(30000 * u5 <= 80 * s);
    assert(7500 * q239 <= 7648 * q239);
    assert(7500 * q239 <= 32 * s);
    assert(1875 * pi_scaled(digits) >= 5888 * s - 24000);
    assert(1875 * (3 * s) < 1875 * pi_scaled(digits));
    // the upper bound: both sums are nonnegative and the first dominates
    assert(a239 >= 0);
    assert(pi_scaled(digits) <= 16 * q5);
    assert(100000 * pi_scaled(digits) <= 1600000 * q5);
    assert(1600000 * q5 <= 320000 * s);
}

/// The rounded value always has `digits + 1` decimal digits and leads with
/// a 3.
proof fn lemma_pi_rounded_range(digits: nat)
    ensures
        3 * pow10(digits) <= pi_rounded(digits) < 4 * pow10(digits),
{
    lemma_pi_scaled_range(digits);
    lemma_pow10_add(digits, 5);
    lemma_pow10_pos(digits);
    assert(pow10(5) == 100000 && pow10(4) == 10000) by {
        assert(pow10(0) == 1);
        assert(pow10(1) == 10);
        assert(pow10(2) == 100);
        assert(pow10(3) == 1000);
        assert(pow10(4) == 10000);
    }
    let x = pow10(digits) as int;
    let s = pow10(digits + 5) as int;
    assert(s == 100000 * x) by (nonlinear_arith)
        requires
            pow10(digits + 5) == pow10(digits) * 100000,
            x == pow10(digits),
            s == pow10(digits + 5),
    ;
    let ps = pi_scaled(digits);
    let v = ps + 50000;
    assert(v > 0);
    assert(pi_rounded(digits) == v / 100000);
    vstd::arithmetic::div_mod::lemma_fundamental_div_mod(v, 100000);
    assert(3 * x <= v / 100000 < 4 * x) by (nonlinear_arith)
        requires
            x >= 1,
            s == 100000 * x,
            3 * s < ps,
            100000 * ps <= 320000 * s,
            v == ps + 50000,
            v == 100000 * (v / 100000) + v % 100000,
            0 <= v % 100000 < 100000,
    ;
}

proof fn lemma_dec_len_range(v: nat, d: nat)
    requires
        pow10(d) <= v < pow10(d + 1),
    ensures
        crate::digits::dec_bytes(v).len() == d + 1,
    decreases d,
{
    lemma_pow10_pos(d);
    if d == 0 {
        assert(pow10(1) == 10);
    } else {
        assert(pow10(d) == 10 * pow10((d - 1) as nat));
        assert(pow10(d + 1) == 10 * pow10(d));
        assert(v >= 10);
        vstd::arithmetic::div_mod::lemma_fundamental_div_mod(v as int, 10);
        let q = v / 10;
        assert(pow10((d - 1) as nat) <= q < pow10(d)) by (nonlinear_arith)
            requires
                v as int == 10 * (q as int) + (v as int) % 10,
                0 <= (v as int) % 10 < 10,
                10 * pow10((d - 1) as nat) <= v,
                v < 10 * pow10(d),
        ;
        lemma_dec_len_range(q, (d - 1) as nat);
        assert(crate::digits::dec_bytes(v) == crate::digits::dec_bytes(q).push(
            (48 + v % 10) as u8,
        ));
    }
}

proof fn lemma_dec_leading_three(v: nat, d: nat)
    requires
        3 * pow10(d) <= v < 4 * pow10(d),
    ensures
        crate::digits::dec_bytes(v).len() >= 1,
        crate::digits::dec_bytes(v)[0] == 51,
    decreases d,
{
    lemma_pow10_pos(d);
    crate::digits::lemma_dec_bytes_ascii(v);
    if d == 0 {
        assert(v == 3);
        assert(crate::digits::dec_bytes(3)[0] == 51);
    } else {
        assert(pow10(d) == 10 * pow10((d - 1) as nat));
        assert(v >= 30) by (nonlinear_arith)
            requires
                v >= 3 * pow10(d),
                pow10(d) >= 10,
        ;
        vstd::arithmetic::div_mod::lemma_fundamental_div_mod(v as int, 10);
        let q = v / 10;
        assert(3 * pow10((d - 1) as nat) <= q < 4 * pow10((d - 1) as nat)) by (nonlinear_arith)
            requires
                v as int == 10 * (q as int) + (v as int) % 10,
                0 <= (v as int) % 10 < 10,
                3 * (10 * pow10((d - 1) as nat)) <= v,
                v < 4 * (10 * pow10((d - 1) as nat)),
        ;
        lemma_dec_leading_three(q, (d - 1) as nat);
        assert(crate::digits::dec_bytes(v) == crate::digits::dec_bytes(q).push(
            (48 + v % 10) as u8,
        ));
        assert(crate::digits::dec_bytes(v)[0] == crate::digits::dec_bytes(q)[0]);
    }
}

/// At every precision the rendered text has the promised shape: a single
/// leading digit 3, the decimal point, and then exactly `digits` fractional
/// digits.
pub proof fn lemma_pi_chars_shape(digits: nat)
    ensures
        pi_chars(digits).len() == digits + 2,
        pi_chars(digits)[0] == '3',
        pi_chars(digits)[1] == '.',
{
    lemma_pi_rounded_range(digits);
    lemma_pow10_pos(digits);
    let v = pi_rounded(digits) as nat;
    assert(pow10(digits) <= v < pow10(digits + 1)) by {
        assert(pow10(digits + 1) == 10 * pow10(digits));
    }
    lemma_dec_len_range(v, digits);
    lemma_dec_leading_three(v, digits);
    let bytes = crate::digits::dec_bytes_int(pi_rounded(digits));
    assert(bytes == crate::digits::dec_bytes(v));
    assert(bytes.len() == digits + 1);
    assert(pi_padded_bytes(digits) == bytes);
    let padded = pi_padded_bytes(digits);
    let joined = padded.subrange(0, 1) + seq![46u8] + padded.subrange(1, padded.len() as int);
    assert(joined.len() == digits + 2);
    assert(joined[0] == 51u8);
    assert(joined[1] == 46u8);
    assert(pi_chars(digits)[0] == (51u8 as char));
    assert(pi_chars(digits)[1] == (46u8 as char));
    assert((51u8 as char) == '3');
    assert((46u8 as char) == '.');
}

/// Computing pi is deterministic: the contract of `compute_pi` pins its
/// result to a function of `digits` alone, so equal arguments give equal
/// strings.
pub proof fn lemma_compute_pi_deterministic(digits: nat, r1: Seq<char>, r2: Seq<char>)
    requires
        r1 == pi_chars(digits),
        r2 == pi_chars(digits),
    ensures
        r1 == r2,
{
}

/// 10^n as a big integer.
fn pow10_big(n: u32) -> (r: num_bigint::BigInt)
    ensures
        big_value(r) == pow10(n as nat),
{
    let ten = big_from_u64(10);
    let mut v = big_from_u64(1);
    let mut i: u32 = 0;
    while i < n
        invariant
            i <= n,
            big_value(ten) == 10,
            big_value(v) == pow10(i as nat),
        decreases n - i,
    {
        v = big_mul(&ten, &v);
        i += 1;
    }
    v
}

/// `scale * atan(1/x)` by the alternating series, walking the running term
/// down by `x * x` each step and stopping at the first summand that
/// truncates to zero.
fn arctan_inv(x: u64, scale: &num_bigint::BigInt) -> (r: num_bigint::BigInt)
    requires
        2 <= x <= 1000,
        big_value(*scale) >= 0,
    ensures
        big_value(r) == atan_scaled(big_value(*scale) as nat, x as nat),
{
    let ghost sv = big_value(*scale) as nat;
    let xb = big_from_u64(x);
    let x2 = big_mul(&xb, &xb);
    let mut term = big_div(scale, &xb);
    let mut sum = big_clone(&term);
    let one = big_from_u64(1);
    let two = big_from_u64(2);
    let mut k = big_from_u64(1);
    let mut negate = true;
    proof {
        assert(big_value(term) == sv / (x as nat));
    }
    loop
        invariant_except_break
            big_value(sum) + atan_tail(big_value(term) as nat, big_value(k) as nat, x as nat,
                negate) == atan_scaled(sv, x as nat),
        invariant
            2 <= x <= 1000,
            big_value(one) == 1,
            big_value(two) == 2,
            big_value(x2) == x * x,
            big_value(term) >= 0,
            big_value(k) >= 1,
        ensures
            big_value(sum) == atan_scaled(sv, x as nat),
        decreases big_value(term),
    {
        let ghost term0 = big_value(term) as nat;
        let ghost k0 = big_value(k) as nat;
        proof {
            assert(x * x >= 4) by (nonlinear_arith)
                requires
                    x >= 2,
            ;
        }
        term = big_div(&term, &x2);
        let denom = big_add(&big_mul(&two, &k), &one);
        let add = big_div(&term, &denom);
        let ghost t = big_value(term) as nat;
        let ghost a = big_value(add) as nat;
        proof {
            assert(t == term0 / ((x * x) as nat));
            assert(a == t / (2 * k0 + 1));
        }
        if big_is_zero(&add) {
            proof {
                assert(atan_tail(term0, k0, x as nat, negate) == 0);
            }
            break ;
        }
        proof {
            assert(atan_tail(term0, k0, x as nat, negate) == (if negate {
                -(a as int)
            } else {
                a as int
            }) + atan_tail(t, k0 + 1, x as nat, !negate));
            vstd::arithmetic::div_mod::lemma_fundamental_div_mod(term0 as int, (x * x) as int);
            vstd::arithmetic::div_mod::lemma_fundamental_div_mod(t as int, 2 * k0 as int + 1);
            assert(t < term0) by (nonlinear_arith)
                requires
                    a >= 1,
                    k0 >= 1,
                    x * x >= 4,
                    term0 as int == (x * x) as int * (t as int) + term0 as int % ((x * x) as int),
                    0 <= term0 as int % ((x * x) as int),
                    t as int == (2 * k0 as int + 1) * (a as int) + t as int % (2 * k0 as int + 1),
                    0 <= t as int % (2 * k0 as int + 1),
            ;
        }
        sum = if negate {
            big_sub(&sum, &add)
        } else {
            big_add(&sum, &add)
        };
        negate = !negate;
        k = big_add(&k, &one);
    }
    sum
}

/// Decimal digits of pi: the string `3.` followed by exactly `digits`
/// correctly rounded fractional digits.
pub fn compute_pi(digits: u32) -> (r: String)
    requires
        digits <= u32::MAX - 5,
    ensures
        r@ == pi_chars(digits as nat),
{
    let scale = pow10_big(digits + 5);
    proof {
        lemma_pow10_pos((digits + 5) as nat);
        lemma_pow10_pos(4);
        lemma_pow10_pos(5);
    }
    let atan5 = arctan_inv(5, &scale);
    let atan239 = arctan_inv(239, &scale);
    let pi_s = big_sub(&big_mul(&atan5, &big_from_u64(16)), &big_mul(&atan239, &big_from_u64(4)));
    let rounding = big_mul(&big_from_u64(5), &pow10_big(4));
    let divisor = pow10_big(5);
    let pi_r = big_div(&big_add(&pi_s, &rounding), &divisor);
    proof {
        assert(big_value(pi_s) == pi_scaled(digits as nat)) by {
            assert(big_value(atan5) * 16 == 16 * atan_scaled(pow10((digits + 5) as nat), 5));
            assert(big_value(atan239) * 4 == 4 * atan_scaled(pow10((digits + 5) as nat), 239));
        }
        assert(big_value(pi_r) == pi_rounded(digits as nat));
        lemma_dec_bytes_int_ascii(pi_rounded(digits as nat));
    }
    let raw = big_to_dec_bytes(&pi_r);
    let target: usize = (digits as usize) + 1;
    let mut padded: Vec<u8> = Vec::new();
    if raw.len() < target {
        let mut need: usize = target - raw.len();
        let ghost total = need as nat;
        while need > 0
            invariant
                need <= total,
                padded@ =~= zero_bytes((total - need) as nat),
            decreases need,
        {
            padded.push(48);
            need -= 1;
            proof {
                assert(padded@ =~= zero_bytes((total - need) as nat));
            }
        }
    }
    let ghost zeros = padded@;
    let mut idx: usize = 0;
    while idx < raw.len()
        invariant
            idx <= raw@.len(),
            padded@ =~= zeros + raw@.subrange(0, idx as int),
        decreases raw.len() - idx,
    {
        let b = raw[idx];
        padded.push(b);
        idx += 1;
        proof {
            assert(padded@ =~= zeros + raw@.subrange(0, idx as int));
        }
    }
    proof {
        assert(padded@ =~= zeros + raw@);
        assert(padded@ =~= pi_padded_bytes(digits as nat));
    }
    let mut out: Vec<u8> = Vec::new();
    out.push(padded[0]);
    out.push(46);
    let mut idx2: usize = 1;
    while idx2 < padded.len()
        invariant
            1 <= idx2 <= padded@.len(),
            out@ =~= padded@.subrange(0, 1) + seq![46u8] + padded@.subrange(1, idx2 as int),
        decreases padded.len() - idx2,
    {
        let b = padded[idx2];
        out.push(b);
        idx2 += 1;
        proof {
            assert(out@ =~= padded@.subrange(0, 1) + seq![46u8] + padded@.subrange(
                1,
                idx2 as int,
            ));
        }
    }
    proof {
        assert(forall|i: int| 0 <= i < out@.len() ==> out@[i] < 128);
    }
    let r = ascii_to_string(out);
    proof {
        assert(r@ =~= pi_chars(digits as nat));
    }
    r
}

} // verus!
