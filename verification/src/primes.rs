//! Prime generation and counting via the Sieve of Eratosthenes.

use vstd::prelude::*;

verus! {

/// `d` divides `n`.
pub open spec fn divides(d: int, n: int) -> bool {
    exists|k: int| n == #[trigger] (d * k)
}

/// `n` is prime: at least 2, with no divisor strictly between 1 and `n`.
pub open spec fn is_prime(n: int) -> bool {
    n >= 2 && forall|d: int| 2 <= d < n ==> !divides(d, n)
}

/// Number of primes `p` with `p <= n`.
pub open spec fn prime_count_upto(n: int) -> nat
    decreases n,
{
    if n < 2 {
        0
    } else {
        prime_count_upto(n - 1) + if is_prime(n) { 1nat } else { 0nat }
    }
}

proof fn lemma_divides_transitive(a: int, b: int, c: int)
    requires
        divides(a, b),
        divides(b, c),
    ensures
        divides(a, c),
{
    let k1 = choose|k: int| b == #[trigger] (a * k);
    let k2 = choose|k: int| c == #[trigger] (b * k);
    assert(c == a * (k1 * k2)) by (nonlinear_arith)
        requires
            b == a * k1,
            c == b * k2,
    ;
}

/// Every integer at least 2 has a prime divisor.
proof fn lemma_prime_factor(n: int) -> (p: int)
    requires
        n >= 2,
    ensures
        is_prime(p),
        divides(p, n),
        2 <= p <= n,
    decreases n,
{
    if is_prime(n) {
        assert(n == n * 1);
        n
    } else {
        let d = choose|d: int| 2 <= d < n && divides(d, n);
        let p = lemma_prime_factor(d);
        lemma_divides_transitive(p, d, n);
        p
    }
}

/// A composite number has a prime divisor whose square does not exceed it.
proof fn lemma_small_prime_factor(n: int) -> (p: int)
    requires
        n >= 2,
        !is_prime(n),
    ensures
        is_prime(p),
        divides(p, n),
        2 <= p < n,
        p * p <= n,
{
    let d = choose|d: int| 2 <= d < n && divides(d, n);
    let k = choose|k: int| n == #[trigger] (d * k);
    assert(k >= 2) by (nonlinear_arith)
        requires
            n == d * k,
            2 <= d < n,
    ;
    assert(k < n) by (nonlinear_arith)
        requires
            n == d * k,
            2 <= d,
            2 <= k,
    ;
    let a = if d * d <= n { d } else { k };
    assert(a * a <= n) by (nonlinear_arith)
        requires
            n == d * k,
            2 <= d,
            2 <= k,
            a == if d * d <= n { d } else { k },
    ;
    assert(divides(a, n)) by {
        if d * d <= n {
        } else {
            assert(n == k * d);
        }
    }
    let p = lemma_prime_factor(a);
    lemma_divides_transitive(p, a, n);
    assert(p * p <= a * a) by (nonlinear_arith)
        requires
            2 <= p <= a,
    ;
    p
}

/// Mark every multiple of `i` from `i * i` up to `limit`, leaving all other
/// entries of the sieve unchanged.
fn mark_multiples(sieve: &mut Vec<bool>, i: usize, limit: usize)
    requires
        old(sieve).len() == limit + 1,
        2 <= i <= limit,
        limit <= usize::MAX / 2,
    ensures
        final(sieve).len() == limit + 1,
        forall|m: int|
            0 <= m <= limit ==> (#[trigger] final(sieve)@[m] <==> (old(sieve)@[m] || (divides(
                i as int, m) && i * i <= m))),
{
    proof {
        vstd::arithmetic::div_mod::lemma_fundamental_div_mod(limit as int, i as int);
    }
    if i > limit / i {
        proof {
            assert(limit < i * i) by (nonlinear_arith)
                requires
                    ((limit / i) as int) < (i as int),
                    i >= 2,
                    (limit as int) == (i as int) * ((limit / i) as int) + ((limit % i) as int),
                    0 <= ((limit % i) as int) < (i as int),
            ;
        }
        return ;
    }
    proof {
        assert(i * i <= limit) by (nonlinear_arith)
            requires
                (i as int) <= ((limit / i) as int),
                i >= 2,
                (limit as int) == (i as int) * ((limit / i) as int) + ((limit % i) as int),
                0 <= ((limit % i) as int) < (i as int),
        ;
    }
    let ghost orig = sieve@;
    let mut j: usize = i * i;
    while j <= limit
        invariant
            sieve@.len() == limit + 1,
            2 <= i <= limit,
            limit <= usize::MAX / 2,
            i * i <= j,
            divides(i as int, j as int),
            forall|m: int|
                0 <= m <= limit ==> (sieve@[m] <==> (orig[m] || (divides(i as int, m) && i * i
                    <= m < j))),
        decreases limit + i - j,
    {
        let ghost pre = sieve@;
        sieve[j] = true;
        proof {
            assert(sieve@ == pre.update(j as int, true));
            let t = choose|t: int| j as int == #[trigger] (i as int * t);
            assert forall|m: int| divides(i as int, m) && j <= m < j + i implies m == j by {
                let k = choose|k: int| m == #[trigger] (i as int * k);
                assert(k == t) by (nonlinear_arith)
                    requires
                        i as int * t <= i as int * k < i as int * t + i,
                        i >= 2,
                ;
            }
            assert(j as int + i as int == i as int * (t + 1)) by (nonlinear_arith)
                requires
                    j as int == i as int * t,
            ;
            assert(divides(i as int, j as int + i as int));
            assert forall|m: int|
                0 <= m <= limit implies (sieve@[m] <==> (orig[m] || (divides(i as int, m) && i
                * i <= m < j + i))) by {
                if m == j {
                    assert(sieve@[m]);
                } else {
                    assert(sieve@[m] == pre[m]);
                    assert(pre[m] <==> (orig[m] || (divides(i as int, m) && i * i <= m < j)));
                }
            }
        }
        j += i;
    }
    proof {
        assert forall|m: int|
            0 <= m <= limit implies (sieve@[m] <==> (old(sieve)@[m] || (divides(i as int, m) && i
            * i <= m))) by {
            assert(sieve@[m] <==> (orig[m] || (divides(i as int, m) && i * i <= m < j)));
        }
    }
}

/// A sequence is strictly ascending.
pub open spec fn ascending(s: Seq<usize>) -> bool {
    forall|a: int, b: int| 0 <= a < b < s.len() ==> s[a] < s[b]
}

/// What a sieve entry means once every index below `i` has been processed:
/// `m` is marked exactly when some smaller prime with square at most `m`
/// divides it.
spec fn sieve_marked(m: int, i: int) -> bool {
    exists|p: int| 2 <= p < i && is_prime(p) && #[trigger] divides(p, m) && p * p <= m
}

proof fn lemma_marked_widen(m: int, i: int)
    requires
        sieve_marked(m, i),
    ensures
        sieve_marked(m, i + 1),
{
    let p = choose|p: int| 2 <= p < i && is_prime(p) && #[trigger] divides(p, m) && p * p <= m;
    assert(2 <= p < i + 1 && is_prime(p) && divides(p, m) && p * p <= m);
}

proof fn lemma_marked_extend(m: int, i: int)
    requires
        is_prime(i),
        divides(i, m),
        i * i <= m,
    ensures
        sieve_marked(m, i + 1),
{
    assert(2 <= i < i + 1 && is_prime(i) && divides(i, m) && i * i <= m);
}

proof fn lemma_marked_split(m: int, i: int)
    requires
        sieve_marked(m, i + 1),
    ensures
        sieve_marked(m, i) || (is_prime(i) && divides(i, m) && i * i <= m),
{
    let p = choose|p: int|
        2 <= p < i + 1 && is_prime(p) && #[trigger] divides(p, m) && p * p <= m;
    if p < i {
        assert(sieve_marked(m, i));
    }
}

/// Processing a prime `i` (marking its multiples from `i * i` on) moves the
/// sieve from the stage-`i` marking to the stage-`i + 1` marking.
proof fn lemma_sieve_step_prime(pre: Seq<bool>, post: Seq<bool>, i: int, limit: int)
    requires
        pre.len() == limit + 1,
        post.len() == limit + 1,
        is_prime(i),
        forall|m: int| 2 <= m <= limit ==> (pre[m] <==> sieve_marked(m, i)),
        forall|m: int| 0 <= m <= limit ==> (post[m] <==> (pre[m] || (divides(i, m) && i * i
            <= m))),
    ensures
        forall|m: int| 2 <= m <= limit ==> (post[m] <==> sieve_marked(m, i + 1)),
{
    assert forall|m: int| 2 <= m <= limit implies (post[m] <==> sieve_marked(m, i + 1)) by {
        if post[m] {
            if pre[m] {
                assert(sieve_marked(m, i));
                lemma_marked_widen(m, i);
            } else {
                assert(divides(i, m) && i * i <= m);
                lemma_marked_extend(m, i);
            }
        } else {
            if sieve_marked(m, i + 1) {
                lemma_marked_split(m, i);
                assert(false);
            }
        }
    }
}

/// Passing over a composite `i` leaves the marking meaning unchanged.
proof fn lemma_sieve_step_composite(s: Seq<bool>, i: int, limit: int)
    requires
        s.len() == limit + 1,
        !is_prime(i),
        forall|m: int| 2 <= m <= limit ==> (s[m] <==> sieve_marked(m, i)),
    ensures
        forall|m: int| 2 <= m <= limit ==> (s[m] <==> sieve_marked(m, i + 1)),
{
    assert forall|m: int| 2 <= m <= limit implies (s[m] <==> sieve_marked(m, i + 1)) by {
        if s[m] {
            assert(sieve_marked(m, i));
            lemma_marked_widen(m, i);
        } else {
            if sieve_marked(m, i + 1) {
                lemma_marked_split(m, i);
                assert(false);
            }
        }
    }
}

proof fn lemma_unmarked_is_prime(n: int, i: int)
    requires
        2 <= n <= i,
        !sieve_marked(n, i),
    ensures
        is_prime(n),
{
    if !is_prime(n) {
        let p = lemma_small_prime_factor(n);
        assert(sieve_marked(n, i));
    }
}

proof fn lemma_marked_is_composite(n: int, i: int)
    requires
        sieve_marked(n, i),
    ensures
        !is_prime(n),
{
    let p = choose|p: int| 2 <= p < i && is_prime(p) && #[trigger] divides(p, n) && p * p <= n;
    assert(2 <= p < n) by (nonlinear_arith)
        requires
            2 <= p,
            p * p <= n,
    ;
}

/// All primes up to `limit`, in ascending order.
fn sieve_primes(limit: usize) -> (r: Vec<usize>)
    requires
        2 <= limit <= usize::MAX / 2,
    ensures
        ascending(r@),
        forall|t: int| 0 <= t < r@.len() ==> is_prime(#[trigger] r@[t] as int) && 2 <= r@[t]
            <= limit,
        forall|q: usize| 2 <= q <= limit && is_prime(q as int) ==> r@.contains(q),
{
    let mut sieve: Vec<bool> = vec![false; limit + 1];
    let mut primes: Vec<usize> = Vec::new();
    let mut i: usize = 2;
    while i <= limit
        invariant
            2 <= i <= limit + 1,
            limit <= usize::MAX / 2,
            sieve@.len() == limit + 1,
            forall|m: int| 2 <= m <= limit ==> (sieve@[m] <==> sieve_marked(m, i as int)),
            ascending(primes@),
            forall|t: int| 0 <= t < primes@.len() ==> is_prime(#[trigger] primes@[t] as int) && 2
                <= primes@[t] < i,
            forall|q: usize| 2 <= q < i && is_prime(q as int) ==> primes@.contains(q),
        decreases limit + 1 - i,
    {
        if !sieve[i] {
            proof {
                lemma_unmarked_is_prime(i as int, i as int);
            }
            let ghost prior = primes@;
            primes.push(i);
            proof {
                assert forall|q: usize| 2 <= q < i + 1 && is_prime(q as int) implies primes@
                    .contains(q) by {
                    if q < i {
                        let s = choose|s: int| 0 <= s < prior.len() && prior[s] == q;
                        assert(primes@[s] == q);
                    } else {
                        assert(primes@[prior.len() as int] == q);
                    }
                }
            }
            let ghost pre = sieve@;
            mark_multiples(&mut sieve, i, limit);
            proof {
                lemma_sieve_step_prime(pre, sieve@, i as int, limit as int);
            }
        } else {
            proof {
                lemma_marked_is_composite(i as int, i as int);
                lemma_sieve_step_composite(sieve@, i as int, limit as int);
            }
        }
        i += 1;
    }
    primes
}

/// Count of the primes up to `limit`, by one full sieve pass.
pub fn sieve_count(limit: usize) -> (count: usize)
    requires
        limit <= usize::MAX / 2,
    ensures
        count == prime_count_upto(limit as int),
{
    if limit < 2 {
        return 0;
    }
    let mut sieve: Vec<bool> = vec![false; limit + 1];
    let mut count: usize = 0;
    let mut i: usize = 2;
    while i <= limit
        invariant
            2 <= i <= limit + 1,
            limit <= usize::MAX / 2,
            sieve@.len() == limit + 1,
            forall|m: int| 2 <= m <= limit ==> (sieve@[m] <==> sieve_marked(m, i as int)),
            count == prime_count_upto(i as int - 1),
            count + 2 <= i,
        decreases limit + 1 - i,
    {
        if !sieve[i] {
            proof {
                lemma_unmarked_is_prime(i as int, i as int);
            }
            count += 1;
            let ghost pre = sieve@;
            mark_multiples(&mut sieve, i, limit);
            proof {
                lemma_sieve_step_prime(pre, sieve@, i as int, limit as int);
            }
        } else {
            proof {
                lemma_marked_is_composite(i as int, i as int);
                lemma_sieve_step_composite(sieve@, i as int, limit as int);
            }
        }
        i += 1;
    }
    count
}

/// Number of binary digits of `n`.
pub open spec fn bit_length(n: nat) -> nat
    decreases n,
{
    if n == 0 {
        0
    } else {
        1 + bit_length(n / 2)
    }
}

proof fn lemma_bit_length_le(n: nat, k: nat)
    requires
        n < vstd::arithmetic::power2::pow2(k),
    ensures
        bit_length(n) <= k,
    decreases n,
{
    if n > 0 {
        if k == 0 {
            assert(vstd::arithmetic::power2::pow2(0) == 1) by {
                vstd::arithmetic::power2::lemma2_to64();
            }
        } else {
            assert(vstd::arithmetic::power2::pow2(k) == 2 * vstd::arithmetic::power2::pow2(
                (k - 1) as nat,
            )) by {
                vstd::arithmetic::power2::lemma_pow2_unfold(k);
            }
            lemma_bit_length_le(n / 2, (k - 1) as nat);
        }
    }
}

fn bit_length_exec(n: u64) -> (b: u64)
    ensures
        b == bit_length(n as nat),
{
    proof {
        vstd::arithmetic::power2::lemma2_to64_rest();
        lemma_bit_length_le(n as nat, 64);
    }
    let mut v: u64 = n;
    let mut b: u64 = 0;
    while v > 0
        invariant
            bit_length(n as nat) == b + bit_length(v as nat),
            b <= bit_length(n as nat) <= 64,
        decreases v,
    {
        v = v / 2;
        b = b + 1;
    }
    b
}

/// An integer upper estimate of the natural logarithm of `n`: each binary
/// digit contributes ln 2 < 0.7, rounded up.
pub open spec fn ln_upper(n: nat) -> nat {
    (7 * bit_length(n) + 9) / 10
}

/// Sieve size for the first `count` primes: the classical estimate
/// `n (ln n + ln ln n)` for the size of the n-th prime, computed with the
/// integer upper bound on ln, floored at 15 for the smallest counts and
/// capped at half the address space so the sieve stays allocatable.
pub open spec fn sieve_bound_spec(count: nat) -> nat {
    let raw = if count < 6 {
        15nat
    } else {
        count * (ln_upper(count) + ln_upper(ln_upper(count)))
    };
    let floored = if raw < 15 {
        15nat
    } else {
        raw
    };
    if floored > usize::MAX as nat / 2 {
        usize::MAX as nat / 2
    } else {
        floored
    }
}

/// Upper estimate of how far a sieve must reach to hold the first `count`
/// primes.
pub fn sieve_bound(count: usize) -> (b: usize)
    ensures
        b == sieve_bound_spec(count as nat),
        15 <= b <= usize::MAX / 2,
{
    let raw: u128 = if count < 6 {
        15
    } else {
        proof {
            vstd::arithmetic::power2::lemma2_to64();
            vstd::arithmetic::power2::lemma2_to64_rest();
            lemma_bit_length_le(count as nat, 64);
        }
        let b1 = bit_length_exec(count as u64);
        let l1: u64 = (7 * b1 + 9) / 10;
        proof {
            lemma_bit_length_le(l1 as nat, 64);
        }
        let b2 = bit_length_exec(l1);
        let l2: u64 = (7 * b2 + 9) / 10;
        proof {
            assert((count as int) * ((l1 + l2) as int) <= (u64::MAX as int) * 90) by (
            nonlinear_arith)
                requires
                    0 <= count as int <= u64::MAX as int,
                    0 <= (l1 + l2) as int <= 90,
            ;
        }
        (count as u128) * ((l1 + l2) as u128)
    };
    let floored: u128 = if raw < 15 {
        15
    } else {
        raw
    };
    let cap: u128 = (usize::MAX / 2) as u128;
    if floored > cap {
        usize::MAX / 2
    } else {
        floored as usize
    }
}

/// The completeness property of a prime list: every prime below any listed
/// element is itself listed.
pub open spec fn downward_closed(s: Seq<usize>) -> bool {
    forall|t: int, q: usize|
        0 <= t < s.len() && 2 <= q < #[trigger] s[t] && is_prime(q as int) ==> #[trigger] s.contains(
            q,
        )
}

/// The first `count` primes, in ascending order.
///
/// The sieve is sized by `sieve_bound` and regrown if the estimate ever fell
/// short, so the result holds exactly `count` primes unless the search space
/// of allocatable sieves is exhausted; in that impossible-in-practice case it
/// holds every prime up to `usize::MAX / 2`.
pub fn generate_primes(count: usize) -> (r: Vec<usize>)
    ensures
        r@.len() <= count,
        ascending(r@),
        forall|t: int| 0 <= t < r@.len() ==> is_prime(#[trigger] r@[t] as int),
        downward_closed(r@),
        r@.len() < count ==> forall|q: usize|
            2 <= q <= usize::MAX / 2 && is_prime(q as int) ==> r@.contains(q),
{
    if count == 0 {
        return Vec::new();
    }
    let mut limit: usize = sieve_bound(count);
    let mut primes: Vec<usize> = sieve_primes(limit);
    while primes.len() < count && limit < usize::MAX / 2
        invariant
            15 <= limit <= usize::MAX / 2,
            ascending(primes@),
            forall|t: int| 0 <= t < primes@.len() ==> is_prime(#[trigger] primes@[t] as int) && 2
                <= primes@[t] <= limit,
            forall|q: usize| 2 <= q <= limit && is_prime(q as int) ==> primes@.contains(q),
        decreases usize::MAX / 2 - limit,
    {
        limit = if limit <= usize::MAX / 4 {
            limit * 2
        } else {
            usize::MAX / 2
        };
        primes = sieve_primes(limit);
    }
    let ghost full = primes@;
    let ghost last_limit = limit;
    if primes.len() > count {
        primes.truncate(count);
    }
    proof {
        assert(primes@ =~= full.subrange(0, primes@.len() as int));
        assert(ascending(primes@));
        assert forall|t: int, q: usize|
            0 <= t < primes@.len() && 2 <= q < #[trigger] primes@[t] && is_prime(q as int)
            implies #[trigger] primes@.contains(q) by {
            assert(full[t] == primes@[t]);
            assert(q <= last_limit);
            assert(full.contains(q));
            let st = choose|st: int| 0 <= st < full.len() && full[st] == q;
            assert(st < t);
            assert(primes@[st] == q);
        }
        if primes@.len() < count {
            assert(full == primes@);
            assert(usize::MAX / 2 == last_limit);
        }
    }
    primes
}

proof fn lemma_prime_list_agree(r1: Seq<usize>, r2: Seq<usize>, t: int)
    requires
        ascending(r1),
        ascending(r2),
        forall|s: int| 0 <= s < r1.len() ==> is_prime(#[trigger] r1[s] as int),
        forall|s: int| 0 <= s < r2.len() ==> is_prime(#[trigger] r2[s] as int),
        downward_closed(r1),
        downward_closed(r2),
        0 <= t < r1.len(),
        t < r2.len(),
    ensures
        r1[t] == r2[t],
    decreases t,
{
    assert forall|s: int| 0 <= s < t implies r1[s] == r2[s] by {
        lemma_prime_list_agree(r1, r2, s);
    }
    if r1[t] < r2[t] {
        assert(r2.contains(r1[t]));
        let st = choose|st: int| 0 <= st < r2.len() && r2[st] == r1[t];
        assert(st < t);
        assert(r1[st] == r2[st]);
        assert(false);
    } else if r2[t] < r1[t] {
        assert(r1.contains(r2[t]));
        let st = choose|st: int| 0 <= st < r1.len() && r1[st] == r2[t];
        assert(st < t);
        assert(r1[st] == r2[st]);
        assert(false);
    }
}

/// Prime generation is deterministic: the properties that `generate_primes`
/// ensures (ascending, all prime, downward closed) pin the result, so two
/// full-length runs with the same `count` return the same sequence.
pub proof fn lemma_generate_primes_deterministic(count: usize, r1: Seq<usize>, r2: Seq<usize>)
    requires
        r1.len() == count,
        r2.len() == count,
        ascending(r1),
        ascending(r2),
        forall|s: int| 0 <= s < r1.len() ==> is_prime(#[trigger] r1[s] as int),
        forall|s: int| 0 <= s < r2.len() ==> is_prime(#[trigger] r2[s] as int),
        downward_closed(r1),
        downward_closed(r2),
    ensures
        r1 =~= r2,
{
    assert forall|t: int| 0 <= t < count implies r1[t] == r2[t] by {
        lemma_prime_list_agree(r1, r2, t);
    }
}

} // verus!
