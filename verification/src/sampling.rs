//! Throughput statistics over the per-window samples of a benchmark run.
//!
//! Samples and throughput figures are integers in hundredths of the
//! reporting unit, so that a value `v` prints as `v / 100` point `v % 100`.

use vstd::prelude::*;

verus! {

pub open spec fn seq_min(s: Seq<u64>) -> u64
    decreases s.len(),
{
    if s.len() == 0 {
        0
    } else if s.len() == 1 {
        s[0]
    } else {
        let m = seq_min(s.drop_last());
        if s.last() < m {
            s.last()
        } else {
            m
        }
    }
}

pub open spec fn seq_max(s: Seq<u64>) -> u64
    decreases s.len(),
{
    if s.len() == 0 {
        0
    } else if s.len() == 1 {
        s[0]
    } else {
        let m = seq_max(s.drop_last());
        if s.last() > m {
            s.last()
        } else {
            m
        }
    }
}

pub open spec fn seq_sum(s: Seq<u64>) -> int
    decreases s.len(),
{
    if s.len() == 0 {
        0
    } else {
        seq_sum(s.drop_last()) + s.last()
    }
}

/// Arithmetic mean of the samples, rounded down; zero of no samples.
pub open spec fn seq_avg(s: Seq<u64>) -> u64 {
    if s.len() == 0 {
        0
    } else {
        (seq_sum(s) / s.len() as int) as u64
    }
}

proof fn lemma_sum_bounds(s: Seq<u64>)
    requires
        s.len() > 0,
    ensures
        s.len() * seq_min(s) <= seq_sum(s) <= s.len() * seq_max(s),
    decreases s.len(),
{
    if s.len() == 1 {
        assert(s.drop_last() =~= Seq::<u64>::empty());
        assert(seq_sum(Seq::<u64>::empty()) == 0);
        assert(seq_sum(s) == s[0]);
    } else {
        let d = s.drop_last();
        lemma_sum_bounds(d);
        assert(d.len() * seq_min(d) >= d.len() * seq_min(s)) by (nonlinear_arith)
            requires
                seq_min(d) >= seq_min(s),
                d.len() >= 0,
        ;
        assert(d.len() * seq_max(d) <= d.len() * seq_max(s)) by (nonlinear_arith)
            requires
                seq_max(d) <= seq_max(s),
                d.len() >= 0,
        ;
        assert(s.len() * seq_min(s) == d.len() * seq_min(s) + seq_min(s)) by (nonlinear_arith)
            requires
                s.len() == d.len() + 1,
        ;
        assert(s.len() * seq_max(s) == d.len() * seq_max(s) + seq_max(s)) by (nonlinear_arith)
            requires
                s.len() == d.len() + 1,
        ;
        assert(seq_min(s) <= s.last());
        assert(seq_max(s) >= s.last());
        assert(seq_sum(s) == seq_sum(d) + s.last());
        assert(s.len() * seq_min(s) <= seq_sum(s));
        assert(seq_sum(s) <= s.len() * seq_max(s));
    }
}

/// Over a nonempty sample series the minimum is at most the average and the
/// average is at most the maximum.
pub proof fn lemma_stats_ordered(s: Seq<u64>)
    requires
        s.len() > 0,
    ensures
        seq_min(s) <= seq_avg(s) <= seq_max(s),
{
    lemma_sum_bounds(s);
    let n = s.len() as int;
    vstd::arithmetic::div_mod::lemma_fundamental_div_mod(seq_sum(s), n);
    assert(seq_min(s) <= seq_sum(s) / n <= seq_max(s)) by (nonlinear_arith)
        requires
            n >= 1,
            n * seq_min(s) <= seq_sum(s) <= n * seq_max(s),
            seq_sum(s) == n * (seq_sum(s) / n) + seq_sum(s) % n,
            0 <= seq_sum(s) % n < n,
    ;
}

/// Minimum, average and maximum of the recorded samples, in that triple
/// order; all three are zero when no sample was recorded.
pub fn stats(samples: &Vec<u64>) -> (r: (u64, u64, u64))
    ensures
        r.0 == seq_min(samples@),
        r.1 == seq_avg(samples@),
        r.2 == seq_max(samples@),
        samples@.len() > 0 ==> r.0 <= r.1 <= r.2,
{
    if samples.len() == 0 {
        return (0, 0, 0);
    }
    let mut mn: u64 = samples[0];
    let mut mx: u64 = samples[0];
    let mut sum: u128 = samples[0] as u128;
    let mut i: usize = 1;
    proof {
        let first = samples@.subrange(0, 1);
        assert(first =~= seq![samples@[0]]);
        assert(first.drop_last() =~= Seq::<u64>::empty());
        assert(seq_sum(Seq::<u64>::empty()) == 0);
        assert(seq_sum(first) == samples@[0]);
    }
    while i < samples.len()
        invariant
            1 <= i <= samples@.len(),
            mn == seq_min(samples@.subrange(0, i as int)),
            mx == seq_max(samples@.subrange(0, i as int)),
            sum == seq_sum(samples@.subrange(0, i as int)),
            sum <= i * (u64::MAX as int),
        decreases samples@.len() - i,
    {
        let v = samples[i];
        proof {
            assert(samples@.subrange(0, i as int + 1).drop_last() =~= samples@.subrange(
                0,
                i as int,
            ));
        }
        if v < mn {
            mn = v;
        }
        if v > mx {
            mx = v;
        }
        sum = sum + v as u128;
        i += 1;
    }
    proof {
        assert(samples@.subrange(0, samples@.len() as int) =~= samples@);
        lemma_sum_bounds(samples@);
        let n = samples@.len() as int;
        vstd::arithmetic::div_mod::lemma_fundamental_div_mod(seq_sum(samples@), n);
        assert(0 <= seq_sum(samples@) / n <= seq_max(samples@)) by (nonlinear_arith)
            requires
                n >= 1,
                0 <= seq_sum(samples@) <= n * seq_max(samples@),
                seq_sum(samples@) == n * (seq_sum(samples@) / n) + seq_sum(samples@) % n,
                0 <= seq_sum(samples@) % n < n,
        ;
        lemma_stats_ordered(samples@);
    }
    let avg: u64 = (sum / (samples.len() as u128)) as u64;
    (mn, avg, mx)
}

/// Throughput in hundredths of the unit: `work * scale / nanos` rounded to
/// the nearest, saturated at `u64::MAX`, and zero when no time elapsed.
pub open spec fn ratio_centi_spec(work: int, nanos: int, scale: int) -> int {
    if nanos == 0 {
        0
    } else {
        let q = (work * scale + nanos / 2) / nanos;
        if q > u64::MAX as int {
            u64::MAX as int
        } else {
            q
        }
    }
}

/// No work done means zero reported throughput, however long the run took.
pub proof fn lemma_ratio_zero(nanos: int, scale: int)
    requires
        nanos >= 0,
    ensures
        ratio_centi_spec(0, nanos, scale) == 0,
{
    if nanos > 0 {
        vstd::arithmetic::div_mod::lemma_fundamental_div_mod(nanos / 2, nanos);
        assert((nanos / 2) / nanos == 0) by (nonlinear_arith)
            requires
                nanos > 0,
                0 <= nanos / 2 < nanos,
                nanos / 2 == nanos * ((nanos / 2) / nanos) + (nanos / 2) % nanos,
                0 <= (nanos / 2) % nanos < nanos,
        ;
    }
}

pub fn ratio_centi(work: u128, nanos: u64, scale: u64) -> (r: u64)
    requires
        work * scale + nanos / 2 <= u128::MAX,
    ensures
        r == ratio_centi_spec(work as int, nanos as int, scale as int),
{
    if nanos == 0 {
        return 0;
    }
    let q: u128 = (work * (scale as u128) + ((nanos / 2) as u128)) / (nanos as u128);
    if q > u64::MAX as u128 {
        u64::MAX
    } else {
        q as u64
    }
}

} // verus!
