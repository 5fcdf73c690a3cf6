use gensuite_helper::primes::{generate_primes, sieve_bound, sieve_count};

fn is_prime_naive(n: usize) -> bool {
    if n < 2 {
        return false;
    }
    let mut d = 2;
    while d * d <= n {
        if n % d == 0 {
            return false;
        }
        d += 1;
    }
    true
}

#[test]
fn primes_empty() {
    assert_eq!(generate_primes(0), Vec::<usize>::new());
}

#[test]
fn primes_single() {
    assert_eq!(generate_primes(1), vec![2]);
}

#[test]
fn primes_first_fifteen() {
    assert_eq!(
        generate_primes(15),
        vec![2, 3, 5, 7, 11, 13, 17, 19, 23, 29, 31, 37, 41, 43, 47]
    );
}

#[test]
fn primes_boundary_of_small_bound() {
    assert_eq!(generate_primes(6), vec![2, 3, 5, 7, 11, 13]);
}

#[test]
fn primes_are_exactly_counted_ascending_and_prime() {
    for count in [2usize, 5, 6, 7, 100, 1000] {
        let primes = generate_primes(count);
        assert_eq!(primes.len(), count);
        for w in primes.windows(2) {
            assert!(w[0] < w[1]);
        }
        for &p in &primes {
            assert!(is_prime_naive(p));
        }
    }
}

#[test]
fn primes_repeated_calls_agree() {
    assert_eq!(generate_primes(100), generate_primes(100));
}

#[test]
fn sieve_count_checkpoints() {
    assert_eq!(sieve_count(1), 0);
    assert_eq!(sieve_count(2), 1);
    assert_eq!(sieve_count(10), 4);
    assert_eq!(sieve_count(100), 25);
    assert_eq!(sieve_count(2_000_000), 148_933);
}

#[test]
fn sieve_bound_exact_values() {
    // below six primes the fixed floor applies
    assert_eq!(sieve_bound(0), 15);
    assert_eq!(sieve_bound(3), 15);
    assert_eq!(sieve_bound(5), 15);
    // 10000 has 14 binary digits, so ln is estimated as (7 * 14 + 9) / 10 = 10,
    // whose own estimate is 3: 10000 * (10 + 3)
    assert_eq!(sieve_bound(10_000), 130_000);
}

#[test]
fn sieve_bound_never_undershoots_up_to_ten_thousand() {
    let primes = generate_primes(10_000);
    assert_eq!(primes.len(), 10_000);
    for count in 1..=10_000usize {
        let bound = sieve_bound(count);
        assert!(
            primes[count - 1] <= bound,
            "bound {} too small for the first {} primes (need {})",
            bound,
            count,
            primes[count - 1]
        );
    }
}
