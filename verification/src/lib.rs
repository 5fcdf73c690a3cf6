//! A small numeric toolkit: arbitrary-precision digits of pi via Machin's
//! arctangent formula, a prime sieve, and time-boxed CPU benchmark harnesses
//! with per-window throughput sampling.

pub mod bench;
pub mod bignum;
pub mod digits;
pub mod clock;
pub mod pi;
pub mod primes;
pub mod report;
pub mod sampling;
