use primes::basic;
use primes::bitpacked;
use primes::functional;

/// Independent ground truth: trial division.
fn is_prime_trial(n: usize) -> bool {
    if n < 2 {
        return false;
    }
    let mut d: usize = 2;
    while d * d <= n {
        if n % d == 0 {
            return false;
        }
        d += 1;
    }
    true
}

fn checks(range: std::ops::Range<usize>) {
    let f = |n: usize| {
        assert_eq!(functional::primes(n).last().copied(), Some(n));
        assert_eq!(basic::primes(n).last().copied(), Some(n));
        assert_eq!(bitpacked::primes(n).last().copied(), Some(n));
    };

    let nf = |n: usize| {
        assert_ne!(functional::primes(n).last().copied(), Some(n));
        assert_ne!(basic::primes(n).last().copied(), Some(n));
        assert_ne!(bitpacked::primes(n).last().copied(), Some(n));
    };

    f(7901);
    f(4013);
    f(4013);
    f(4409);
    nf(0);
    nf(1);
    nf(10);
    nf(10_000);

    for i in range {
        if is_prime_trial(i) {
            f(i);
        } else {
            nf(i);
        }
    }
}

#[test]
fn tiny() {
    checks(0..10);
}

#[test]
fn small() {
    checks(10..100);
}

#[test]
fn medium() {
    checks(100..2_000);
}
