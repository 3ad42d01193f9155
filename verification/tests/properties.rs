use primes::basic;
use primes::bitpacked;
use primes::functional;

#[test]
fn ordering_and_range() {
    for limit in [0usize, 1, 2, 3, 4, 9, 10, 25, 100, 997] {
        for ps in [
            functional::primes(limit),
            basic::primes(limit),
            bitpacked::primes(limit),
        ] {
            for w in ps.windows(2) {
                assert!(w[0] < w[1]);
            }
            for &p in &ps {
                assert!(p >= 2 && p <= limit);
            }
        }
    }
}

#[test]
fn agreement() {
    for limit in [
        0usize, 1, 2, 3, 4, 5, 6, 7, 8, 9, 10, 11, 24, 25, 49, 100, 121, 1000,
    ] {
        let a = functional::primes(limit);
        let b = basic::primes(limit);
        let c = bitpacked::primes(limit);
        assert_eq!(a, b);
        assert_eq!(b, c);
    }
}

#[test]
fn idempotence() {
    for limit in [0usize, 2, 3, 100, 1000] {
        assert_eq!(functional::primes(limit), functional::primes(limit));
        assert_eq!(basic::primes(limit), basic::primes(limit));
        assert_eq!(bitpacked::primes(limit), bitpacked::primes(limit));
    }
}

#[test]
fn exact_values() {
    let expected: Vec<usize> = vec![2, 3, 5, 7, 11, 13, 17, 19, 23, 29];
    assert_eq!(functional::primes(30), expected);
    assert_eq!(basic::primes(30), expected);
    assert_eq!(bitpacked::primes(30), expected);
}

#[test]
fn last_element_at_prime_limits() {
    for limit in [7901usize, 4013, 4409] {
        assert_eq!(functional::primes(limit).last().copied(), Some(limit));
        assert_eq!(basic::primes(limit).last().copied(), Some(limit));
        assert_eq!(bitpacked::primes(limit).last().copied(), Some(limit));
    }
    for limit in [0usize, 1, 10, 10_000] {
        assert_ne!(functional::primes(limit).last().copied(), Some(limit));
        assert_ne!(basic::primes(limit).last().copied(), Some(limit));
        assert_ne!(bitpacked::primes(limit).last().copied(), Some(limit));
    }
}
