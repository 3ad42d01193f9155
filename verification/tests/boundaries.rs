use primes::basic;
use primes::bitpacked;
use primes::functional;

fn checks(f: impl Fn(usize) -> Vec<usize>) {
    let ps: Vec<usize> = f(100);
    assert_eq!(&ps[..5], &[2, 3, 5, 7, 11]);
    let ps: Vec<usize> = f(100);
    assert_eq!(&ps[..5], &[2, 3, 5, 7, 11]);
    assert_eq!(ps[24], 97);
    let ps: Vec<usize> = f(0);
    assert_eq!(&ps, &[]);
    let ps: Vec<usize> = f(1);
    assert_eq!(&ps, &[]);
    let ps: Vec<usize> = f(2);
    assert_eq!(&ps, &[2]);
    let ps: Vec<usize> = f(3);
    assert_eq!(&ps, &[2, 3]);
}

#[test]
fn functional() {
    checks(|n| functional::primes(n));
}

#[test]
fn basic() {
    checks(|n| basic::primes(n));
}

#[test]
fn bitpacked() {
    checks(|n| bitpacked::primes(n));
}
