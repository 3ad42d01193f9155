//! Three sieve-of-Eratosthenes implementations that compute the ascending
//! sequence of all primes up to a given limit: a dense boolean sieve, a
//! windowed (offset-indexed) boolean sieve, and a bit-packed sieve over odd
//! candidates. Each is proved against the same contract, `prime_seq`, so the
//! three are proved to agree on every limit.

use vstd::arithmetic::div_mod::lemma_fundamental_div_mod;
use vstd::arithmetic::div_mod::lemma_mod_division_less_than_divisor;
use vstd::arithmetic::div_mod::lemma_mod_multiples_basic;
use vstd::prelude::*;

pub mod basic;
pub mod bitpacked;
pub mod functional;

verus! {

/// `n` is prime: at least 2, with no divisor strictly between 1 and `n`.
pub open spec fn is_prime(n: int) -> bool {
    n >= 2 && forall|d: int| 2 <= d < n ==> #[trigger] (n % d) != 0
}

/// `n` has a proper divisor `d` with `2 <= d < bound`.
pub open spec fn has_divisor_below(n: int, bound: int) -> bool {
    exists|d: int| 2 <= d < bound && d < n && #[trigger] (n % d) == 0
}

/// The elements of `s` are strictly increasing.
pub open spec fn strictly_increasing(s: Seq<usize>) -> bool {
    forall|i: int, j: int| 0 <= i < j < s.len() ==> s[i] < s[j]
}

/// `s` is exactly the ascending sequence of all primes that are at most
/// `limit`: strictly increasing, every element a prime in range, and no
/// prime in range missing.
pub open spec fn prime_seq(s: Seq<usize>, limit: usize) -> bool {
    &&& strictly_increasing(s)
    &&& forall|i: int| 0 <= i < s.len() ==> is_prime(#[trigger] s[i] as int) && s[i] <= limit
    &&& forall|p: usize| is_prime(p as int) && p <= limit ==> #[trigger] s.contains(p)
}

/// Every composite number has a divisor no larger than its square root.
pub proof fn lemma_composite_has_small_divisor(n: int) -> (d: int)
    requires
        n >= 2,
        !is_prime(n),
    ensures
        2 <= d < n,
        d * d <= n,
        n % d == 0,
{
    let d0 = choose|d: int| 2 <= d < n && #[trigger] (n % d) == 0;
    lemma_fundamental_div_mod(n, d0);
    let e = n / d0;
    assert(2 <= e < n && n == d0 * e) by (nonlinear_arith)
        requires
            n == d0 * e + n % d0,
            n % d0 == 0,
            2 <= d0 < n,
            n >= 2,
    ;
    if d0 * d0 <= n {
        d0
    } else {
        assert(e * e <= n) by (nonlinear_arith)
            requires
                n == d0 * e,
                d0 * d0 > n,
                2 <= d0,
                2 <= e,
        ;
        lemma_mod_multiples_basic(d0, e);
        assert(n % e == 0) by (nonlinear_arith)
            requires
                n == d0 * e,
                (d0 * e) % e == 0,
        ;
        e
    }
}

/// Divisibility is transitive: a divisor of `p` divides every multiple of `p`.
pub proof fn lemma_divides_transitive(n: int, p: int, d: int)
    requires
        2 <= d,
        2 <= p,
        p % d == 0,
        n % p == 0,
    ensures
        n % d == 0,
{
    lemma_fundamental_div_mod(p, d);
    lemma_fundamental_div_mod(n, p);
    let a = p / d;
    let b = n / p;
    lemma_mod_multiples_basic(a * b, d);
    assert(n % d == 0) by (nonlinear_arith)
        requires
            p == d * a,
            n == p * b,
            (a * b) * d % d == 0,
    ;
}

/// For positive `p`, comparing `p` against `limit / p` decides whether
/// `p * p` exceeds `limit`, without computing the square.
pub proof fn lemma_sqrt_bound(p: int, limit: int)
    requires
        1 <= p,
        0 <= limit,
    ensures
        (p <= limit / p) <==> (p * p <= limit),
{
    lemma_fundamental_div_mod(limit, p);
    lemma_mod_division_less_than_divisor(limit, p);
    assert((p <= limit / p) <==> (p * p <= limit)) by (nonlinear_arith)
        requires
            limit == p * (limit / p) + limit % p,
            0 <= limit % p < p,
            1 <= p,
    ;
}

/// A number that has no divisor below `bound`, where `bound * bound`
/// exceeds it, is prime; and conversely a prime has no such divisor.
pub proof fn lemma_sieved_is_prime(n: int, bound: int)
    requires
        2 <= n,
        2 <= bound,
        bound * bound > n,
    ensures
        is_prime(n) <==> !has_divisor_below(n, bound),
{
    if !is_prime(n) {
        let d = lemma_composite_has_small_divisor(n);
        assert(d < bound) by (nonlinear_arith)
            requires
                d * d <= n,
                bound * bound > n,
                2 <= d,
                2 <= bound,
        ;
        assert(has_divisor_below(n, bound));
    }
    if has_divisor_below(n, bound) {
        let d = choose|d: int| 2 <= d < bound && d < n && #[trigger] (n % d) == 0;
        assert(!is_prime(n));
    }
}

/// Consecutive multiples of `p` are `p` apart: a multiple of `p` strictly
/// above the multiple `m` is at least `m + p`.
pub proof fn lemma_next_multiple(v: int, m: int, p: int)
    requires
        2 <= p,
        v % p == 0,
        m % p == 0,
        v > m,
    ensures
        v >= m + p,
{
    lemma_fundamental_div_mod(v, p);
    lemma_fundamental_div_mod(m, p);
    assert(v >= m + p) by (nonlinear_arith)
        requires
            v == p * (v / p),
            m == p * (m / p),
            v > m,
            2 <= p,
    ;
}

/// Raising the divisor bound from `p` to `p + 1` adds exactly the multiples
/// of `p` that are at least `p * p`: a smaller proper multiple of `p`
/// already has a proper divisor below `p`.
pub proof fn lemma_divisor_bound_step(v: int, p: int)
    requires
        2 <= p,
        2 <= v,
    ensures
        has_divisor_below(v, p + 1) <==> (has_divisor_below(v, p) || (v % p == 0 && p * p <= v)),
{
    if has_divisor_below(v, p + 1) && !has_divisor_below(v, p) {
        let d = choose|d: int| 2 <= d < p + 1 && d < v && #[trigger] (v % d) == 0;
        assert(d == p);
        lemma_fundamental_div_mod(v, p);
        let m = v / p;
        assert(m >= 2 && v == m * p) by (nonlinear_arith)
            requires
                v == p * (v / p) + v % p,
                m == v / p,
                v % p == 0,
                p < v,
                2 <= p,
        ;
        if m < p {
            lemma_mod_multiples_basic(p, m);
            assert(v % m == 0);
            assert(has_divisor_below(v, p));
            assert(false);
        }
        assert(p * p <= v) by (nonlinear_arith)
            requires
                v == m * p,
                m >= p,
                2 <= p,
        ;
    }
    if v % p == 0 && p * p <= v {
        assert(p < v) by (nonlinear_arith)
            requires
                p * p <= v,
                2 <= p,
        ;
        assert(has_divisor_below(v, p + 1));
    }
    if has_divisor_below(v, p) {
        let d = choose|d: int| 2 <= d < p && d < v && #[trigger] (v % d) == 0;
        assert(has_divisor_below(v, p + 1));
    }
}

/// When the base `p` itself has a proper divisor below `p`, raising the
/// bound past `p` adds nothing: every proper multiple of `p` already has a
/// proper divisor below `p`.
pub proof fn lemma_composite_bound_step(v: int, p: int)
    requires
        2 <= p,
        2 <= v,
        has_divisor_below(p, p),
    ensures
        has_divisor_below(v, p + 1) <==> has_divisor_below(v, p),
{
    lemma_divisor_bound_step(v, p);
    if has_divisor_below(v, p + 1) && !has_divisor_below(v, p) {
        let d0 = choose|d: int| 2 <= d < p && d < p && #[trigger] (p % d) == 0;
        lemma_divides_transitive(v, p, d0);
        assert(p < v) by (nonlinear_arith)
            requires
                p * p <= v,
                2 <= p,
        ;
        assert(has_divisor_below(v, p));
        assert(false);
    }
}

/// Two strictly increasing sequences with the same members are equal.
pub proof fn lemma_strictly_increasing_unique(a: Seq<usize>, b: Seq<usize>)
    requires
        strictly_increasing(a),
        strictly_increasing(b),
        forall|v: usize| a.contains(v) <==> b.contains(v),
    ensures
        a == b,
    decreases a.len(),
{
    if a.len() == 0 {
        if b.len() > 0 {
            assert(b.contains(b[0]));
            assert(a.contains(b[0]));
        }
        assert(a =~= b);
    } else {
        assert(a.contains(a[0]));
        assert(b.contains(a[0]));
        assert(b.len() > 0);
        let j = choose|j: int| 0 <= j < b.len() && b[j] == a[0];
        assert(b[0] <= a[0]);
        assert(a.contains(b[0]));
        let k = choose|k: int| 0 <= k < a.len() && a[k] == b[0];
        assert(a[0] <= b[0]);
        let at = a.drop_first();
        let bt = b.drop_first();
        assert forall|v: usize| at.contains(v) implies bt.contains(v) by {
            let i = choose|i: int| 0 <= i < at.len() && at[i] == v;
            assert(a[i + 1] == v);
            assert(a.contains(v));
            assert(b.contains(v));
            let j2 = choose|j2: int| 0 <= j2 < b.len() && b[j2] == v;
            assert(a[0] < v);
            assert(j2 >= 1);
            assert(bt[j2 - 1] == v);
            assert(bt.contains(v));
        }
        assert forall|v: usize| bt.contains(v) implies at.contains(v) by {
            let i = choose|i: int| 0 <= i < bt.len() && bt[i] == v;
            assert(b[i + 1] == v);
            assert(b.contains(v));
            assert(a.contains(v));
            let j2 = choose|j2: int| 0 <= j2 < a.len() && a[j2] == v;
            assert(b[0] < v);
            assert(j2 >= 1);
            assert(at[j2 - 1] == v);
            assert(at.contains(v));
        }
        lemma_strictly_increasing_unique(at, bt);
        assert(a.len() == b.len());
        assert forall|i: int| 0 <= i < a.len() implies a[i] == b[i] by {
            if i > 0 {
                assert(a[i] == at[i - 1]);
                assert(b[i] == bt[i - 1]);
            }
        }
        assert(a =~= b);
    }
}

/// Agreement: any two sequences that satisfy the shared contract for the
/// same limit are equal element-wise. Since every implementation in this
/// crate ensures `prime_seq` of its result, any two of them — or the same
/// one invoked twice — produce identical sequences for a given limit.
pub proof fn lemma_prime_seq_unique(a: Seq<usize>, b: Seq<usize>, limit: usize)
    requires
        prime_seq(a, limit),
        prime_seq(b, limit),
    ensures
        a == b,
{
    assert forall|v: usize| a.contains(v) implies b.contains(v) by {
        let i = choose|i: int| 0 <= i < a.len() && a[i] == v;
        assert(is_prime(v as int) && v <= limit);
        assert(b.contains(v));
    }
    assert forall|v: usize| b.contains(v) implies a.contains(v) by {
        let i = choose|i: int| 0 <= i < b.len() && b[i] == v;
        assert(is_prime(v as int) && v <= limit);
        assert(a.contains(v));
    }
    lemma_strictly_increasing_unique(a, b);
}

/// The last element of a prime sequence equals the limit exactly when the
/// limit itself is prime (for a non-prime limit the sequence is empty or
/// ends below the limit).
pub proof fn lemma_last_is_limit_iff_prime(s: Seq<usize>, limit: usize)
    requires
        prime_seq(s, limit),
    ensures
        (s.len() > 0 && s.last() == limit) <==> is_prime(limit as int),
{
    if is_prime(limit as int) {
        assert(s.contains(limit));
        let i = choose|i: int| 0 <= i < s.len() && s[i] == limit;
        assert(s.last() >= limit);
        assert(s.last() <= limit);
    }
    if s.len() > 0 && s.last() == limit {
        assert(is_prime(s[s.len() - 1] as int));
    }
}

} // verus!

