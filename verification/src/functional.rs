//! Sieve of Eratosthenes over a windowed flag array: the flag at position
//! `k` stands for the value `k + 2`, so the array covers exactly the values
//! from 2 to the limit. For each surviving base the strided walk starts at
//! the base itself, which is only inspected; every later stop — each proper
//! multiple of the base, beginning at twice the base — is cleared.

use crate::has_divisor_below;
use crate::is_prime;
use crate::lemma_composite_bound_step;
use crate::lemma_next_multiple;
use crate::lemma_sieved_is_prime;
use crate::lemma_sqrt_bound;
use crate::prime_seq;
use crate::strictly_increasing;
use vstd::arithmetic::div_mod::lemma_mod_multiples_basic;
use vstd::prelude::*;

verus! {

/// Raising the divisor bound from `p` to `p + 1` adds exactly the proper
/// multiples of `p`, which start at `2 * p`.
proof fn lemma_all_multiples_step(v: int, p: int)
    requires
        2 <= p,
        2 <= v,
    ensures
        has_divisor_below(v, p + 1) <==> (has_divisor_below(v, p) || (v % p == 0 && 2 * p <= v)),
{
    lemma_mod_multiples_basic(1, p);
    if has_divisor_below(v, p + 1) && !has_divisor_below(v, p) {
        let d = choose|d: int| 2 <= d < p + 1 && d < v && #[trigger] (v % d) == 0;
        assert(d == p);
        lemma_next_multiple(v, p, p);
    }
    if v % p == 0 && 2 * p <= v {
        assert(has_divisor_below(v, p + 1));
    }
    if has_divisor_below(v, p) {
        let d = choose|d: int| 2 <= d < p && d < v && #[trigger] (v % d) == 0;
        assert(has_divisor_below(v, p + 1));
    }
}

/// Ascending sequence of all primes at most `limit`, found with a sieve
/// over an offset flag array that marks every proper multiple of each
/// surviving base, starting at twice the base.
pub fn primes(limit: usize) -> (r: Vec<usize>)
    ensures
        prime_seq(r@, limit),
{
    let mut r: Vec<usize> = Vec::new();
    if limit < 2 {
        assert(forall|p: usize| is_prime(p as int) ==> p >= 2);
        return r;
    }
    let mut flags: Vec<bool> = Vec::new();
    while flags.len() < limit - 1
        invariant
            2 <= limit,
            flags@.len() <= limit - 1,
            forall|k: int| 0 <= k < flags@.len() ==> flags@[k] == true,
        decreases limit - 1 - flags@.len(),
    {
        flags.push(true);
    }

    let mut p: usize = 2;
    while p <= limit / p
        invariant
            2 <= p,
            p <= limit,
            2 <= limit,
            flags@.len() == limit - 1,
            forall|k: int|
                0 <= k < limit - 1 ==> ((#[trigger] flags@[k]) <==> !has_divisor_below(
                    k + 2,
                    p as int,
                )),
        decreases limit - p,
    {
        proof {
            lemma_sqrt_bound(p as int, limit as int);
            assert(2 * p <= p * p && p < limit) by (nonlinear_arith)
                requires
                    2 <= p,
                    p * p <= limit,
            ;
        }
        if flags[p - 2] {
            proof {
                lemma_mod_multiples_basic(2, p as int);
            }
            let mut m: usize = 2 * p;
            loop
                invariant_except_break
                    2 <= p < limit,
                    2 * p <= m,
                    m <= limit,
                    (m as int) % (p as int) == 0,
                    flags@.len() == limit - 1,
                    forall|k: int|
                        0 <= k < limit - 1 ==> ((#[trigger] flags@[k]) <==> !(has_divisor_below(
                            k + 2,
                            p as int,
                        ) || ((k + 2) % (p as int) == 0 && 2 * p <= k + 2 < m))),
                ensures
                    2 <= p,
                    flags@.len() == limit - 1,
                    forall|k: int|
                        0 <= k < limit - 1 ==> ((#[trigger] flags@[k]) <==> !(has_divisor_below(
                            k + 2,
                            p as int,
                        ) || ((k + 2) % (p as int) == 0 && 2 * p <= k + 2))),
                decreases limit - m,
            {
                let ghost before = flags@;
                flags.set(m - 2, false);
                proof {
                    lemma_mod_multiples_basic(m as int / (p as int), p as int);
                    assert forall|k: int|
                        0 <= k < limit - 1 implies ((#[trigger] flags@[k]) <==> !(has_divisor_below(
                        k + 2,
                        p as int,
                    ) || ((k + 2) % (p as int) == 0 && 2 * p <= k + 2 <= m))) by {
                        if k == m - 2 {
                            assert(flags@[k] == false);
                        } else {
                            assert(flags@[k] == before[k]);
                        }
                    }
                }
                if limit - m < p {
                    proof {
                        assert forall|k: int|
                            0 <= k < limit - 1 implies ((flags@[k]) <==> !(has_divisor_below(
                            k + 2,
                            p as int,
                        ) || ((k + 2) % (p as int) == 0 && 2 * p <= k + 2))) by {
                            if (k + 2) % (p as int) == 0 && 2 * p <= k + 2 && k + 2 > m {
                                lemma_next_multiple(k + 2, m as int, p as int);
                            }
                        }
                    }
                    break ;
                }
                proof {
                    assert forall|k: int|
                        0 <= k < limit - 1 implies ((flags@[k]) <==> !(has_divisor_below(
                        k + 2,
                        p as int,
                    ) || ((k + 2) % (p as int) == 0 && 2 * p <= k + 2 < m + p))) by {
                        if (k + 2) % (p as int) == 0 && 2 * p <= k + 2 && m < k + 2 < m + p {
                            lemma_next_multiple(k + 2, m as int, p as int);
                        }
                    }
                    vstd::arithmetic::div_mod::lemma_mod_add_multiples_vanish(
                        m as int,
                        p as int,
                    );
                }
                m = m + p;
            }
            proof {
                assert forall|k: int|
                    0 <= k < limit - 1 implies ((flags@[k]) <==> !has_divisor_below(
                    k + 2,
                    p as int + 1,
                )) by {
                    lemma_all_multiples_step(k + 2, p as int);
                    if (k + 2) % (p as int) == 0 && (p as int) < k + 2 {
                        lemma_mod_multiples_basic(1, p as int);
                        lemma_next_multiple(k + 2, p as int, p as int);
                    }
                }
            }
        } else {
            proof {
                assert(has_divisor_below(p as int, p as int));
                assert forall|k: int|
                    0 <= k < limit - 1 implies ((flags@[k]) <==> !has_divisor_below(
                    k + 2,
                    p as int + 1,
                )) by {
                    lemma_composite_bound_step(k + 2, p as int);
                }
            }
        }
        p = p + 1;
    }
    proof {
        lemma_sqrt_bound(p as int, limit as int);
        assert forall|k: int| 0 <= k < limit - 1 implies ((flags@[k]) <==> is_prime(k + 2)) by {
            lemma_sieved_is_prime(k + 2, p as int);
        }
    }

    let mut idx: usize = 0;
    while idx < limit - 1
        invariant
            idx <= limit - 1,
            2 <= limit,
            flags@.len() == limit - 1,
            forall|k: int| 0 <= k < limit - 1 ==> ((#[trigger] flags@[k]) <==> is_prime(k + 2)),
            strictly_increasing(r@),
            forall|k: int|
                0 <= k < r@.len() ==> is_prime(#[trigger] r@[k] as int) && r@[k] < idx + 2,
            forall|q: usize| is_prime(q as int) && q < idx + 2 ==> #[trigger] r@.contains(q),
        decreases limit - 1 - idx,
    {
        let ghost before = r@;
        if flags[idx] {
            r.push(idx + 2);
            proof {
                assert forall|q: usize| is_prime(q as int) && q < idx + 3 implies #[trigger] r@
                    .contains(q) by {
                    if q < idx + 2 {
                        assert(before.contains(q));
                        let k = choose|k: int| 0 <= k < before.len() && before[k] == q;
                        assert(r@[k] == q);
                    } else {
                        assert(r@[r@.len() - 1] == q);
                    }
                }
            }
        } else {
            proof {
                assert forall|q: usize| is_prime(q as int) && q < idx + 3 implies #[trigger] r@
                    .contains(q) by {
                    if q < idx + 2 {
                        assert(r@.contains(q));
                    } else {
                        assert(q == idx + 2 && !flags@[idx as int]);
                    }
                }
            }
        }
        idx = idx + 1;
    }
    proof {
        assert forall|q: usize| is_prime(q as int) && q <= limit implies #[trigger] r@.contains(
            q,
        ) by {
            assert(q < idx + 2);
        }
    }
    r
}

} // verus!
