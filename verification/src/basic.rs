//! Classic sieve of Eratosthenes over a dense array of boolean flags, one
//! flag per integer from 0 to the limit. A set flag means "not yet known
//! composite"; marking starts at the square of each surviving base.

use crate::has_divisor_below;
use crate::is_prime;
use crate::lemma_composite_bound_step;
use crate::lemma_divisor_bound_step;
use crate::lemma_next_multiple;
use crate::lemma_sieved_is_prime;
use crate::lemma_sqrt_bound;
use crate::prime_seq;
use crate::strictly_increasing;
use vstd::arithmetic::div_mod::lemma_div_nonincreasing;
use vstd::arithmetic::div_mod::lemma_mod_multiples_basic;
use vstd::prelude::*;

verus! {

/// Ascending sequence of all primes at most `limit`, found with a dense
/// boolean sieve. The flag array has `limit + 1` entries, so the limit must
/// leave room for that length.
pub fn primes(limit: usize) -> (r: Vec<usize>)
    requires
        limit < usize::MAX,
    ensures
        prime_seq(r@, limit),
{
    let mut r: Vec<usize> = Vec::new();
    if limit < 2 {
        assert(forall|p: usize| is_prime(p as int) ==> p >= 2);
        return r;
    }
    let mut flags: Vec<bool> = Vec::new();
    while flags.len() < limit + 1
        invariant
            limit < usize::MAX,
            flags@.len() <= limit + 1,
            forall|k: int| 0 <= k < flags@.len() ==> flags@[k] == true,
        decreases limit + 1 - flags@.len(),
    {
        flags.push(true);
    }
    flags.set(0, false);
    flags.set(1, false);

    let mut p: usize = 2;
    while p <= limit / p
        invariant
            2 <= p <= limit + 1,
            2 <= limit < usize::MAX,
            flags@.len() == limit + 1,
            flags@[0] == false,
            flags@[1] == false,
            forall|v: int|
                2 <= v <= limit ==> ((#[trigger] flags@[v]) <==> !has_divisor_below(
                    v,
                    p as int,
                )),
        decreases limit + 1 - p,
    {
        proof {
            lemma_sqrt_bound(p as int, limit as int);
            lemma_div_nonincreasing(limit as int, p as int);
            assert(p * p <= limit);
        }
        if flags[p] {
            proof {
                lemma_mod_multiples_basic(p as int, p as int);
            }
            let mut m: usize = p * p;
            loop
                invariant_except_break
                    2 <= p,
                    p * p <= m,
                    m <= limit,
                    (m as int) % (p as int) == 0,
                    limit < usize::MAX,
                    flags@.len() == limit + 1,
                    flags@[0] == false,
                    flags@[1] == false,
                    forall|v: int|
                        2 <= v <= limit ==> ((#[trigger] flags@[v]) <==> !(has_divisor_below(
                            v,
                            p as int,
                        ) || (v % (p as int) == 0 && p * p <= v < m))),
                ensures
                    2 <= p,
                    flags@.len() == limit + 1,
                    flags@[0] == false,
                    flags@[1] == false,
                    forall|v: int|
                        2 <= v <= limit ==> ((#[trigger] flags@[v]) <==> !(has_divisor_below(
                            v,
                            p as int,
                        ) || (v % (p as int) == 0 && p * p <= v))),
                decreases limit - m,
            {
                let ghost before = flags@;
                flags.set(m, false);
                proof {
                    assert(4 <= p * p) by (nonlinear_arith)
                        requires
                            2 <= p,
                    ;
                    lemma_mod_multiples_basic(m as int / (p as int), p as int);
                    assert forall|v: int|
                        2 <= v <= limit implies ((#[trigger] flags@[v]) <==> !(has_divisor_below(
                        v,
                        p as int,
                    ) || (v % (p as int) == 0 && p * p <= v <= m))) by {
                        if v == m {
                            assert(flags@[v] == false);
                        } else {
                            assert(flags@[v] == before[v]);
                        }
                    }
                }
                if limit - m < p {
                    proof {
                        assert forall|v: int|
                            2 <= v <= limit implies ((flags@[v]) <==> !(has_divisor_below(
                            v,
                            p as int,
                        ) || (v % (p as int) == 0 && p * p <= v))) by {
                            if v % (p as int) == 0 && p * p <= v && v > m {
                                lemma_next_multiple(v, m as int, p as int);
                            }
                        }
                    }
                    break ;
                }
                proof {
                    assert forall|v: int|
                        2 <= v <= limit implies ((flags@[v]) <==> !(has_divisor_below(
                        v,
                        p as int,
                    ) || (v % (p as int) == 0 && p * p <= v < m + p))) by {
                        if v % (p as int) == 0 && p * p <= v && m < v < m + p {
                            lemma_next_multiple(v, m as int, p as int);
                        }
                    }
                    vstd::arithmetic::div_mod::lemma_mod_add_multiples_vanish(
                        m as int,
                        p as int,
                    );
                }
                m = m + p;
            }
            proof {
                assert forall|v: int|
                    2 <= v <= limit implies ((flags@[v]) <==> !has_divisor_below(
                    v,
                    p as int + 1,
                )) by {
                    lemma_divisor_bound_step(v, p as int);
                }
            }
        } else {
            proof {
                assert(has_divisor_below(p as int, p as int));
                assert forall|v: int|
                    2 <= v <= limit implies ((flags@[v]) <==> !has_divisor_below(
                    v,
                    p as int + 1,
                )) by {
                    lemma_composite_bound_step(v, p as int);
                }
            }
        }
        p = p + 1;
    }
    proof {
        lemma_sqrt_bound(p as int, limit as int);
        assert forall|v: int| 2 <= v <= limit implies ((flags@[v]) <==> is_prime(v)) by {
            lemma_sieved_is_prime(v, p as int);
        }
    }

    let mut i: usize = 0;
    while i < limit + 1
        invariant
            i <= limit + 1,
            2 <= limit < usize::MAX,
            flags@.len() == limit + 1,
            flags@[0] == false,
            flags@[1] == false,
            forall|v: int| 2 <= v <= limit ==> ((#[trigger] flags@[v]) <==> is_prime(v)),
            strictly_increasing(r@),
            forall|k: int| 0 <= k < r@.len() ==> is_prime(#[trigger] r@[k] as int) && r@[k] < i,
            forall|q: usize| is_prime(q as int) && q < i ==> #[trigger] r@.contains(q),
        decreases limit + 1 - i,
    {
        let ghost before = r@;
        if flags[i] {
            r.push(i);
            proof {
                assert forall|q: usize| is_prime(q as int) && q < i + 1 implies #[trigger] r@
                    .contains(q) by {
                    if q < i {
                        assert(before.contains(q));
                        let k = choose|k: int| 0 <= k < before.len() && before[k] == q;
                        assert(r@[k] == q);
                    } else {
                        assert(r@[r@.len() - 1] == q);
                    }
                }
            }
        } else {
            proof {
                assert forall|q: usize| is_prime(q as int) && q < i + 1 implies #[trigger] r@
                    .contains(q) by {
                    if q < i {
                        assert(r@.contains(q));
                    } else {
                        assert(q == i && !flags@[i as int]);
                    }
                }
            }
        }
        i = i + 1;
    }
    proof {
        assert forall|q: usize| is_prime(q as int) && q <= limit implies #[trigger] r@.contains(
            q,
        ) by {
            assert(q < i);
        }
    }
    r
}

} // verus!
