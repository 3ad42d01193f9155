//! Bit-packed sieve of Eratosthenes: only the odd candidates from 3 up are
//! represented, one bit per candidate inside an array of 32-bit words. The
//! candidate at bit index `i` is the value `2 * i + 3`, and a set bit means
//! "known composite"; the value 2 is handled outside the bit array. The
//! number of base candidates is bounded by comparing each base against the
//! quotient `limit / base`, so the marking loop is entered only when the
//! base's square is within range — small limits never index out of bounds.

use crate::has_divisor_below;
use crate::is_prime;
use crate::lemma_composite_bound_step;
use crate::lemma_divides_transitive;
use crate::lemma_divisor_bound_step;
use crate::lemma_next_multiple;
use crate::lemma_sieved_is_prime;
use crate::lemma_sqrt_bound;
use crate::prime_seq;
use crate::strictly_increasing;
use vstd::arithmetic::div_mod::lemma_fundamental_div_mod;
use vstd::arithmetic::div_mod::lemma_mod_add_multiples_vanish;
use vstd::arithmetic::div_mod::lemma_mod_multiples_basic;
use vstd::prelude::*;

verus! {

/// The bit for candidate index `i`: bit `i % 32` of word `i / 32`.
spec fn bit_at(w: Seq<u32>, i: int) -> bool {
    (w[i / 32] >> ((i % 32) as u32)) & 1u32 == 1u32
}

/// Shifting and masking by the word size compute division and remainder.
proof fn lemma_shift_mask(i: usize)
    ensures
        i >> 5 == i / 32,
        i & 31 == i % 32,
{
    assert(i >> 5 == i / 32) by (bit_vector);
    assert(i & 31 == i % 32) by (bit_vector);
}

/// A cleared word has no set bit.
proof fn lemma_zero_word_bit(k: u32)
    ensures
        (0u32 >> k) & 1u32 != 1u32,
{
    assert((0u32 >> k) & 1u32 != 1u32) by (bit_vector);
}

/// Setting bit `j` of a word leaves every other bit as it was.
proof fn lemma_word_bit_set(w: u32, j: u32, k: u32)
    requires
        j < 32,
        k < 32,
    ensures
        (((w | (1u32 << j)) >> k) & 1u32 == 1u32) <==> (k == j || ((w >> k) & 1u32 == 1u32)),
{
    assert((j < 32 && k < 32) ==> ((((w | (1u32 << j)) >> k) & 1u32 == 1u32) <==> (k == j || ((w
        >> k) & 1u32 == 1u32)))) by (bit_vector);
}

/// Reads the bit for candidate index `i`.
fn get_bit(w: &Vec<u32>, i: usize) -> (b: bool)
    requires
        i as int / 32 < w@.len(),
    ensures
        b == bit_at(w@, i as int),
{
    proof {
        lemma_shift_mask(i);
    }
    let word: u32 = w[i >> 5];
    ((word >> ((i & 31) as u32)) & 1) == 1
}

/// Sets the bit for candidate index `i` and leaves every other bit as it was.
fn set_bit(w: &mut Vec<u32>, i: usize)
    requires
        i as int / 32 < old(w)@.len(),
    ensures
        final(w)@.len() == old(w)@.len(),
        forall|j: int|
            0 <= j < 32 * final(w)@.len() ==> ((#[trigger] bit_at(final(w)@, j)) <==> (j == i
                as int || bit_at(old(w)@, j))),
{
    proof {
        lemma_shift_mask(i);
    }
    let idx: usize = i >> 5;
    let word: u32 = w[idx];
    let updated: u32 = word | (1u32 << ((i & 31) as u32));
    w.set(idx, updated);
    proof {
        assert forall|j: int|
            0 <= j < 32 * w@.len() implies ((#[trigger] bit_at(w@, j)) <==> (j == i as int
            || bit_at(old(w)@, j))) by {
            lemma_fundamental_div_mod(j, 32);
            lemma_fundamental_div_mod(i as int, 32);
            if j / 32 == idx as int {
                lemma_word_bit_set(word, (i as int % 32) as u32, (j % 32) as u32);
            } else {
                assert(w@[j / 32] == old(w)@[j / 32]);
            }
        }
    }
}

/// An odd number has no even divisor.
proof fn lemma_odd_no_even_divisor(v: int, d: int)
    requires
        2 <= d,
        d % 2 == 0,
        v % 2 == 1,
    ensures
        v % d != 0,
{
    if v % d == 0 {
        lemma_divides_transitive(v, d, 2);
    }
}

/// For an odd value, raising the divisor bound from odd `p` by 2 adds
/// exactly the multiples of `p` at or above `p * p`: the intervening even
/// bound contributes nothing.
proof fn lemma_odd_prime_step(v: int, p: int)
    requires
        3 <= p,
        p % 2 == 1,
        2 <= v,
        v % 2 == 1,
    ensures
        has_divisor_below(v, p + 2) <==> (has_divisor_below(v, p) || (v % p == 0 && p * p <= v)),
{
    lemma_divisor_bound_step(v, p);
    lemma_divisor_bound_step(v, p + 1);
    lemma_odd_no_even_divisor(v, p + 1);
}

/// For an odd value, a composite odd base contributes nothing when the
/// bound passes it, and neither does the even bound after it.
proof fn lemma_odd_composite_step(v: int, p: int)
    requires
        3 <= p,
        p % 2 == 1,
        2 <= v,
        v % 2 == 1,
        has_divisor_below(p, p),
    ensures
        has_divisor_below(v, p + 2) <==> has_divisor_below(v, p),
{
    lemma_composite_bound_step(v, p);
    lemma_divisor_bound_step(v, p + 1);
    lemma_odd_no_even_divisor(v, p + 1);
}

/// Ascending sequence of all primes at most `limit`, found with a sieve
/// whose buffer holds one bit per odd candidate from 3 up; the prime 2 is
/// emitted separately.
pub fn primes(limit: usize) -> (r: Vec<usize>)
    ensures
        prime_seq(r@, limit),
{
    let mut r: Vec<usize> = Vec::new();
    if limit < 2 {
        assert(forall|q: usize| is_prime(q as int) ==> q >= 2);
        return r;
    }
    r.push(2);
    assert(is_prime(2));
    if limit < 3 {
        proof {
            assert forall|q: usize| is_prime(q as int) && q <= limit implies #[trigger] r@.contains(
                q,
            ) by {
                assert(r@[0] == q);
            }
        }
        return r;
    }
    let ndxlmt: usize = (limit - 3) / 2 + 1;
    let bfsz: usize = (limit - 3) / 2 / 32 + 1;
    let mut cmpsts: Vec<u32> = Vec::new();
    while cmpsts.len() < bfsz
        invariant
            cmpsts@.len() <= bfsz,
            forall|k: int| 0 <= k < cmpsts@.len() ==> cmpsts@[k] == 0u32,
        decreases bfsz - cmpsts@.len(),
    {
        cmpsts.push(0u32);
    }
    proof {
        lemma_fundamental_div_mod((limit - 3) as int / 2, 32);
        assert(32 * bfsz >= ndxlmt);
        assert forall|i: int|
            0 <= i < ndxlmt implies ((#[trigger] bit_at(cmpsts@, i)) <==> has_divisor_below(
            2 * i + 3,
            3,
        )) by {
            lemma_zero_word_bit((i % 32) as u32);
            assert((2 * i + 3) % 2 == 1);
            assert(!has_divisor_below(2 * i + 3, 3));
        }
    }

    let mut ndx: usize = 0;
    let mut p: usize = 3;
    while p <= limit / p
        invariant
            p == 2 * ndx + 3,
            3 <= limit,
            p <= limit + 2,
            ndxlmt == (limit - 3) / 2 + 1,
            cmpsts@.len() == bfsz,
            32 * bfsz >= ndxlmt,
            forall|i: int|
                0 <= i < ndxlmt ==> ((#[trigger] bit_at(cmpsts@, i)) <==> has_divisor_below(
                    2 * i + 3,
                    p as int,
                )),
        decreases limit + 2 - p,
    {
        proof {
            lemma_sqrt_bound(p as int, limit as int);
            assert(3 * p <= p * p) by (nonlinear_arith)
                requires
                    3 <= p,
            ;
            assert(p < limit && limit >= 9);
            assert(ndx < ndxlmt);
        }
        if !get_bit(&cmpsts, ndx) {
            proof {
                lemma_mod_multiples_basic(p as int, p as int);
                assert(p * p == 2 * (2 * (ndx as int) * (ndx as int) + 6 * ndx + 3) + 3)
                    by (nonlinear_arith)
                    requires
                        p == 2 * ndx + 3,
                ;
            }
            let mut cullpos: usize = (p * p - 3) / 2;
            proof {
                assert(2 * cullpos + 3 == p * p);
            }
            while cullpos < ndxlmt
                invariant
                    p == 2 * ndx + 3,
                    3 <= p,
                    p * p <= limit,
                    3 <= limit,
                    ndxlmt == (limit - 3) / 2 + 1,
                    cmpsts@.len() == bfsz,
                    32 * bfsz >= ndxlmt,
                    p * p <= 2 * cullpos + 3,
                    (2 * (cullpos as int) + 3) % (p as int) == 0,
                    forall|i: int|
                        0 <= i < ndxlmt ==> ((#[trigger] bit_at(cmpsts@, i)) <==> (has_divisor_below(
                            2 * i + 3,
                            p as int,
                        ) || ((2 * i + 3) % (p as int) == 0 && p * p <= 2 * i + 3 < 2 * cullpos
                            + 3))),
                decreases ndxlmt + p - cullpos,
            {
                let ghost before = cmpsts@;
                set_bit(&mut cmpsts, cullpos);
                proof {
                    let vc = 2 * (cullpos as int) + 3;
                    lemma_mod_add_multiples_vanish(vc, p as int);
                    lemma_mod_add_multiples_vanish(vc + p, p as int);
                    assert forall|i: int|
                        0 <= i < ndxlmt implies ((#[trigger] bit_at(cmpsts@, i))
                        <==> (has_divisor_below(2 * i + 3, p as int) || ((2 * i + 3) % (p as int)
                        == 0 && p * p <= 2 * i + 3 < vc + 2 * p))) by {
                        let v = 2 * i + 3;
                        assert(bit_at(cmpsts@, i) <==> (i == cullpos as int || bit_at(before, i)));
                        if i != cullpos as int && v % (p as int) == 0 && p * p <= v && vc < v < vc
                            + 2 * p {
                            if v > vc + p {
                                lemma_next_multiple(v, vc + p, p as int);
                            } else if v < vc + p {
                                lemma_next_multiple(v, vc, p as int);
                            } else {
                                assert(v % 2 == 1 && (vc + p) % 2 == 0);
                            }
                        }
                    }
                    assert(3 * p <= p * p) by (nonlinear_arith)
                        requires
                            3 <= p,
                    ;
                }
                cullpos = cullpos + p;
            }
            proof {
                assert forall|i: int|
                    0 <= i < ndxlmt implies ((bit_at(cmpsts@, i)) <==> has_divisor_below(
                    2 * i + 3,
                    p as int + 2,
                )) by {
                    lemma_odd_prime_step(2 * i + 3, p as int);
                }
            }
        } else {
            proof {
                assert(has_divisor_below(p as int, p as int));
                assert forall|i: int|
                    0 <= i < ndxlmt implies ((bit_at(cmpsts@, i)) <==> has_divisor_below(
                    2 * i + 3,
                    p as int + 2,
                )) by {
                    lemma_odd_composite_step(2 * i + 3, p as int);
                }
            }
        }
        ndx = ndx + 1;
        p = p + 2;
    }
    proof {
        lemma_sqrt_bound(p as int, limit as int);
        assert forall|i: int|
            0 <= i < ndxlmt implies ((bit_at(cmpsts@, i)) <==> !is_prime(2 * i + 3)) by {
            lemma_sieved_is_prime(2 * i + 3, p as int);
        }
    }

    proof {
        assert forall|q: usize|
            is_prime(q as int) && q <= limit && q < 3 implies #[trigger] r@.contains(q) by {
            assert(r@[0] == q);
        }
    }
    let mut i: usize = 0;
    while i < ndxlmt
        invariant
            i <= ndxlmt,
            3 <= limit,
            ndxlmt == (limit - 3) / 2 + 1,
            cmpsts@.len() == bfsz,
            32 * bfsz >= ndxlmt,
            forall|k: int|
                0 <= k < ndxlmt ==> ((#[trigger] bit_at(cmpsts@, k)) <==> !is_prime(2 * k + 3)),
            strictly_increasing(r@),
            forall|k: int|
                0 <= k < r@.len() ==> is_prime(#[trigger] r@[k] as int) && r@[k] <= limit && r@[k]
                    < 2 * i + 3,
            forall|q: usize|
                is_prime(q as int) && q <= limit && q < 2 * i + 3 ==> #[trigger] r@.contains(q),
        decreases ndxlmt - i,
    {
        let ghost before = r@;
        if !get_bit(&cmpsts, i) {
            r.push(2 * i + 3);
            proof {
                assert forall|q: usize|
                    is_prime(q as int) && q <= limit && q < 2 * i + 5 implies #[trigger] r@
                    .contains(q) by {
                    if q < 2 * i + 3 {
                        assert(before.contains(q));
                        let k = choose|k: int| 0 <= k < before.len() && before[k] == q;
                        assert(r@[k] == q);
                    } else if q == 2 * i + 3 {
                        assert(r@[r@.len() - 1] == q);
                    } else {
                        assert(q == 2 * i + 4 && q % 2 == 0 && q > 2);
                        assert((q as int) % 2 == 0);
                    }
                }
            }
        } else {
            proof {
                assert forall|q: usize|
                    is_prime(q as int) && q <= limit && q < 2 * i + 5 implies #[trigger] r@
                    .contains(q) by {
                    if q < 2 * i + 3 {
                        assert(r@.contains(q));
                    } else if q == 2 * i + 3 {
                        assert(bit_at(cmpsts@, i as int));
                    } else {
                        assert(q == 2 * i + 4 && (q as int) % 2 == 0 && q > 2);
                    }
                }
            }
        }
        i = i + 1;
    }
    proof {
        assert forall|q: usize| is_prime(q as int) && q <= limit implies #[trigger] r@.contains(
            q,
        ) by {
            assert(q < 2 * i + 3);
        }
    }
    r
}

} // verus!
