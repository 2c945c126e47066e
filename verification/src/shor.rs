//! The classical Shor loop: sample a random base, short-circuit through the
//! greatest common divisor, find the base's period, check parity and the
//! `-1 mod n` exclusion, and derive a factor pair from `a^(r/2) ± 1`.

use vstd::prelude::*;

verus! {

use num_bigint::BigUint;
use crate::arith::{
    gcd_nat, pow_mod, is_order, lemma_gcd_divides, lemma_gcd_pos, lemma_divides_le,
    lemma_div_exact, lemma_cofactor_bounds, lemma_order_unique, modpow,
};
use crate::bignum::{
    big_value, big_from_u64, big_eq, big_lt, big_add, big_sub, big_checked_sub, big_div,
    big_is_even, big_gcd, sample_range,
};
use crate::period::{find_period_classical, has_order_within, order_within};
use vstd::arithmetic::div_mod::{lemma_fundamental_div_mod, lemma_div_is_strictly_smaller};

/// Why factoring produced no pair.
#[derive(Clone, Copy, PartialEq, Eq, Debug)]
pub enum FactorError {
    /// The input was zero or one: nothing to factor.
    InvalidInput,
    /// Every base the retry budget allowed was tried without yielding a
    /// nontrivial factor.
    Exhausted,
}

/// `term - 1` with the wraparound the derivation uses: when `term` is zero
/// the subtraction wraps modulo `n` to `n - 1`.
pub open spec fn wrap_pred(term: nat, n: nat) -> nat {
    if term >= 1 {
        (term - 1) as nat
    } else {
        (n - 1) as nat
    }
}

/// What one iteration of the Shor loop decides for a drawn base `a`, as a
/// function of `a` and `n` alone: the gcd short-circuit, the period search
/// with its `n²` ceiling, the parity and `-1 mod n` rejections, and the
/// candidate derivation from `a^(r/2) ± 1`, preferring the `term - 1`
/// candidate when both are nontrivial.
pub open spec fn base_outcome(a: nat, n: nat) -> Option<(nat, nat)> {
    let g = gcd_nat(a, n);
    if g > 1 {
        Some((g, n / g))
    } else if !has_order_within(a, n, n * n) {
        None
    } else {
        let r = order_within(a, n, n * n);
        if r % 2 == 1 {
            None
        } else {
            let term = pow_mod(a, r / 2, n);
            if term == n - 1 {
                None
            } else {
                let c_minus = gcd_nat(wrap_pred(term, n), n);
                let c_plus = gcd_nat(term + 1, n);
                if 1 < c_minus < n {
                    Some((c_minus, n / c_minus))
                } else if 1 < c_plus < n {
                    Some((c_plus, n / c_plus))
                } else {
                    None
                }
            }
        }
    }
}

/// One iteration of the Shor loop for the drawn base `a`: exactly the
/// decision that `base_outcome` states, and any returned pair is a
/// nontrivial factorization of `n`.
pub fn try_base(a: &BigUint, n: &BigUint) -> (res: Option<(BigUint, BigUint)>)
    requires
        big_value(*n) >= 3,
        2 <= big_value(*a) < big_value(*n),
    ensures
        match res {
            Some(pq) => base_outcome(big_value(*a), big_value(*n)) == Some(
                (big_value(pq.0), big_value(pq.1)),
            ) && big_value(pq.0) * big_value(pq.1) == big_value(*n) && 1 < big_value(pq.0)
                < big_value(*n) && 1 < big_value(pq.1) < big_value(*n),
            None => base_outcome(big_value(*a), big_value(*n)) is None,
        },
{
    let ghost av = big_value(*a);
    let ghost nv = big_value(*n);
    let one = big_from_u64(1);
    let two = big_from_u64(2);
    let g = big_gcd(a, n);
    if big_lt(&one, &g) {
        // The drawn base already shares a factor with `n`.
        let q = big_div(n, &g);
        proof {
            lemma_gcd_divides(av, nv);
            lemma_divides_le(big_value(g), av);
            lemma_div_exact(big_value(g), nv);
            lemma_cofactor_bounds(big_value(g), big_value(q), nv);
        }
        return Some((g, q));
    }
    proof {
        lemma_gcd_pos(av, nv);
    }
    match find_period_classical(a, n) {
        None => {
            // Coprime, but no order within the ceiling was found.
            proof {
                assert(!has_order_within(av, nv, nv * nv)) by {
                    if has_order_within(av, nv, nv * nv) {
                        let r = choose|r: nat| r <= nv * nv && #[trigger] is_order(av, nv, r);
                        assert(pow_mod(av, r, nv) != 1);
                    }
                }
            }
            None
        },
        Some(r) => {
            proof {
                assert(has_order_within(av, nv, nv * nv)) by {
                    assert(big_value(r) <= nv * nv && is_order(av, nv, big_value(r)));
                }
                lemma_order_unique(av, nv, order_within(av, nv, nv * nv), big_value(r));
            }
            if !big_is_even(&r) {
                // An odd period gives no square root to work with.
                return None;
            }
            let r_half = big_div(&r, &two);
            let term = modpow(a, &r_half, n);
            let n_minus_1 = big_sub(n, &one);
            if big_eq(&term, &n_minus_1) {
                // `a^(r/2) ≡ -1 (mod n)`: the pair collapses to trivial
                // factors for this base.
                return None;
            }
            let c_plus = big_gcd(&big_add(&term, &one), n);
            let t_minus = match big_checked_sub(&term, &one) {
                Some(t) => t,
                None => n_minus_1.clone(),
            };
            let c_minus = big_gcd(&t_minus, n);
            if big_lt(&one, &c_minus) && big_lt(&c_minus, n) {
                let q = big_div(n, &c_minus);
                proof {
                    lemma_gcd_divides(big_value(t_minus), nv);
                    lemma_div_exact(big_value(c_minus), nv);
                    lemma_cofactor_bounds(big_value(c_minus), big_value(q), nv);
                }
                return Some((c_minus, q));
            }
            if big_lt(&one, &c_plus) && big_lt(&c_plus, n) {
                let q = big_div(n, &c_plus);
                proof {
                    lemma_gcd_divides(big_value(term) + 1, nv);
                    lemma_div_exact(big_value(c_plus), nv);
                    lemma_cofactor_bounds(big_value(c_plus), big_value(q), nv);
                }
                return Some((c_plus, q));
            }
            // Both candidates were trivial.
            None
        },
    }
}

/// Factors `n` by the structure of Shor's algorithm with brute-force period
/// finding.
///
/// An even input is split as `(2, n/2)` at once, with no randomness; an input
/// of zero or one is rejected. Otherwise up to `attempts` random bases are
/// tried, each through `try_base`, whose contract fixes the outcome per base;
/// `Err(FactorError::Exhausted)` reports that the budget ran out (a bounded
/// strengthening of a loop that would otherwise retry forever). Any returned
/// pair multiplies back to `n` exactly, and for `n > 3` both factors are
/// nontrivial: strictly between one and `n`.
pub fn shors_algorithm(n: &BigUint, attempts: u64) -> (res: Result<
    (BigUint, BigUint),
    FactorError,
>)
    ensures
        big_value(*n) <= 1 <==> (res matches Err(e) && e == FactorError::InvalidInput),
        big_value(*n) >= 2 && big_value(*n) % 2 == 0 ==> (res matches Ok(pq) && big_value(pq.0)
            == 2 && big_value(pq.1) == big_value(*n) / 2),
        res matches Ok(pq) ==> big_value(pq.0) * big_value(pq.1) == big_value(*n),
        big_value(*n) > 3 ==> (res matches Ok(pq) ==> 1 < big_value(pq.0) < big_value(*n) && 1
            < big_value(pq.1) < big_value(*n)),
        big_value(*n) >= 3 && big_value(*n) % 2 == 1 && attempts == 0 ==> (res matches Err(e)
            && e == FactorError::Exhausted),
{
    let ghost nv = big_value(*n);
    let two = big_from_u64(2);
    if big_lt(n, &two) {
        return Err(FactorError::InvalidInput);
    }
    if big_is_even(n) {
        let half = big_div(n, &two);
        proof {
            lemma_fundamental_div_mod(nv as int, 2);
            if nv > 3 {
                lemma_div_is_strictly_smaller(nv as int, 2);
            }
        }
        return Ok((two, half));
    }
    let mut i: u64 = 0;
    while i < attempts
        invariant
            big_value(*n) == nv,
            nv >= 3,
            nv % 2 == 1,
            big_value(two) == 2,
            i <= attempts,
        decreases attempts - i,
    {
        let a = sample_range(&two, n);
        match try_base(&a, n) {
            Some(pq) => {
                return Ok(pq);
            },
            None => {
                i += 1;
            },
        }
    }
    Err(FactorError::Exhausted)
}

} // verus!
