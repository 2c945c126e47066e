//! Brute-force period finding: the smallest `r > 0` with `a^r ≡ 1 (mod n)`,
//! found by sequential multiplication and bounded by a heuristic ceiling of
//! `n²` steps. This sequential scan is the classical stand-in for quantum
//! period finding.

use vstd::prelude::*;

verus! {

use vstd::arithmetic::power::{pow, lemma_pow1, lemma_pow_adds};
use vstd::arithmetic::div_mod::lemma_mul_mod_noop_general;
use num_bigint::BigUint;
use crate::arith::{gcd_nat, pow_mod, is_order};
use crate::bignum::{big_value, big_from_u64, big_eq, big_add, big_mul, big_mod, big_gcd, big_lt};

/// `a` has a multiplicative order modulo `n` no larger than `bound`.
pub open spec fn has_order_within(a: nat, n: nat, bound: nat) -> bool {
    exists|r: nat| r <= bound && #[trigger] is_order(a, n, r)
}

/// The multiplicative order of `a` modulo `n`, where one exists within
/// `bound`; orders are unique, so this names a single value.
pub open spec fn order_within(a: nat, n: nat, bound: nat) -> nat {
    choose|r: nat| r <= bound && #[trigger] is_order(a, n, r)
}

/// Searches for the multiplicative order of `a` modulo `n`.
///
/// Returns `Some(r)` exactly when `a` is coprime to `n` and its order `r`
/// is at most `n²`; the order is both valid (`a^r ≡ 1 (mod n)`) and minimal.
/// Returns `None` when `a` shares a factor with `n` (a defined short-circuit,
/// not an error) or when no exponent up to the `n²` ceiling brings the power
/// back to one.
pub fn find_period_classical(a: &BigUint, n: &BigUint) -> (res: Option<BigUint>)
    requires
        big_value(*n) >= 1,
    ensures
        match res {
            Some(r) => gcd_nat(big_value(*a), big_value(*n)) == 1 && is_order(
                big_value(*a),
                big_value(*n),
                big_value(r),
            ) && big_value(r) <= big_value(*n) * big_value(*n),
            None => gcd_nat(big_value(*a), big_value(*n)) != 1 || forall|k: nat|
                0 < k <= big_value(*n) * big_value(*n) ==> pow_mod(
                    big_value(*a),
                    k,
                    big_value(*n),
                ) != 1,
        },
{
    let ghost av = big_value(*a);
    let ghost nv = big_value(*n);
    let one = big_from_u64(1);
    let g = big_gcd(a, n);
    if !big_eq(&g, &one) {
        return None;
    }
    let mut x = big_mod(a, n);
    let mut r = big_from_u64(1);
    let limit = big_mul(n, n);
    proof {
        lemma_pow1(av as int);
        assert(nv * nv >= 1) by (nonlinear_arith)
            requires
                nv >= 1,
        ;
    }
    loop
        invariant
            big_value(*a) == av,
            big_value(*n) == nv,
            nv >= 1,
            big_value(one) == 1,
            gcd_nat(av, nv) == 1,
            big_value(limit) == nv * nv,
            1 <= big_value(r) <= big_value(limit),
            big_value(x) == pow_mod(av, big_value(r), nv),
            forall|k: nat| 0 < k < big_value(r) ==> pow_mod(av, k, nv) != 1,
        decreases big_value(limit) + 1 - big_value(r),
    {
        if big_eq(&x, &one) {
            return Some(r);
        }
        x = big_mod(&big_mul(&x, a), n);
        r = big_add(&r, &one);
        proof {
            let prev = (big_value(r) - 1) as nat;
            lemma_mul_mod_noop_general(pow(av as int, prev), av as int, nv as int);
            lemma_pow_adds(av as int, prev, 1);
            lemma_pow1(av as int);
        }
        if big_lt(&limit, &r) {
            return None;
        }
    }
}

} // verus!
