//! Mathematical specifications for the arithmetic the factorizer rests on:
//! divisibility, Euclid's greatest common divisor, and modular powers.

use vstd::prelude::*;

verus! {

use vstd::arithmetic::power::{pow, lemma_pow0, lemma_pow1, lemma_pow_adds};
use vstd::arithmetic::div_mod::{
    lemma_fundamental_div_mod, lemma_mul_mod_noop_general, lemma_div_multiples_vanish,
    lemma_div_is_strictly_smaller, lemma_mod_division_less_than_divisor,
};
use num_bigint::BigUint;
use crate::bignum::{big_value, big_from_u64, big_eq, big_div, big_mod, big_mul, big_is_even,
    big_gcd};

/// `d` divides `n`: some whole number of copies of `d` makes `n`.
pub open spec fn divides(d: nat, n: nat) -> bool {
    exists|k: nat| n == #[trigger] (d * k)
}

/// Euclid's greatest common divisor; `gcd_nat(a, 0) == a`, so
/// `gcd_nat(0, 0) == 0` by convention.
pub open spec fn gcd_nat(a: nat, b: nat) -> nat
    decreases b,
{
    if b == 0 {
        a
    } else {
        gcd_nat(b, a % b)
    }
}

/// `b^e mod m` as a mathematical value.
pub open spec fn pow_mod(b: nat, e: nat, m: nat) -> nat {
    (pow(b as int, e) % (m as int)) as nat
}

/// `r` is the multiplicative order of `a` modulo `n`: the smallest positive
/// exponent with `a^r ≡ 1 (mod n)`.
pub open spec fn is_order(a: nat, n: nat, r: nat) -> bool {
    &&& r >= 1
    &&& pow_mod(a, r, n) == 1
    &&& forall|k: nat| 0 < k < r ==> pow_mod(a, k, n) != 1
}

/// A multiplicative order is unique: two exponents that are both valid and
/// both minimal are the same exponent.
pub proof fn lemma_order_unique(a: nat, n: nat, r1: nat, r2: nat)
    requires
        is_order(a, n, r1),
        is_order(a, n, r2),
    ensures
        r1 == r2,
{
    if r1 < r2 {
        assert(pow_mod(a, r1, n) != 1);
    }
    if r2 < r1 {
        assert(pow_mod(a, r2, n) != 1);
    }
}

/// The greatest common divisor divides both of its arguments.
pub proof fn lemma_gcd_divides(a: nat, b: nat)
    ensures
        divides(gcd_nat(a, b), a),
        divides(gcd_nat(a, b), b),
    decreases b,
{
    if b == 0 {
        assert(a == gcd_nat(a, b) * 1);
        assert(0 == gcd_nat(a, b) * 0);
    } else {
        let g = gcd_nat(b, a % b);
        lemma_gcd_divides(b, a % b);
        let kb = choose|k: nat| b == #[trigger] (g * k);
        let kr = choose|k: nat| a % b == #[trigger] (g * k);
        lemma_fundamental_div_mod(a as int, b as int);
        let q = a as int / b as int;
        assert(a as int == g * kb * q + g * kr);
        assert(a as int == g * (kb * q + kr)) by (nonlinear_arith)
            requires
                a as int == g * kb * q + g * kr,
        ;
        assert(kb * q + kr >= 0) by (nonlinear_arith)
            requires
                kb >= 0 && kr >= 0 && q >= 0,
        ;
        assert(a == g * ((kb * q + kr) as nat));
    }
}

/// Every common divisor of `a` and `b` divides their greatest common divisor.
pub proof fn lemma_gcd_common_divisor(d: nat, a: nat, b: nat)
    requires
        divides(d, a),
        divides(d, b),
    ensures
        divides(d, gcd_nat(a, b)),
    decreases b,
{
    if b == 0 {
    } else {
        let ka = choose|k: nat| a == #[trigger] (d * k);
        let kb = choose|k: nat| b == #[trigger] (d * k);
        assert(d >= 1) by (nonlinear_arith)
            requires
                b == d * kb,
                b > 0,
        ;
        lemma_fundamental_div_mod(a as int, b as int);
        let q = a as int / b as int;
        assert(q >= 0) by {
            vstd::arithmetic::div_mod::lemma_div_pos_is_pos(a as int, b as int);
        }
        let kk = ka - kb * q;
        assert(d * kk == a % b) by (nonlinear_arith)
            requires
                kk == ka - kb * q,
                a == d * ka,
                b == d * kb,
                a as int == b * q + (a % b),
        ;
        assert(kk >= 0) by (nonlinear_arith)
            requires
                d * kk == a % b,
                a % b >= 0,
                d >= 1,
        ;
        assert(a % b == d * (kk as nat));
        lemma_gcd_common_divisor(d, b, a % b);
    }
}

/// A nonzero number's divisors lie between one and the number itself.
pub proof fn lemma_divides_le(d: nat, n: nat)
    requires
        divides(d, n),
        n > 0,
    ensures
        1 <= d <= n,
{
    let k = choose|j: nat| n == #[trigger] (d * j);
    assert(1 <= d <= n) by (nonlinear_arith)
        requires
            n == d * k,
            n > 0,
    ;
}

/// The greatest common divisor is zero only when both arguments are.
pub proof fn lemma_gcd_pos(a: nat, b: nat)
    requires
        a > 0 || b > 0,
    ensures
        gcd_nat(a, b) >= 1,
    decreases b,
{
    if b == 0 {
    } else {
        lemma_gcd_pos(b, a % b);
    }
}

/// A divisor goes into its multiple exactly: `d * (n / d) == n`.
pub proof fn lemma_div_exact(d: nat, n: nat)
    requires
        divides(d, n),
        d >= 1,
    ensures
        d * (n / d) == n,
{
    let k = choose|j: nat| n == #[trigger] (d * j);
    lemma_div_multiples_vanish(k as int, d as int);
    assert(n / d == k);
}

/// A factorization `n == c * q` with `1 < c < n` pins the cofactor strictly
/// between one and `n` as well.
pub proof fn lemma_cofactor_bounds(c: nat, q: nat, n: nat)
    requires
        n == c * q,
        1 < c < n,
    ensures
        1 < q < n,
{
    assert(1 < q < n) by (nonlinear_arith)
        requires
            n == c * q,
            1 < c < n,
    ;
}

/// Law: `gcd_nat(a, b)` divides both `a` and `b`, is the largest number that
/// does whenever `a` and `b` are not both zero, and `gcd_nat(a, 0) == a`.
pub proof fn lemma_gcd_correct(a: nat, b: nat)
    ensures
        divides(gcd_nat(a, b), a),
        divides(gcd_nat(a, b), b),
        forall|d: nat|
            #[trigger] divides(d, a) && divides(d, b) && (a > 0 || b > 0) ==> d <= gcd_nat(a, b),
        gcd_nat(a, 0) == a,
{
    lemma_gcd_divides(a, b);
    assert forall|d: nat|
        #[trigger] divides(d, a) && divides(d, b) && (a > 0 || b > 0) implies d <= gcd_nat(
        a,
        b,
    ) by {
        lemma_gcd_common_divisor(d, a, b);
        lemma_gcd_pos(a, b);
        lemma_divides_le(d, gcd_nat(a, b));
    }
}

/// Greatest common divisor of two arbitrary-precision non-negative integers;
/// a total function, with `gcd(0, 0) == 0`.
pub fn gcd(a: &BigUint, b: &BigUint) -> (r: BigUint)
    ensures
        big_value(r) == gcd_nat(big_value(*a), big_value(*b)),
{
    big_gcd(a, b)
}

/// Modular exponentiation by repeated squaring: `base^exponent mod modulus`,
/// always in `[0, modulus)`. A zero modulus is excluded: division by zero.
pub fn modpow(base: &BigUint, exponent: &BigUint, modulus: &BigUint) -> (r: BigUint)
    requires
        big_value(*modulus) >= 1,
    ensures
        big_value(r) == pow_mod(big_value(*base), big_value(*exponent), big_value(*modulus)),
        big_value(r) < big_value(*modulus),
    decreases big_value(*exponent),
{
    proof {
        lemma_mod_division_less_than_divisor(
            pow(big_value(*base) as int, big_value(*exponent)),
            big_value(*modulus) as int,
        );
    }
    let ghost bi = big_value(*base) as int;
    let ghost ev = big_value(*exponent);
    let ghost mi = big_value(*modulus) as int;
    let zero = big_from_u64(0);
    let one = big_from_u64(1);
    if big_eq(exponent, &zero) {
        proof {
            lemma_pow0(bi);
        }
        return big_mod(&one, modulus);
    }
    let two = big_from_u64(2);
    let half_e = big_div(exponent, &two);
    let ghost hv = ev / 2;
    proof {
        lemma_div_is_strictly_smaller(ev as int, 2);
    }
    let half = modpow(base, &half_e, modulus);
    let sq = big_mod(&big_mul(&half, &half), modulus);
    proof {
        lemma_mul_mod_noop_general(pow(bi, hv), pow(bi, hv), mi);
        lemma_pow_adds(bi, hv, hv);
        lemma_fundamental_div_mod(ev as int, 2);
    }
    if big_is_even(exponent) {
        assert(hv + hv == ev);
        sq
    } else {
        assert(hv + hv + 1 == ev);
        let rem_base = big_mod(base, modulus);
        let r = big_mul(&sq, &rem_base);
        let r = big_mod(&r, modulus);
        proof {
            lemma_mul_mod_noop_general(pow(bi, (hv + hv) as nat), bi, mi);
            lemma_pow_adds(bi, (hv + hv) as nat, 1);
            lemma_pow1(bi);
        }
        r
    }
}

} // verus!
