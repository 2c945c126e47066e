use num_bigint::BigUint;
use shor_classical::arith::{gcd, modpow};
use shor_classical::period::find_period_classical;
use shor_classical::shor::{shors_algorithm, try_base, FactorError};

fn big(x: u64) -> BigUint {
    BigUint::from(x)
}

#[test]
fn gcd_48_18() {
    assert_eq!(gcd(&big(48), &big(18)), big(6));
}

#[test]
fn gcd_with_zero() {
    assert_eq!(gcd(&big(35), &big(0)), big(35));
    assert_eq!(gcd(&big(0), &big(35)), big(35));
    assert_eq!(gcd(&big(0), &big(0)), big(0));
}

#[test]
fn gcd_divides_both_and_is_largest() {
    let g = gcd(&big(84), &big(30));
    assert_eq!(g, big(6));
    assert_eq!(big(84) % &g, big(0));
    assert_eq!(big(30) % &g, big(0));
    for d in 7u64..=30 {
        assert!(!(big(84) % big(d) == big(0) && big(30) % big(d) == big(0)));
    }
}

#[test]
fn modpow_4_13_497() {
    assert_eq!(modpow(&big(4), &big(13), &big(497)), big(445));
}

#[test]
fn modpow_matches_repeated_multiplication() {
    for base in 0u64..6 {
        for exp in 0u64..8 {
            for m in 1u64..12 {
                let mut naive = big(1) % big(m);
                for _ in 0..exp {
                    naive = naive * big(base) % big(m);
                }
                assert_eq!(modpow(&big(base), &big(exp), &big(m)), naive);
            }
        }
    }
}

#[test]
fn modpow_result_below_modulus() {
    assert_eq!(modpow(&big(7), &big(0), &big(1)), big(0));
    assert_eq!(modpow(&big(0), &big(0), &big(5)), big(1));
    assert!(modpow(&big(123456789), &big(987654321), &big(1000)) < big(1000));
}

#[test]
fn find_period_2_15_is_4() {
    assert_eq!(find_period_classical(&big(2), &big(15)), Some(big(4)));
}

#[test]
fn find_period_2_7_is_3() {
    assert_eq!(find_period_classical(&big(2), &big(7)), Some(big(3)));
}

#[test]
fn find_period_of_one_is_one() {
    assert_eq!(find_period_classical(&big(1), &big(15)), Some(big(1)));
}

#[test]
fn find_period_non_coprime_is_none() {
    assert_eq!(find_period_classical(&big(6), &big(15)), None);
    assert_eq!(find_period_classical(&big(5), &big(15)), None);
}

#[test]
fn try_base_gcd_short_circuit() {
    // gcd(6, 15) = 3: the short-circuit returns that gcd and its cofactor.
    assert_eq!(try_base(&big(6), &big(15)), Some((big(3), big(5))));
}

#[test]
fn try_base_prefers_term_minus_candidate() {
    // Base 2 mod 15 has period 4, so term = 2^2 = 4: both gcd(3, 15) = 3 and
    // gcd(5, 15) = 5 are nontrivial, and the term - 1 candidate wins.
    assert_eq!(try_base(&big(2), &big(15)), Some((big(3), big(5))));
}

#[test]
fn try_base_derivation() {
    // Period 2, term 4: gcd(3, 15) = 3.
    assert_eq!(try_base(&big(4), &big(15)), Some((big(3), big(5))));
    // Period 2, term 11: gcd(10, 15) = 5.
    assert_eq!(try_base(&big(11), &big(15)), Some((big(5), big(3))));
}

#[test]
fn try_base_odd_period_rejected() {
    // 2 has period 3 modulo 7.
    assert_eq!(try_base(&big(2), &big(7)), None);
}

#[test]
fn try_base_minus_one_rejected() {
    // 14 has period 2 modulo 15 and term = 14 = n - 1.
    assert_eq!(try_base(&big(14), &big(15)), None);
}

#[test]
fn factor_4_even_fast_path() {
    assert_eq!(shors_algorithm(&big(4), 10), Ok((big(2), big(2))));
}

#[test]
fn factor_even_fast_path() {
    assert_eq!(shors_algorithm(&big(100), 10), Ok((big(2), big(50))));
    assert_eq!(shors_algorithm(&big(6), 10), Ok((big(2), big(3))));
}

#[test]
fn factor_15() {
    let (p, q) = shors_algorithm(&big(15), 200).expect("15 should factor");
    assert_eq!(&p * &q, big(15));
    assert!((p == big(3) && q == big(5)) || (p == big(5) && q == big(3)));
}

#[test]
fn factor_21() {
    let (p, q) = shors_algorithm(&big(21), 200).expect("21 should factor");
    assert_eq!(&p * &q, big(21));
    assert!(p > big(1) && p < big(21));
    assert!(q > big(1) && q < big(21));
}

#[test]
fn factor_rejects_zero_and_one() {
    assert_eq!(shors_algorithm(&big(0), 10), Err(FactorError::InvalidInput));
    assert_eq!(shors_algorithm(&big(1), 10), Err(FactorError::InvalidInput));
}

#[test]
fn factor_prime_exhausts_budget() {
    // Every base modulo 7 ends in a retry: the gcd is always one, and each
    // period is either odd or puts a^(r/2) at -1 mod 7.
    assert_eq!(shors_algorithm(&big(7), 5), Err(FactorError::Exhausted));
}

#[test]
fn factor_zero_attempts_exhausts() {
    assert_eq!(shors_algorithm(&big(15), 0), Err(FactorError::Exhausted));
}
