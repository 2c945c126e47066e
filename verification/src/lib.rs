//! Classical simulation of Shor's integer factorization: greatest common
//! divisor, modular exponentiation, brute-force multiplicative-order search,
//! and the factor-extraction loop built on top of them, all over
//! arbitrary-precision non-negative integers.

pub mod arith;
pub mod bignum;
pub mod period;
pub mod shor;
