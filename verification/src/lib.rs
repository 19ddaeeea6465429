//! Modular-integer arithmetic with a verified normalization rule, a
//! modulus-compatibility protocol, a multiplicative-inverse routine built on
//! the extended Euclidean algorithm, and binary exponentiation.

pub mod arith;
pub mod modint;
