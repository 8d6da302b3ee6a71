//! An elementary number-theory toolkit together with the field of two
//! elements.
//!
//! The number-theory side offers a binary greatest-common-divisor, a sieve
//! of Eratosthenes, modular exponentiation by squaring, multiplicative
//! orders, Euler's totient, and primitive-root enumeration, each with a
//! contract pinning down its result. The algebra side offers the
//! two-element field with proofs of the field laws.

pub mod divisibility;
pub mod gf2;
pub mod modular;
pub mod primes;
pub mod totient;
