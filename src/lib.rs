//! RSA primitives over arbitrary-precision integers: binary extended GCD,
//! Miller–Rabin primality testing, prime and key generation, and a
//! chunking codec that carries text through raw modular exponentiation.

pub mod caesar;
pub mod natural;
pub mod math;
pub mod primality;
pub mod utils;
pub mod rsa;
pub mod keys;
pub mod number_theory;
