//! Modular exponentiation `base^65537 mod modulus` over bounded-width
//! integers, with input validation and a committed result record.
pub mod limbs;
pub mod bounded;
pub mod modpow;
pub mod encoding;
pub mod session;
