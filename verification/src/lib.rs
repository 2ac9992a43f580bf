//! A TFHE (torus fully homomorphic encryption) toolkit: modular arithmetic,
//! number-theoretic transforms, polynomials over `Z_q` and `Z_{2^64}`, and the
//! GLWE / GGSW ciphertext operations built on top of them.
pub mod encoding;
pub mod math;
pub mod random;
pub mod tfhe;
