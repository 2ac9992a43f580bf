//! Parameter sets of the scheme, the per-ciphertext parameters derived from
//! them, and the conversions between coefficient containers.
#![allow(non_camel_case_types)]
use vstd::prelude::*;
use core::marker::PhantomData;
use crate::math::polynomial::polynomial::{views, Polynomial};
use crate::random::random::{rnd_u64_uniform, rnd_u64_uniform_binary};
use crate::tfhe::layout::{join, lemma_join_push};

verus! {

/// A parameter set of the scheme.
pub trait TFHESchema {
    /// Mask size of LWE ciphertexts.
    const LWE_K: usize;
    /// Order of GLWE polynomials.
    const GLWE_N: usize;
    /// Mask size of GLWE ciphertexts.
    const GLWE_K: usize;
    /// Bit width of the ciphertext modulus.
    const GLWE_Q: usize;
    /// Bits per digit of the gadget decomposition.
    const GLEV_B: usize;
    /// Number of digits of the gadget decomposition.
    const GLEV_L: usize;
    /// The ciphertext modulus.
    const CT_MODULUS: u64;
}

/// A small parameter set for tests.
#[derive(Debug, PartialEq, Clone, Copy)]
pub struct TFHE_test_small_u64;

impl TFHESchema for TFHE_test_small_u64 {
    const LWE_K: usize = 500;
    const GLWE_N: usize = 256;
    const GLWE_K: usize = 1;
    const CT_MODULUS: u64 = u64::MAX;
    const GLWE_Q: usize = 64;
    const GLEV_B: usize = 2;
    const GLEV_L: usize = 10;
}

/// A medium parameter set for tests.
#[derive(Debug, PartialEq, Clone, Copy)]
pub struct TFHE_test_medium_u64;

impl TFHESchema for TFHE_test_medium_u64 {
    const LWE_K: usize = 586;
    const GLWE_N: usize = 1024;
    const GLWE_K: usize = 1;
    const CT_MODULUS: u64 = u64::MAX;
    const GLWE_Q: usize = 64;
    const GLEV_B: usize = 6;
    const GLEV_L: usize = 3;
}

/// The shape of one kind of ciphertext under a parameter set: how many mask
/// polynomials it has, their order, and how its random scalars are drawn.
pub trait LWE_CT_Params<S: TFHESchema> {
    /// Number of mask polynomials.
    const MASK_SIZE: usize;
    /// Order of each polynomial.
    const POLINOMIAL_SIZE: usize;

    /// A scalar of a random mask.
    fn random_scalar_mask() -> u64;

    /// A scalar of a secret key: `0` or `1`.
    fn random_scalar_key() -> (r: u64)
        ensures
            r < 2,
    ;
}

/// LWE ciphertexts: `LWE_K` scalars of mask.
#[derive(Debug, PartialEq)]
pub struct LWE_Params<S: TFHESchema> {
    phantom: PhantomData<S>,
}

impl<S: TFHESchema> LWE_CT_Params<S> for LWE_Params<S> {
    const MASK_SIZE: usize = S::LWE_K;
    const POLINOMIAL_SIZE: usize = 1;

    fn random_scalar_mask() -> u64 {
        <u64 as from_u64>::from(rnd_u64_uniform())
    }

    fn random_scalar_key() -> (r: u64) {
        <u64 as from_u64>::from(rnd_u64_uniform_binary())
    }
}

/// GLWE ciphertexts: `GLWE_K` mask polynomials of order `GLWE_N`; their keys
/// are all ones.
#[derive(Debug, PartialEq)]
pub struct GLWE_Params<S: TFHESchema> {
    phantom: PhantomData<S>,
}

impl<S: TFHESchema> LWE_CT_Params<S> for GLWE_Params<S> {
    const MASK_SIZE: usize = S::GLWE_K;
    const POLINOMIAL_SIZE: usize = S::GLWE_N;

    fn random_scalar_mask() -> u64 {
        <u64 as from_u64>::from(rnd_u64_uniform())
    }

    fn random_scalar_key() -> (r: u64)
        ensures
            r == 1,
    {
        <u64 as from_u64>::from(1)
    }
}

/// LWE ciphertexts extracted from GLWE ciphertexts: `GLWE_K * GLWE_N` scalars
/// of mask.
#[derive(Debug, PartialEq)]
pub struct LWE_Params_after_extraction<S: TFHESchema> {
    phantom: PhantomData<S>,
}

impl<S: TFHESchema> LWE_CT_Params<S> for LWE_Params_after_extraction<S> {
    const MASK_SIZE: usize = S::GLWE_K * S::GLWE_N;
    const POLINOMIAL_SIZE: usize = 1;

    fn random_scalar_mask() -> u64 {
        <u64 as from_u64>::from(rnd_u64_uniform())
    }

    fn random_scalar_key() -> (r: u64) {
        <u64 as from_u64>::from(rnd_u64_uniform_binary())
    }
}

/// Containers built from a list of polynomials.
pub trait from_poly_list: Sized {
    /// The coefficients a container holds.
    spec fn list_values(self) -> Seq<u64>;

    /// The coefficients of the polynomials, one polynomial after another.
    fn from(d: Vec<Polynomial>) -> (r: Self)
        ensures
            r.list_values() == join(views(d@)),
    ;
}

impl from_poly_list for Vec<u64> {
    open spec fn list_values(self) -> Seq<u64> {
        self@
    }

    fn from(d: Vec<Polynomial>) -> Vec<u64> {
        let mut a: Vec<u64> = Vec::new();
        let mut i: usize = 0;
        while i < d.len()
            invariant
                i <= d@.len(),
                a@ == join(views(d@).take(i as int)),
            decreases d@.len() - i,
        {
            let p = d[i].coeffs();
            let ghost before = a@;
            let mut j: usize = 0;
            while j < p.len()
                invariant
                    j <= p@.len(),
                    p@ == d@[i as int]@,
                    a@ == before + p@.take(j as int),
                decreases p@.len() - j,
            {
                a.push(p[j]);
                j = j + 1;
                proof {
                    assert(a@ =~= before + p@.take(j as int));
                }
            }
            proof {
                assert(views(d@).take(i + 1) =~= views(d@).take(i as int).push(p@));
                lemma_join_push(views(d@).take(i as int), p@);
                assert(p@.take(j as int) =~= p@);
            }
            i = i + 1;
        }
        proof {
            assert(views(d@).take(i as int) =~= views(d@));
        }
        a
    }
}

/// Containers convertible to and from a list of `u64`.
pub trait from_u64_vector: Sized {
    /// The list a container stands for.
    spec fn vector_values(self) -> Seq<u64>;

    fn from(d: Vec<u64>) -> (r: Self)
        ensures
            r.vector_values() == d@,
    ;

    fn to(d: Self) -> (r: Vec<u64>)
        ensures
            r@ == d.vector_values(),
    ;
}

impl from_u64_vector for Vec<u64> {
    open spec fn vector_values(self) -> Seq<u64> {
        self@
    }

    fn from(d: Vec<u64>) -> Vec<u64> {
        d
    }

    fn to(d: Vec<u64>) -> Vec<u64> {
        d
    }
}

/// Scalars convertible to and from `u64`.
pub trait from_u64: Sized {
    /// The `u64` a scalar stands for.
    spec fn scalar_value(self) -> u64;

    fn from(d: u64) -> (r: Self)
        ensures
            r.scalar_value() == d,
    ;

    fn to(d: Self) -> (r: u64)
        ensures
            r == d.scalar_value(),
    ;
}

impl from_u64 for u64 {
    open spec fn scalar_value(self) -> u64 {
        self
    }

    fn from(d: u64) -> u64 {
        d
    }

    fn to(d: u64) -> u64 {
        d
    }
}

} // verus!
