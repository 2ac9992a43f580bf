//! GGSW ciphertexts and their external product with GLWE ciphertexts.
use vstd::prelude::*;
use core::marker::PhantomData;
use crate::encoding::{json_list, json_list_text, parse_json_list, parsed_json_list};
use crate::math::polynomial::polynomial::{decomposable, views, Polynomial};
use crate::tfhe::gadget::{gadget_accumulate, gadget_product};
use crate::tfhe::glwe::glwe::GLWECiphertext;
use crate::tfhe::layout::{join, poly_at, polys, read_poly};
use crate::tfhe::schemas::{from_poly_list, LWE_CT_Params, TFHESchema};

verus! {

/// The external product of the GGSW coefficients `ggsw` with the GLWE
/// coefficients `glwe`: the gadget product of the `k + 1` polynomials of
/// `glwe` with `ggsw` as key, joined.
pub open spec fn external_product(
    ggsw: Seq<u64>,
    glwe: Seq<u64>,
    k: nat,
    n: nat,
    glwe_q: nat,
    glev_l: nat,
    glev_b: nat,
) -> Seq<u64> {
    join(gadget_product(ggsw, polys(glwe, k + 1, n), k, n, glwe_q, glev_l, glev_b))
}

/// A GGSW ciphertext: `(MASK_SIZE + 1) * GLEV_L` GLWE ciphertexts, stored
/// polynomial after polynomial.
#[derive(Debug, PartialEq)]
pub struct GGSWCiphertext<S: TFHESchema, P: LWE_CT_Params<S>>(pub Vec<u64>, pub PhantomData<S>, pub PhantomData<P>);

impl<S: TFHESchema, P: LWE_CT_Params<S>> View for GGSWCiphertext<S, P> {
    type V = Seq<u64>;

    open spec fn view(&self) -> Seq<u64> {
        self.0@
    }
}

impl<S: TFHESchema, P: LWE_CT_Params<S>> core::str::FromStr for GGSWCiphertext<S, P> {
    type Err = &'static str;

    fn from_str(s: &str) -> (r: Result<GGSWCiphertext<S, P>, &'static str>)
        ensures
            r is Err <==> parsed_json_list(s@) is None,
            r matches Ok(ct) ==> parsed_json_list(s@) == Some(ct@),
    {
        GGSWCiphertext::from_str(s)
    }
}

impl<S: TFHESchema, P: LWE_CT_Params<S>> GGSWCiphertext<S, P> {
    /// The ciphertext with the given coefficients.
    pub fn from_polynomial_list(data: Vec<u64>) -> (r: Self)
        ensures
            r@ == data@,
    {
        GGSWCiphertext(data, PhantomData, PhantomData)
    }

    /// Polynomial `ind`.
    pub fn get_poly_by_index(&self, ind: usize) -> (r: Polynomial)
        requires
            ind * P::POLINOMIAL_SIZE + P::POLINOMIAL_SIZE <= self@.len(),
        ensures
            r@ == poly_at(self@, ind as int, P::POLINOMIAL_SIZE as nat),
    {
        read_poly(&self.0, ind, P::POLINOMIAL_SIZE)
    }

    /// The coefficients as a JSON array.
    pub fn to_string(&self) -> (r: String)
        ensures
            r@ == json_list(self@),
            parsed_json_list(r@) == Some(self@),
    {
        json_list_text(&self.0)
    }

    /// Reads a ciphertext from a JSON array of coefficients; `Err` when the
    /// text is not such an array.
    pub fn from_str(s: &str) -> (r: Result<Self, &'static str>)
        ensures
            r is Err <==> parsed_json_list(s@) is None,
            r matches Ok(ct) ==> parsed_json_list(s@) == Some(ct@),
    {
        match parse_json_list(s) {
            Some(data) => Ok(GGSWCiphertext::from_polynomial_list(data)),
            None => Err("not a JSON list of coefficients"),
        }
    }

    /// The external product with a GLWE ciphertext: every polynomial of `rhs`
    /// is decomposed into `GLEV_L` digits, and digit `t` of polynomial `g`
    /// multiplies the GLWE ciphertext `g * GLEV_L + t` of this GGSW
    /// ciphertext; the products are added up polynomial by polynomial.
    pub fn mul(&self, rhs: &GLWECiphertext<S, P>) -> (r: GLWECiphertext<S, P>)
        requires
            P::POLINOMIAL_SIZE == 1 || P::POLINOMIAL_SIZE == 256,
            decomposable(S::GLWE_Q, S::GLEV_L, S::GLEV_B),
            P::MASK_SIZE < usize::MAX,
            (P::MASK_SIZE + 1) * P::POLINOMIAL_SIZE <= rhs@.len(),
            (P::MASK_SIZE + 1) * (S::GLEV_L * (P::MASK_SIZE + 1)) * P::POLINOMIAL_SIZE <= self@.len(),
        ensures
            r@ == external_product(
                self@,
                rhs@,
                P::MASK_SIZE as nat,
                P::POLINOMIAL_SIZE as nat,
                S::GLWE_Q as nat,
                S::GLEV_L as nat,
                S::GLEV_B as nat,
            ),
    {
        let count = P::MASK_SIZE + 1;
        let n = P::POLINOMIAL_SIZE;
        let mut inputs: Vec<Polynomial> = Vec::with_capacity(count);
        let mut i: usize = 0;
        while i < count
            invariant
                i <= count,
                count == P::MASK_SIZE + 1,
                n == P::POLINOMIAL_SIZE,
                count * n <= rhs@.len(),
                inputs@.len() == i,
                forall|j: int| 0 <= j < i ==> (#[trigger] inputs@[j])@ == poly_at(rhs@, j, n as nat),
            decreases count - i,
        {
            proof {
                crate::tfhe::layout::lemma_block_end(i as int, n as int, count as int);
            }
            inputs.push(rhs.get_poly_by_index(i));
            i = i + 1;
        }
        proof {
            assert(views(inputs@) =~= polys(rhs@, count as nat, n as nat));
            assert forall|g: int| 0 <= g < inputs@.len() implies (#[trigger] inputs@[g])@.len() == n by {
                crate::tfhe::layout::lemma_block_end(g, n as int, count as int);
            }
        }
        let acc = gadget_accumulate(&self.0, &inputs, P::MASK_SIZE, n, S::GLWE_Q, S::GLEV_L, S::GLEV_B);
        GLWECiphertext::from_polynomial_list(<Vec<u64> as from_poly_list>::from(acc))
    }
}

} // verus!
