//! The server's keys: the bootstrapping key, the key-switching key, and the
//! evaluation that chains bootstrap, sample extraction and key switch.
#![allow(non_camel_case_types)]
use vstd::prelude::*;
use vstd::arithmetic::div_mod::*;
use vstd::arithmetic::power2::*;
use vstd::bits::*;
use core::marker::PhantomData;
use crate::math::modular::module_switch::mod_switch;
use crate::math::polynomial::polynomial::{
    decomposable, lemma_shl_u64, monomial, poly_add_q, poly_mul, views, wrap, zero_poly, Polynomial, Q,
};
use crate::tfhe::gadget::{gadget_accumulate, gadget_product};
use crate::tfhe::ggsw::ggsw::GGSWCiphertext;
use crate::tfhe::glwe::glwe::{glwe_mul_poly, glwe_sub, GLWECiphertext, ADD_MODULUS};
use crate::tfhe::layout::{join, lemma_join_uniform, poly_at, polys, read_poly, uniform};
use crate::tfhe::schemas::{from_poly_list, LWE_CT_Params, LWE_Params_after_extraction, TFHESchema};
use crate::tfhe::server_key::cmux::{cmux, cmux_ready, cmux_result};
use crate::tfhe::server_key::extract_sample::{extract_sample, extracted};
use crate::tfhe::ggsw::ggsw::external_product;
use crate::tfhe::ggsw::product_phase::{lemma_mul_linear_left, phase_of_rotation};
use crate::tfhe::secret_key::secret_key::glwe_phase;
use crate::math::summation::{lemma_sum_ext, lemma_sum_zero, sum};
use crate::tfhe::server_key::cmux::{cmux_phase, lemma_cmux_result_reduced};

verus! {

/// The test polynomial of the bootstrap for the lookup table `table`:
/// `2^glev_b` runs of `n / 2^glev_b` equal coefficients, run `e` holding
/// `table[e] * 2^(glwe_q - glev_b)` (wrapping at `2^64`).
pub open spec fn lut_polynomial(table: Seq<u64>, n: nat, glwe_q: nat, glev_b: nat) -> Seq<u64> {
    Seq::new(n, |c: int| wrap(table[c / ((n / pow2(glev_b)) as int)] * pow2((glwe_q - glev_b) as nat)))
}

/// The identity lookup table on `glev_b`-bit messages: entry `e` is `e`.
pub open spec fn identity_table(glev_b: nat) -> Seq<u64> {
    Seq::new(pow2(glev_b), |e: int| e as u64)
}

/// `a` switched from modulus `2^64` to modulus `n`, rounded down.
pub open spec fn switch_to(a: u64, n: nat) -> nat {
    ((a * n) / 0x1_0000_0000_0000_0000) as nat
}

/// The accumulator of the bootstrap after `i` steps: the test polynomial
/// rotated by the switched body, then for each step `i` the `cmux` of
/// bootstrapping-key ciphertext `i` between the accumulator rotated by the
/// switched mask scalar `i` and the accumulator itself.
pub open spec fn bootstrap_acc(
    table: Seq<u64>,
    key: Seq<Seq<u64>>,
    ct: Seq<u64>,
    k_lwe: nat,
    n_lwe: nat,
    k: nat,
    n: nat,
    glwe_q: nat,
    glev_l: nat,
    glev_b: nat,
    i: nat,
) -> Seq<u64>
    decreases i,
{
    if i == 0 {
        let start = join(Seq::new(k, |j: int| zero_poly(n)).push(lut_polynomial(table, n, glwe_q, glev_b)));
        glwe_mul_poly(start, monomial(n, 1, (n - 1 - switch_to(ct[(k_lwe * n_lwe) as int], n)) as nat), k, n)
    } else {
        let prev = bootstrap_acc(table, key, ct, k_lwe, n_lwe, k, n, glwe_q, glev_l, glev_b, (i - 1) as nat);
        let rotated = glwe_mul_poly(prev, monomial(n, 1, switch_to(ct[(i - 1) * n_lwe], n)), k, n);
        cmux_result(key[i - 1], rotated, prev, k, n, glwe_q, glev_l, glev_b)
    }
}

/// The key-switched ciphertext: the body of `ct` over zero masks, minus the
/// gadget product of the `k_old` mask scalars of `ct` with `key`.
pub open spec fn key_switched(key: Seq<u64>, ct: Seq<u64>, k_old: nat, k_new: nat, glwe_q: nat, glev_l: nat, glev_b: nat) -> Seq<u64> {
    glwe_sub(
        join(Seq::new(k_new, |i: int| zero_poly(1)).push(poly_at(ct, k_old as int, 1))),
        join(gadget_product(key, polys(ct, k_old, 1), k_new, 1, glwe_q, glev_l, glev_b)),
        k_new + 1,
    )
}

/// The views of a list of GGSW ciphertexts.
pub open spec fn ggsw_views<S: TFHESchema, P: LWE_CT_Params<S>>(cts: Seq<GGSWCiphertext<S, P>>) -> Seq<Seq<u64>> {
    cts.map_values(|c: GGSWCiphertext<S, P>| c@)
}

/// Joining `k + 1` polynomials of order `n` gives `(k + 1) * n` coefficients.
pub proof fn lemma_glwe_mul_poly_len(a: Seq<u64>, p: Seq<u64>, k: nat, n: nat)
    requires
        p.len() == n,
        (k + 1) * n <= a.len(),
    ensures
        glwe_mul_poly(a, p, k, n).len() == (k + 1) * n,
        forall|i: int| 0 <= i < (k + 1) * n ==> #[trigger] glwe_mul_poly(a, p, k, n)[i] < ADD_MODULUS,
{
    let ps = Seq::new(k + 1, |i: int| poly_mul(poly_at(a, i, n), p));
    assert forall|i: int| 0 <= i < k + 1 implies (#[trigger] ps[i]).len() == n by {
        crate::tfhe::layout::lemma_block_end(i, n as int, (k + 1) as int);
    }
    lemma_join_uniform(ps, n);
    assert forall|t: int| 0 <= t < (k + 1) * n implies #[trigger] glwe_mul_poly(a, p, k, n)[t] < ADD_MODULUS by {
        assert(n > 0) by (nonlinear_arith)
            requires
                0 <= t < (k + 1) * n,
        ;
        let i = t / (n as int);
        let c = t % (n as int);
        lemma_fundamental_div_mod(t, n as int);
        lemma_mod_bound(t, n as int);
        assert(0 <= i < k + 1 && i * n + c == t) by (nonlinear_arith)
            requires
                0 <= t < (k + 1) * n,
                n > 0,
                t == (n as int) * i + c,
                0 <= c < n,
        ;
        assert(join(ps)[i * n + c] == ps[i][c]);
    }
}

/// The bootstrapping key: one GGSW ciphertext per bit of the LWE key.
pub struct BootstrappingKey<S: TFHESchema, P_lwe: LWE_CT_Params<S>, P_glwe: LWE_CT_Params<S>> {
    pub key: Vec<GGSWCiphertext<S, P_glwe>>,
    pub phantom: PhantomData<P_lwe>,
}

impl<S: TFHESchema, P_lwe: LWE_CT_Params<S>, P_glwe: LWE_CT_Params<S>> BootstrappingKey<S, P_lwe, P_glwe> {
    /// The key made of the given GGSW ciphertexts.
    pub(crate) fn from_vec(data: Vec<GGSWCiphertext<S, P_glwe>>) -> (r: Self)
        ensures
            r.key@ == data@,
    {
        BootstrappingKey { key: data, phantom: PhantomData }
    }

    /// The conditions under which `bootstrap` runs: sizes of the ciphertext,
    /// of the key and of the decomposition, and a test polynomial that fills
    /// the order of the GLWE polynomials.
    pub open spec fn bootstrappable(&self, ct: Seq<u64>) -> bool {
        let k = P_glwe::MASK_SIZE as nat;
        let n = P_glwe::POLINOMIAL_SIZE as nat;
        let keys = ggsw_views(self.key@);
        &&& P_glwe::POLINOMIAL_SIZE == 1 || P_glwe::POLINOMIAL_SIZE == 256
        &&& P_glwe::MASK_SIZE < usize::MAX
        &&& S::GLEV_B < 64
        &&& S::GLEV_B <= S::GLWE_Q
        &&& S::GLWE_Q - S::GLEV_B < 64
        &&& n % pow2(S::GLEV_B as nat) == 0
        &&& decomposable(S::GLWE_Q, S::GLEV_L, S::GLEV_B)
        &&& P_lwe::POLINOMIAL_SIZE >= 1
        &&& (P_lwe::MASK_SIZE + 1) * P_lwe::POLINOMIAL_SIZE <= ct.len()
        &&& P_lwe::MASK_SIZE <= self.key@.len()
        &&& forall|i: int| 0 <= i < P_lwe::MASK_SIZE ==> (P_glwe::MASK_SIZE + 1) * (S::GLEV_L * (P_glwe::MASK_SIZE + 1)) * P_glwe::POLINOMIAL_SIZE <= (#[trigger] keys[i]).len()
    }

    /// Programmable bootstrap of the LWE ciphertext `ct` with the lookup table
    /// `table`: the test polynomial of `table` is rotated by the switched
    /// body, then blindly rotated by each switched mask scalar under the
    /// matching bootstrapping-key bit through `cmux`. The list of intermediate
    /// ciphertexts that comes with it is empty.
    pub fn bootstrap_with(&self, ct: &GLWECiphertext<S, P_lwe>, table: &Vec<u64>) -> (r: (GLWECiphertext<S, P_glwe>, Vec<(String, GLWECiphertext<S, P_glwe>)>))
        requires
            self.bootstrappable(ct@),
            table@.len() == pow2(S::GLEV_B as nat),
        ensures
            r.0@ == bootstrap_acc(
                table@,
                ggsw_views(self.key@),
                ct@,
                P_lwe::MASK_SIZE as nat,
                P_lwe::POLINOMIAL_SIZE as nat,
                P_glwe::MASK_SIZE as nat,
                P_glwe::POLINOMIAL_SIZE as nat,
                S::GLWE_Q as nat,
                S::GLEV_L as nat,
                S::GLEV_B as nat,
                P_lwe::MASK_SIZE as nat,
            ),
            r.1@.len() == 0,
    {
        let ghost keys = ggsw_views(self.key@);
        let k = P_glwe::MASK_SIZE;
        let n = P_glwe::POLINOMIAL_SIZE;
        let ghost kk = k as nat;
        let ghost nn = n as nat;
        let message_size_bits = S::GLEV_B as u32;
        let cts: Vec<(String, GLWECiphertext<S, P_glwe>)> = Vec::new();
        let mut lut_: Vec<Polynomial> = Vec::with_capacity(k + 1);
        let mut j: usize = 0;
        while j < k
            invariant
                j <= k,
                lut_@.len() == j,
                forall|t: int| 0 <= t < j ==> (#[trigger] lut_@[t])@ == zero_poly(n as nat),
            decreases k - j,
        {
            lut_.push(Polynomial::new_zero(n));
            j = j + 1;
        }
        let runs: u64 = 1u64 << message_size_bits;
        let run_len: u64 = (n as u64) >> message_size_bits;
        proof {
            lemma_u64_pow2_no_overflow(S::GLEV_B as nat);
            lemma_u64_shl_is_mul(1, message_size_bits as u64);
            lemma_u64_shr_is_div(n as u64, message_size_bits as u64);
            lemma_pow2_pos(S::GLEV_B as nat);
            assert(runs == pow2(S::GLEV_B as nat));
            assert(run_len == nn / pow2(S::GLEV_B as nat));
            lemma_fundamental_div_mod(nn as int, pow2(S::GLEV_B as nat) as int);
            assert(runs * run_len == nn) by (nonlinear_arith)
                requires
                    nn == pow2(S::GLEV_B as nat) * (nn / pow2(S::GLEV_B as nat)) + nn % pow2(S::GLEV_B as nat),
                    nn % pow2(S::GLEV_B as nat) == 0,
                    runs == pow2(S::GLEV_B as nat),
                    run_len == nn / pow2(S::GLEV_B as nat),
            ;
        }
        let shift = S::GLWE_Q - S::GLEV_B;
        let mut lut__: Vec<u64> = Vec::with_capacity(n);
        let mut e: u64 = 0;
        while e < runs
            invariant
                e <= runs,
                runs * run_len == nn,
                runs > 0,
                nn == n,
                shift == S::GLWE_Q - S::GLEV_B,
                shift < 64,
                run_len == nn / pow2(S::GLEV_B as nat),
                lut__@.len() == e * run_len,
                table@.len() == runs,
                forall|c: int| 0 <= c < e * run_len ==> #[trigger] lut__@[c] == lut_polynomial(table@, nn, S::GLWE_Q as nat, S::GLEV_B as nat)[c],
            decreases runs - e,
        {
            let mut a: u64 = 0;
            while a < run_len
                invariant
                    e < runs,
                    a <= run_len,
                    runs * run_len == nn,
                    nn == n,
                    shift == S::GLWE_Q - S::GLEV_B,
                    shift < 64,
                    run_len == nn / pow2(S::GLEV_B as nat),
                    lut__@.len() == e * run_len + a,
                    table@.len() == runs,
                    forall|c: int| 0 <= c < e * run_len + a ==> #[trigger] lut__@[c] == lut_polynomial(table@, nn, S::GLWE_Q as nat, S::GLEV_B as nat)[c],
                decreases run_len - a,
            {
                let v = table[e as usize] << shift;
                proof {
                    lemma_shl_u64(table@[e as int], shift as u64);
                    let c = e * run_len + a;
                    assert(e * run_len + a < runs * run_len) by (nonlinear_arith)
                        requires
                            e < runs,
                            a < run_len,
                    ;
                    assert(c == run_len * e + a) by (nonlinear_arith)
                        requires
                            c == e * run_len + a,
                    ;
                    lemma_div_multiples_vanish_fancy(e as int, a as int, run_len as int);
                    assert(c / (run_len as int) == e);
                }
                lut__.push(v);
                a = a + 1;
            }
            proof {
                assert(e * run_len + run_len == (e + 1) * run_len) by (nonlinear_arith);
            }
            e = e + 1;
        }
        proof {
            assert(lut__@ =~= lut_polynomial(table@, nn, S::GLWE_Q as nat, S::GLEV_B as nat));
        }
        lut_.push(Polynomial::new(lut__));
        let mut lut: GLWECiphertext<S, P_glwe> = GLWECiphertext::from_polynomial_list(<Vec<u64> as from_poly_list>::from(lut_));
        proof {
            assert(views(lut_@) =~= Seq::new(kk, |t: int| zero_poly(nn)).push(lut_polynomial(table@, nn, S::GLWE_Q as nat, S::GLEV_B as nat)));
            let ps = views(lut_@);
            assert(uniform(ps, nn));
            lemma_join_uniform(ps, nn);
            lemma_block_end_lwe::<S, P_lwe>();
        }
        let word: u128 = 1u128 << 64u128;
        proof {
            assert((1u128 << 64u128) == 0x1_0000_0000_0000_0000) by (bit_vector);
        }
        let body_ = mod_switch(ct.get_poly_by_index(P_lwe::MASK_SIZE).index(0), word, n as u128);
        proof {
            lemma_switch_bound(ct@[(P_lwe::MASK_SIZE * P_lwe::POLINOMIAL_SIZE) as int], nn, body_);
        }
        let body = Polynomial::new_monomial(n, 1, n - 1 - body_ as usize);
        proof {
            assert(lut@.len() == (kk + 1) * nn) by (nonlinear_arith)
                requires
                    lut@.len() == (kk + 1) * nn,
            ;
        }
        let ghost unrotated = lut@;
        lut = lut.mul(&body);
        proof {
            lemma_glwe_mul_poly_len(unrotated, body@, kk, nn);
            assert(lut@ == bootstrap_acc(
                table@,
                keys,
                ct@,
                P_lwe::MASK_SIZE as nat,
                P_lwe::POLINOMIAL_SIZE as nat,
                kk,
                nn,
                S::GLWE_Q as nat,
                S::GLEV_L as nat,
                S::GLEV_B as nat,
                0,
            ));
        }
        let mut i: usize = 0;
        while i < P_lwe::MASK_SIZE
            invariant
                i <= P_lwe::MASK_SIZE,
                self.bootstrappable(ct@),
                keys == ggsw_views(self.key@),
                k == P_glwe::MASK_SIZE,
                n == P_glwe::POLINOMIAL_SIZE,
                kk == k,
                nn == n,
                word == 0x1_0000_0000_0000_0000,
                lut@ == bootstrap_acc(
                    table@,
                    keys,
                    ct@,
                    P_lwe::MASK_SIZE as nat,
                    P_lwe::POLINOMIAL_SIZE as nat,
                    kk,
                    nn,
                    S::GLWE_Q as nat,
                    S::GLEV_L as nat,
                    S::GLEV_B as nat,
                    i as nat,
                ),
                lut@.len() == (kk + 1) * nn,
                forall|c: int| 0 <= c < (kk + 1) * nn ==> #[trigger] lut@[c] <= ADD_MODULUS,
            decreases P_lwe::MASK_SIZE - i,
        {
            proof {
                crate::tfhe::layout::lemma_block_end(i as int, P_lwe::POLINOMIAL_SIZE as int, (P_lwe::MASK_SIZE + 1) as int);
            }
            let a0 = ct.get_poly_by_index(i).index(0);
            proof {
                assert(a0 * n <= u128::MAX) by (nonlinear_arith)
                    requires
                        a0 <= u64::MAX,
                        n <= 256,
                ;
            }
            let a_i_ = mod_switch(a0, word, n as u128);
            proof {
                lemma_switch_bound(ct@[(i * P_lwe::POLINOMIAL_SIZE) as int], nn, a_i_);
            }
            let a_i = Polynomial::new_monomial(n, 1, a_i_ as usize);
            let lut_rotated = lut.mul(&a_i);
            proof {
                lemma_glwe_mul_poly_len(lut@, a_i@, kk, nn);
                assert(keys[i as int] == self.key@[i as int]@);
            }
            let previous = lut.clone();
            lut = cmux(&self.key[i], &lut_rotated, &previous);
            proof {
                crate::tfhe::server_key::cmux::lemma_cmux_result_len(
                    keys[i as int],
                    lut_rotated@,
                    previous@,
                    kk,
                    nn,
                    S::GLWE_Q as nat,
                    S::GLEV_L as nat,
                    S::GLEV_B as nat,
                );
                crate::tfhe::server_key::cmux::lemma_cmux_result_reduced(
                    keys[i as int],
                    lut_rotated@,
                    previous@,
                    kk,
                    nn,
                    S::GLWE_Q as nat,
                    S::GLEV_L as nat,
                    S::GLEV_B as nat,
                );
            }
            i = i + 1;
        }
        (lut, cts)
    }

    /// The lookup table `0, 1, ..., 2^GLEV_B - 1`.
    pub fn identity_lookup_table() -> (r: Vec<u64>)
        requires
            S::GLEV_B < 64,
        ensures
            r@ == identity_table(S::GLEV_B as nat),
    {
        let runs: u64 = 1u64 << (S::GLEV_B as u64);
        proof {
            lemma_u64_pow2_no_overflow(S::GLEV_B as nat);
            lemma_u64_shl_is_mul(1, S::GLEV_B as u64);
            assert(runs == pow2(S::GLEV_B as nat));
        }
        let mut table: Vec<u64> = Vec::new();
        let mut e: u64 = 0;
        while e < runs
            invariant
                e <= runs,
                runs == pow2(S::GLEV_B as nat),
                table@.len() == e,
                forall|t: int| 0 <= t < e ==> #[trigger] table@[t] == t as u64,
            decreases runs - e,
        {
            table.push(e);
            e = e + 1;
        }
        proof {
            assert(table@ =~= identity_table(S::GLEV_B as nat));
        }
        table
    }

    /// Bootstrap of the LWE ciphertext `ct` with the identity lookup table.
    pub fn bootstrap(&self, ct: &GLWECiphertext<S, P_lwe>) -> (r: (GLWECiphertext<S, P_glwe>, Vec<(String, GLWECiphertext<S, P_glwe>)>))
        requires
            self.bootstrappable(ct@),
        ensures
            r.0@ == bootstrap_acc(
                identity_table(S::GLEV_B as nat),
                ggsw_views(self.key@),
                ct@,
                P_lwe::MASK_SIZE as nat,
                P_lwe::POLINOMIAL_SIZE as nat,
                P_glwe::MASK_SIZE as nat,
                P_glwe::POLINOMIAL_SIZE as nat,
                S::GLWE_Q as nat,
                S::GLEV_L as nat,
                S::GLEV_B as nat,
                P_lwe::MASK_SIZE as nat,
            ),
            r.1@.len() == 0,
    {
        let table = Self::identity_lookup_table();
        self.bootstrap_with(ct, &table)
    }
}

/// The key-switching key: for each scalar of the old key, a GLev encryption
/// of it under the new key, stored polynomial after polynomial.
pub struct KeyswitchingKey<S: TFHESchema, P_lwe_old: LWE_CT_Params<S>, P_lwe: LWE_CT_Params<S>> {
    pub key: Vec<u64>,
    pub phantom0: PhantomData<S>,
    pub phantom1: PhantomData<P_lwe>,
    pub phantom2: PhantomData<P_lwe_old>,
}

impl<S: TFHESchema, P_lwe_old: LWE_CT_Params<S>, P_lwe: LWE_CT_Params<S>> KeyswitchingKey<S, P_lwe_old, P_lwe> {
    /// The key with the given coefficients.
    pub fn from_polynomial_list(data: Vec<u64>) -> (r: Self)
        ensures
            r.key@ == data@,
    {
        KeyswitchingKey { key: data, phantom0: PhantomData, phantom1: PhantomData, phantom2: PhantomData }
    }

    /// Polynomial `ind` of the key.
    pub fn get_poly_by_index(&self, ind: usize) -> (r: Polynomial)
        requires
            ind * P_lwe::POLINOMIAL_SIZE + P_lwe::POLINOMIAL_SIZE <= self.key@.len(),
        ensures
            r@ == poly_at(self.key@, ind as int, P_lwe::POLINOMIAL_SIZE as nat),
    {
        read_poly(&self.key, ind, P_lwe::POLINOMIAL_SIZE)
    }

    /// The conditions under which `switch_key` runs.
    pub open spec fn switchable(&self, ct: Seq<u64>) -> bool {
        &&& P_lwe::POLINOMIAL_SIZE == 1
        &&& P_lwe_old::POLINOMIAL_SIZE == 1
        &&& decomposable(S::GLWE_Q, S::GLEV_L, S::GLEV_B)
        &&& P_lwe::MASK_SIZE < usize::MAX
        &&& P_lwe_old::MASK_SIZE + 1 <= ct.len()
        &&& P_lwe_old::MASK_SIZE * (S::GLEV_L * (P_lwe::MASK_SIZE + 1)) * 1 <= self.key@.len()
    }

    /// Switches the LWE ciphertext `ct` from the old key to the new one: the
    /// gadget product of its mask scalars with this key is subtracted from its
    /// body.
    pub fn switch_key(&self, ct: &GLWECiphertext<S, P_lwe_old>) -> (r: GLWECiphertext<S, P_lwe>)
        requires
            self.switchable(ct@),
        ensures
            r@ == key_switched(
                self.key@,
                ct@,
                P_lwe_old::MASK_SIZE as nat,
                P_lwe::MASK_SIZE as nat,
                S::GLWE_Q as nat,
                S::GLEV_L as nat,
                S::GLEV_B as nat,
            ),
    {
        let k_old = P_lwe_old::MASK_SIZE;
        let k_new = P_lwe::MASK_SIZE;
        let mut inputs: Vec<Polynomial> = Vec::with_capacity(k_old);
        let mut g: usize = 0;
        while g < k_old
            invariant
                g <= k_old,
                k_old == P_lwe_old::MASK_SIZE,
                P_lwe_old::POLINOMIAL_SIZE == 1,
                k_old + 1 <= ct@.len(),
                inputs@.len() == g,
                forall|j: int| 0 <= j < g ==> (#[trigger] inputs@[j])@ == poly_at(ct@, j, 1),
            decreases k_old - g,
        {
            inputs.push(ct.get_poly_by_index(g));
            g = g + 1;
        }
        proof {
            assert(views(inputs@) =~= polys(ct@, k_old as nat, 1));
        }
        let acc = gadget_accumulate(&self.key, &inputs, k_new, 1, S::GLWE_Q, S::GLEV_L, S::GLEV_B);
        let mut b_ct: Vec<Polynomial> = Vec::with_capacity(k_new + 1);
        let mut i: usize = 0;
        while i < k_new
            invariant
                i <= k_new,
                b_ct@.len() == i,
                forall|j: int| 0 <= j < i ==> (#[trigger] b_ct@[j])@ == zero_poly(1),
            decreases k_new - i,
        {
            b_ct.push(Polynomial::new_zero(1));
            i = i + 1;
        }
        let body = ct.get_poly_by_index(k_old);
        b_ct.push(body.swicth_order(1));
        let ghost zeros_and_body = Seq::new(k_new as nat, |j: int| zero_poly(1)).push(poly_at(ct@, k_old as int, 1));
        proof {
            assert(views(b_ct@) =~= zeros_and_body);
            assert(uniform(zeros_and_body, 1));
            lemma_join_uniform(zeros_and_body, 1);
            let ps = gadget_product(self.key@, polys(ct@, k_old as nat, 1), k_new as nat, 1, S::GLWE_Q as nat, S::GLEV_L as nat, S::GLEV_B as nat);
            assert(uniform(ps, 1));
            lemma_join_uniform(ps, 1);
        }
        let lhs: GLWECiphertext<S, P_lwe> = GLWECiphertext::from_polynomial_list(<Vec<u64> as from_poly_list>::from(b_ct));
        let rhs: GLWECiphertext<S, P_lwe> = GLWECiphertext::from_polynomial_list(<Vec<u64> as from_poly_list>::from(acc));
        lhs.sub(&rhs)
    }
}

/// The evaluation key: a bootstrapping key and a key-switching key back from
/// the extracted LWE key.
pub struct EvaluatingKey<S: TFHESchema, P_lwe: LWE_CT_Params<S>, P_glwe: LWE_CT_Params<S>> {
    pub ksk: KeyswitchingKey<S, LWE_Params_after_extraction<S>, P_lwe>,
    pub bsk: BootstrappingKey<S, P_lwe, P_glwe>,
    pub phantom1: PhantomData<P_lwe>,
    pub phantom2: PhantomData<P_glwe>,
}

impl<S: TFHESchema, P_lwe: LWE_CT_Params<S>, P_glwe: LWE_CT_Params<S>> EvaluatingKey<S, P_lwe, P_glwe> {
    /// The key made of a bootstrapping key and a key-switching key.
    pub fn new(
        bsk: BootstrappingKey<S, P_lwe, P_glwe>,
        ksk: KeyswitchingKey<S, LWE_Params_after_extraction<S>, P_lwe>,
    ) -> (r: Self)
        ensures
            r.bsk == bsk,
            r.ksk == ksk,
    {
        EvaluatingKey { bsk: bsk, ksk: ksk, phantom1: PhantomData, phantom2: PhantomData }
    }

    /// Bootstraps the LWE ciphertext `ct` with the lookup table `table`,
    /// extracts coefficient `0` of the result and switches it back to the LWE
    /// key.
    pub fn eval_with(&self, ct: &GLWECiphertext<S, P_lwe>, table: &Vec<u64>) -> (r: GLWECiphertext<S, P_lwe>)
        requires
            table@.len() == pow2(S::GLEV_B as nat),
            P_lwe::POLINOMIAL_SIZE == 1,
            self.bsk.bootstrappable(ct@),
            self.ksk.switchable(
                extracted(
                    bootstrap_acc(
                        table@,
                        ggsw_views(self.bsk.key@),
                        ct@,
                        P_lwe::MASK_SIZE as nat,
                        P_lwe::POLINOMIAL_SIZE as nat,
                        P_glwe::MASK_SIZE as nat,
                        P_glwe::POLINOMIAL_SIZE as nat,
                        S::GLWE_Q as nat,
                        S::GLEV_L as nat,
                        S::GLEV_B as nat,
                        P_lwe::MASK_SIZE as nat,
                    ),
                    P_glwe::MASK_SIZE as nat,
                    P_glwe::POLINOMIAL_SIZE as nat,
                    0,
                ),
            ),
        ensures
            r@ == key_switched(
                self.ksk.key@,
                extracted(
                    bootstrap_acc(
                        table@,
                        ggsw_views(self.bsk.key@),
                        ct@,
                        P_lwe::MASK_SIZE as nat,
                        P_lwe::POLINOMIAL_SIZE as nat,
                        P_glwe::MASK_SIZE as nat,
                        P_glwe::POLINOMIAL_SIZE as nat,
                        S::GLWE_Q as nat,
                        S::GLEV_L as nat,
                        S::GLEV_B as nat,
                        P_lwe::MASK_SIZE as nat,
                    ),
                    P_glwe::MASK_SIZE as nat,
                    P_glwe::POLINOMIAL_SIZE as nat,
                    0,
                ),
                LWE_Params_after_extraction::<S>::MASK_SIZE as nat,
                P_lwe::MASK_SIZE as nat,
                S::GLWE_Q as nat,
                S::GLEV_L as nat,
                S::GLEV_B as nat,
            ),
    {
        let (bootstrapped_message, _) = self.bsk.bootstrap_with(ct, table);
        proof {
            lemma_bootstrap_len(
                table@,
                ggsw_views(self.bsk.key@),
                ct@,
                P_lwe::MASK_SIZE as nat,
                P_lwe::POLINOMIAL_SIZE as nat,
                P_glwe::MASK_SIZE as nat,
                P_glwe::POLINOMIAL_SIZE as nat,
                S::GLWE_Q as nat,
                S::GLEV_L as nat,
                S::GLEV_B as nat,
                P_lwe::MASK_SIZE as nat,
            );
        }
        let extracted_message = extract_sample::<S, P_glwe, LWE_Params_after_extraction<S>>(&bootstrapped_message, 0);
        self.ksk.switch_key(&extracted_message)
    }

    /// Bootstraps the LWE ciphertext `ct` with the identity lookup table,
    /// extracts coefficient `0` of the result and switches it back to the LWE
    /// key.
    pub fn eval(&self, ct: &GLWECiphertext<S, P_lwe>) -> (r: GLWECiphertext<S, P_lwe>)
        requires
            P_lwe::POLINOMIAL_SIZE == 1,
            self.bsk.bootstrappable(ct@),
            self.ksk.switchable(
                extracted(
                    bootstrap_acc(
                        identity_table(S::GLEV_B as nat),
                        ggsw_views(self.bsk.key@),
                        ct@,
                        P_lwe::MASK_SIZE as nat,
                        P_lwe::POLINOMIAL_SIZE as nat,
                        P_glwe::MASK_SIZE as nat,
                        P_glwe::POLINOMIAL_SIZE as nat,
                        S::GLWE_Q as nat,
                        S::GLEV_L as nat,
                        S::GLEV_B as nat,
                        P_lwe::MASK_SIZE as nat,
                    ),
                    P_glwe::MASK_SIZE as nat,
                    P_glwe::POLINOMIAL_SIZE as nat,
                    0,
                ),
            ),
        ensures
            r@ == key_switched(
                self.ksk.key@,
                extracted(
                    bootstrap_acc(
                        identity_table(S::GLEV_B as nat),
                        ggsw_views(self.bsk.key@),
                        ct@,
                        P_lwe::MASK_SIZE as nat,
                        P_lwe::POLINOMIAL_SIZE as nat,
                        P_glwe::MASK_SIZE as nat,
                        P_glwe::POLINOMIAL_SIZE as nat,
                        S::GLWE_Q as nat,
                        S::GLEV_L as nat,
                        S::GLEV_B as nat,
                        P_lwe::MASK_SIZE as nat,
                    ),
                    P_glwe::MASK_SIZE as nat,
                    P_glwe::POLINOMIAL_SIZE as nat,
                    0,
                ),
                LWE_Params_after_extraction::<S>::MASK_SIZE as nat,
                P_lwe::MASK_SIZE as nat,
                S::GLWE_Q as nat,
                S::GLEV_L as nat,
                S::GLEV_B as nat,
            ),
    {
        let table = BootstrappingKey::<S, P_lwe, P_glwe>::identity_lookup_table();
        self.eval_with(ct, &table)
    }
}

/// Every accumulator of the bootstrap has `(k + 1) * n` coefficients.
pub proof fn lemma_bootstrap_len(
    table: Seq<u64>,
    key: Seq<Seq<u64>>,
    ct: Seq<u64>,
    k_lwe: nat,
    n_lwe: nat,
    k: nat,
    n: nat,
    glwe_q: nat,
    glev_l: nat,
    glev_b: nat,
    i: nat,
)
    ensures
        bootstrap_acc(table, key, ct, k_lwe, n_lwe, k, n, glwe_q, glev_l, glev_b, i).len() == (k + 1) * n,
    decreases i,
{
    if i == 0 {
        let start = join(Seq::new(k, |j: int| zero_poly(n)).push(lut_polynomial(table, n, glwe_q, glev_b)));
        let ps = Seq::new(k + 1, |j: int| poly_mul(poly_at(start, j, n), monomial(n, 1, (n - 1 - switch_to(ct[(k_lwe * n_lwe) as int], n)) as nat)));
        let zs = Seq::new(k, |j: int| zero_poly(n)).push(lut_polynomial(table, n, glwe_q, glev_b));
        assert(uniform(zs, n));
        lemma_join_uniform(zs, n);
        assert forall|j: int| 0 <= j < k + 1 implies (#[trigger] ps[j]).len() == n by {
            crate::tfhe::layout::lemma_block_end(j, n as int, (k + 1) as int);
        }
        lemma_join_uniform(ps, n);
    } else {
        let prev = bootstrap_acc(table, key, ct, k_lwe, n_lwe, k, n, glwe_q, glev_l, glev_b, (i - 1) as nat);
        let rotated = glwe_mul_poly(prev, monomial(n, 1, switch_to(ct[(i - 1) * n_lwe], n)), k, n);
        crate::tfhe::server_key::cmux::lemma_cmux_result_len(key[i - 1], rotated, prev, k, n, glwe_q, glev_l, glev_b);
    }
}

/// `mod_switch(a, 2^64, n)` is `switch_to(a, n)`, below `n`.
proof fn lemma_switch_bound(a: u64, n: nat, r: u64)
    requires
        0 < n <= 0x1_0000_0000_0000_0000,
        r == crate::math::modular::module_switch::switched(a, 0x1_0000_0000_0000_0000, n as u128) % 0x1_0000_0000_0000_0000,
    ensures
        r == switch_to(a, n),
        r < n,
{
    let w: int = 0x1_0000_0000_0000_0000;
    assert(a * n < w * n) by (nonlinear_arith)
        requires
            a < w,
            n > 0,
    ;
    assert(0 <= a * n) by (nonlinear_arith);
    lemma_multiply_divide_lt(a * n, w, n as int);
    lemma_div_pos_is_pos(a * n, w);
    lemma_small_mod(((a * n) / w) as nat, w as nat);
}

/// The body polynomial of an LWE ciphertext lies within its coefficients.
proof fn lemma_block_end_lwe<S: TFHESchema, P_lwe: LWE_CT_Params<S>>()
    ensures
        P_lwe::MASK_SIZE * P_lwe::POLINOMIAL_SIZE + P_lwe::POLINOMIAL_SIZE == (P_lwe::MASK_SIZE + 1) * P_lwe::POLINOMIAL_SIZE,
{
    assert(P_lwe::MASK_SIZE * P_lwe::POLINOMIAL_SIZE + P_lwe::POLINOMIAL_SIZE == (P_lwe::MASK_SIZE + 1) * P_lwe::POLINOMIAL_SIZE) by (nonlinear_arith);
}

/// Every coefficient of every accumulator of the bootstrap is below
/// `ADD_MODULUS`.
pub proof fn lemma_bootstrap_acc_reduced(
    table: Seq<u64>,
    key: Seq<Seq<u64>>,
    ct: Seq<u64>,
    k_lwe: nat,
    n_lwe: nat,
    k: nat,
    n: nat,
    glwe_q: nat,
    glev_l: nat,
    glev_b: nat,
    i: nat,
)
    requires
        n > 0,
    ensures
        forall|c: int| 0 <= c < (k + 1) * n ==> #[trigger] bootstrap_acc(table, key, ct, k_lwe, n_lwe, k, n, glwe_q, glev_l, glev_b, i)[c] < ADD_MODULUS,
    decreases i,
{
    lemma_bootstrap_len(table, key, ct, k_lwe, n_lwe, k, n, glwe_q, glev_l, glev_b, i);
    if i == 0 {
        let zs = Seq::new(k, |j: int| zero_poly(n)).push(lut_polynomial(table, n, glwe_q, glev_b));
        assert(uniform(zs, n));
        lemma_join_uniform(zs, n);
        lemma_glwe_mul_poly_len(join(zs), monomial(n, 1, (n - 1 - switch_to(ct[(k_lwe * n_lwe) as int], n)) as nat), k, n);
    } else {
        lemma_bootstrap_acc_reduced(table, key, ct, k_lwe, n_lwe, k, n, glwe_q, glev_l, glev_b, (i - 1) as nat);
        let prev = bootstrap_acc(table, key, ct, k_lwe, n_lwe, k, n, glwe_q, glev_l, glev_b, (i - 1) as nat);
        let rotated = glwe_mul_poly(prev, monomial(n, 1, switch_to(ct[(i - 1) * n_lwe], n)), k, n);
        lemma_cmux_result_reduced(key[i - 1], rotated, prev, k, n, glwe_q, glev_l, glev_b);
    }
}

/// The bootstrap starts from the test polynomial rotated by the switched
/// body: the first accumulator decrypts, under any key, to the test
/// polynomial of `table` times `X^(n - 1 - switch_to(body, n))`.
pub proof fn bootstrap_phase_start(
    table: Seq<u64>,
    key: Seq<Seq<u64>>,
    ct: Seq<u64>,
    k_lwe: nat,
    n_lwe: nat,
    k: nat,
    n: nat,
    glwe_q: nat,
    glev_l: nat,
    glev_b: nat,
    sk: Seq<u64>,
)
    requires
        n > 0,
        k * n <= sk.len(),
    ensures
        glwe_phase(bootstrap_acc(table, key, ct, k_lwe, n_lwe, k, n, glwe_q, glev_l, glev_b, 0), sk, k, n) == poly_mul(
            lut_polynomial(table, n, glwe_q, glev_b),
            monomial(n, 1, (n - 1 - switch_to(ct[(k_lwe * n_lwe) as int], n)) as nat),
        ),
{
    let q: int = Q + 1;
    let lut = lut_polynomial(table, n, glwe_q, glev_b);
    let zs = Seq::new(k, |j: int| zero_poly(n)).push(lut);
    assert(uniform(zs, n));
    crate::tfhe::layout::lemma_polys_of_join(zs, n);
    let start = join(zs);
    let mono = monomial(n, 1, (n - 1 - switch_to(ct[(k_lwe * n_lwe) as int], n)) as nat);
    phase_of_rotation(start, mono, sk, k, n);
    let ph = glwe_phase(start, sk, k, n);
    assert forall|p: int| 0 <= p <= k implies #[trigger] poly_at(start, p, n) == zs[p] by {
        assert(polys(start, zs.len(), n)[p] == zs[p]);
    }
    // the masks are zero, so the phase is the test polynomial, reduced
    assert forall|j: int| 0 <= j < n implies (#[trigger] ph[j] as int) % q == (lut[j] + 0 * sum(|i: int| lut[i] as int, 0)) % q by {
        let f = |p: int| poly_mul(polys(start, k, n)[p], poly_at(sk, p, n))[j] as int;
        assert forall|p: int| 0 <= p < k implies #[trigger] f(p) == 0 by {
            crate::tfhe::layout::lemma_block_end(p, n as int, k as int);
            let z = zero_poly(n);
            let s = poly_at(sk, p, n);
            let g = |i: int| z[i] * s[(j - i) % (n as int)];
            assert forall|i: int| 0 <= i < n implies #[trigger] g(i) == 0 by {}
            lemma_sum_zero(g, n);
            lemma_sum_ext(|i: int| z[i] * s[(j - i) % (n as int)], g, n);
        }
        lemma_sum_zero(f, k);
        lemma_sum_ext(
            |i: int| poly_mul(polys(start, k, n)[i], poly_at(sk, i, n))[j] as int,
            f,
            k,
        );
        lemma_small_mod(0, q as nat);
        lemma_mod_twice(lut[j] as int, q);
    }
    lemma_mul_linear_left(ph, lut, 0, |i: int| lut, 0, mono, 0);
    assert forall|c: int| 0 <= c < n implies #[trigger] poly_mul(ph, mono)[c] == poly_mul(lut, mono)[c] by {
        lemma_mul_linear_left(ph, lut, 0, |i: int| lut, 0, mono, c);
        lemma_small_mod(poly_mul(ph, mono)[c] as nat, q as nat);
        lemma_small_mod(poly_mul(lut, mono)[c] as nat, q as nat);
    }
    assert(poly_mul(ph, mono) =~= poly_mul(lut, mono));
}

/// Each step of the bootstrap is a `cmux` between the accumulator rotated by
/// the switched mask scalar and the accumulator itself: the new accumulator
/// decrypts to what the previous one decrypts to, plus what the external
/// product of the bootstrapping-key ciphertext with the difference decrypts
/// to, and the rotated accumulator decrypts to the previous phase times
/// `X^switch_to(mask scalar)`, modulo the prime `Q + 1`.
pub proof fn bootstrap_phase_step(
    table: Seq<u64>,
    key: Seq<Seq<u64>>,
    ct: Seq<u64>,
    k_lwe: nat,
    n_lwe: nat,
    k: nat,
    n: nat,
    glwe_q: nat,
    glev_l: nat,
    glev_b: nat,
    sk: Seq<u64>,
    i: nat,
)
    requires
        n > 0,
        i >= 1,
        k * n <= sk.len(),
    ensures
        glwe_phase(bootstrap_acc(table, key, ct, k_lwe, n_lwe, k, n, glwe_q, glev_l, glev_b, i), sk, k, n) == poly_add_q(
            glwe_phase(
                external_product(
                    key[i - 1],
                    glwe_sub(
                        glwe_mul_poly(
                            bootstrap_acc(table, key, ct, k_lwe, n_lwe, k, n, glwe_q, glev_l, glev_b, (i - 1) as nat),
                            monomial(n, 1, switch_to(ct[(i - 1) * n_lwe], n)),
                            k,
                            n,
                        ),
                        bootstrap_acc(table, key, ct, k_lwe, n_lwe, k, n, glwe_q, glev_l, glev_b, (i - 1) as nat),
                        (k + 1) * n,
                    ),
                    k,
                    n,
                    glwe_q,
                    glev_l,
                    glev_b,
                ),
                sk,
                k,
                n,
            ),
            glwe_phase(bootstrap_acc(table, key, ct, k_lwe, n_lwe, k, n, glwe_q, glev_l, glev_b, (i - 1) as nat), sk, k, n),
        ),
        glwe_phase(
            glwe_mul_poly(
                bootstrap_acc(table, key, ct, k_lwe, n_lwe, k, n, glwe_q, glev_l, glev_b, (i - 1) as nat),
                monomial(n, 1, switch_to(ct[(i - 1) * n_lwe], n)),
                k,
                n,
            ),
            sk,
            k,
            n,
        ) == poly_mul(
            glwe_phase(bootstrap_acc(table, key, ct, k_lwe, n_lwe, k, n, glwe_q, glev_l, glev_b, (i - 1) as nat), sk, k, n),
            monomial(n, 1, switch_to(ct[(i - 1) * n_lwe], n)),
        ),
{
    let prev = bootstrap_acc(table, key, ct, k_lwe, n_lwe, k, n, glwe_q, glev_l, glev_b, (i - 1) as nat);
    let mono = monomial(n, 1, switch_to(ct[(i - 1) * n_lwe], n));
    let rotated = glwe_mul_poly(prev, mono, k, n);
    lemma_bootstrap_len(table, key, ct, k_lwe, n_lwe, k, n, glwe_q, glev_l, glev_b, (i - 1) as nat);
    lemma_bootstrap_acc_reduced(table, key, ct, k_lwe, n_lwe, k, n, glwe_q, glev_l, glev_b, (i - 1) as nat);
    lemma_glwe_mul_poly_len(prev, mono, k, n);
    cmux_phase(key[i - 1], rotated, prev, sk, k, n, glwe_q, glev_l, glev_b);
    phase_of_rotation(prev, mono, sk, k, n);
}

} // verus!
