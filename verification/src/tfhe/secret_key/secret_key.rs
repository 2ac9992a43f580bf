//! GLWE secret keys: key generation, encryption and decryption of GLWE,
//! GLev and GGSW ciphertexts, and the server keys derived from a key.
#![allow(non_camel_case_types)]
use vstd::prelude::*;
use vstd::arithmetic::div_mod::*;
use vstd::arithmetic::power2::*;
use core::marker::PhantomData;
use crate::math::polynomial::polynomial::{
    lemma_shl_u64, monomial, poly_add_q, poly_mul, poly_sub_q, reduce, views, wrap, zero_poly, Polynomial, Q,
};
use crate::tfhe::ggsw::ggsw::GGSWCiphertext;
use crate::tfhe::ggsw::product_phase::{ggsw_row_ct, ggsw_rows_decrypt_to_signed_messages, glev_row_phase};
use crate::tfhe::server_key::switch_phase::ksk_row;
use crate::tfhe::server_key::server_key::{ggsw_views, BootstrappingKey, KeyswitchingKey};
use crate::math::summation::sum;
use crate::tfhe::glwe::glwe::{glwe_add, glwe_sub, GLWECiphertext};
use crate::math::polynomial::product_laws::{mul_distributes_over_add_q, mul_distributes_over_sub_q};
use crate::math::summation::{lemma_sum_add, lemma_sum_congruent, lemma_sum_ext, lemma_sum_scale};
use crate::tfhe::layout::{join, lemma_join_uniform, lemma_polys_of_join, poly_at, polys, read_poly, uniform};
use crate::tfhe::schemas::{from_poly_list, from_u64, from_u64_vector, LWE_CT_Params, TFHESchema};

verus! {

/// `sum_{i < k} masks[i] * key_i`, with `key_i` polynomial `i` of order `n`
/// of the key; the coefficients are reduced modulo the prime `Q + 1`.
pub open spec fn key_multisum(masks: Seq<Seq<u64>>, key: Seq<u64>, k: nat, n: nat) -> Seq<u64> {
    Seq::new(n, |c: int| reduce(multisum_partial(masks, key, n, k, c)))
}

/// Coefficient `c` of `sum_{i < count} masks[i] * key_i`, over the integers.
pub open spec fn multisum_partial(masks: Seq<Seq<u64>>, key: Seq<u64>, n: nat, count: nat, c: int) -> int {
    sum(|i: int| poly_mul(masks[i], poly_at(key, i, n))[c] as int, count)
}

/// The polynomials of the GLWE encryption of `message` with the masks
/// `masks` and the noise `noise`: the masks, then the body
/// `sum_i masks[i] * key_i + message + noise`, modulo the prime `Q + 1`.
pub open spec fn encryption_polys(
    key: Seq<u64>,
    masks: Seq<Seq<u64>>,
    message: Seq<u64>,
    noise: Seq<u64>,
    k: nat,
    n: nat,
) -> Seq<Seq<u64>> {
    masks.push(poly_add_q(poly_add_q(key_multisum(masks, key, k, n), message), noise))
}

/// What decryption computes from the GLWE coefficients `ct`: the body minus
/// `sum_i mask_i * key_i`, modulo the prime `Q + 1`.
pub open spec fn glwe_phase(ct: Seq<u64>, key: Seq<u64>, k: nat, n: nat) -> Seq<u64> {
    poly_sub_q(poly_at(ct, k as int, n), key_multisum(polys(ct, k, n), key, k, n))
}

/// A freshly drawn key: `count` polynomials of order `n`, each holding one
/// scalar `0` or `1` in every coefficient.
pub open spec fn constant_bit_blocks(key: Seq<u64>, count: nat, n: nat) -> bool {
    &&& key.len() == count * n
    &&& forall|i: int, j: int| 0 <= i < count && 0 <= j < n ==> #[trigger] poly_at(key, i, n)[j] == poly_at(key, i, n)[0]
        && poly_at(key, i, n)[0] < 2
}

/// `m` with every coefficient shifted left by `s` bits, wrapping at `2^64`.
pub open spec fn shift_poly(m: Seq<u64>, s: nat) -> Seq<u64> {
    Seq::new(m.len(), |c: int| wrap(m[c] * pow2(s)))
}

/// Level `i` of a GLev list of GLWE ciphertexts with `k` masks: its
/// polynomials `i * (k + 1) .. (i + 1) * (k + 1)`.
pub open spec fn glev_level(blocks: Seq<Seq<u64>>, i: int, k: nat) -> Seq<Seq<u64>> {
    blocks.subrange(i * (k + 1), i * (k + 1) + k + 1)
}

/// `blocks` is a GLev encryption of `message`: for each level `i < l`, a GLWE
/// encryption with the noise `noise[i]` of `message` shifted left by
/// `q - b (i + 1)` bits, its masks being the first `k` polynomials of the
/// level.
pub open spec fn glev_encryption(
    key: Seq<u64>,
    blocks: Seq<Seq<u64>>,
    message: Seq<u64>,
    noise: Seq<Seq<u64>>,
    k: nat,
    n: nat,
    glwe_q: nat,
    glev_l: nat,
    glev_b: nat,
) -> bool {
    &&& blocks.len() == glev_l * (k + 1)
    &&& forall|i: int| 0 <= i < glev_l ==> #[trigger] glev_level(blocks, i, k) == encryption_polys(
        key,
        glev_level(blocks, i, k).take(k as int),
        shift_poly(message, (glwe_q - glev_b * (i + 1)) as nat),
        noise[i],
        k,
        n,
    )
}

/// Row `e` of a GGSW list: the `l * (k + 1)` polynomials of its GLev
/// encryption number `e`.
pub open spec fn ggsw_row(rows: Seq<Seq<u64>>, e: int, l: nat, k: nat) -> Seq<Seq<u64>> {
    rows.subrange(e * (l * (k + 1)), e * (l * (k + 1)) + l * (k + 1))
}

/// The noises of row `e`: `noise[e * l .. e * l + l]`.
pub open spec fn noise_row(noise: Seq<Seq<u64>>, e: int, l: nat) -> Seq<Seq<u64>> {
    noise.subrange(e * l, e * l + l)
}

/// What row `e` of a GGSW encryption of `message` encrypts: `message` times
/// `-key_e` for the mask rows, `message` itself for the last row.
pub open spec fn ggsw_row_message(key: Seq<u64>, message: Seq<u64>, e: int, k: nat, n: nat) -> Seq<u64> {
    if e < k {
        poly_mul(message, poly_sub_q(zero_poly(n), poly_at(key, e, n)))
    } else {
        message
    }
}

/// `data` is a GGSW encryption of `message`: `k + 1` rows, row `e` a GLev
/// encryption of `ggsw_row_message(e)` with the noises of row `e`.
pub open spec fn ggsw_encryption(
    key: Seq<u64>,
    data: Seq<u64>,
    message: Seq<u64>,
    noise: Seq<Seq<u64>>,
    k: nat,
    n: nat,
    glwe_q: nat,
    glev_l: nat,
    glev_b: nat,
) -> bool {
    let rows = polys(data, (k + 1) * (glev_l * (k + 1)), n);
    &&& data.len() == (k + 1) * (glev_l * (k + 1)) * n
    &&& forall|e: int| 0 <= e <= k ==> glev_encryption(
        key,
        #[trigger] ggsw_row(rows, e, glev_l, k),
        ggsw_row_message(key, message, e, k, n),
        noise_row(noise, e, glev_l),
        k,
        n,
        glwe_q,
        glev_l,
        glev_b,
    )
}

/// The shifts of a GLev encryption stay within `0..64` bits.
pub open spec fn glev_shifts_ok(glwe_q: usize, glev_l: usize, glev_b: usize) -> bool {
    glev_l == 0 || (glev_b * glev_l <= glwe_q && glwe_q - glev_b < 64)
}

/// A GLWE secret key: its scalars, polynomial after polynomial.
#[derive(Debug, PartialEq)]
pub struct GLWE_secret_key<S: TFHESchema, P: LWE_CT_Params<S>>(Vec<u64>, PhantomData<S>, PhantomData<P>);

impl<S: TFHESchema, P: LWE_CT_Params<S>> View for GLWE_secret_key<S, P> {
    type V = Seq<u64>;

    closed spec fn view(&self) -> Seq<u64> {
        self.0@
    }
}

impl<S: TFHESchema, P: LWE_CT_Params<S>> GLWE_secret_key<S, P> {
    /// A random key of `LWE_K` polynomials; each polynomial repeats one scalar
    /// drawn by `random_scalar_key`.
    pub fn new_random() -> (r: Self)
        requires
            S::LWE_K * P::POLINOMIAL_SIZE <= usize::MAX,
        ensures
            constant_bit_blocks(r@, S::LWE_K as nat, P::POLINOMIAL_SIZE as nat),
    {
        let n = P::POLINOMIAL_SIZE;
        let count = S::LWE_K;
        let mut d: Vec<Polynomial> = Vec::with_capacity(count);
        let mut i: usize = 0;
        while i < count
            invariant
                i <= count,
                n == P::POLINOMIAL_SIZE,
                d@.len() == i,
                forall|t: int, j: int| 0 <= t < i && 0 <= j < n ==> #[trigger] d@[t]@[j] == d@[t]@[0] && d@[t]@[0] < 2,
                forall|t: int| 0 <= t < i ==> (#[trigger] d@[t])@.len() == n,
            decreases count - i,
        {
            let s = <u64 as from_u64>::to(P::random_scalar_key());
            let mut v: Vec<u64> = Vec::with_capacity(n);
            let mut j: usize = 0;
            while j < n
                invariant
                    j <= n,
                    s < 2,
                    v@.len() == j,
                    forall|t: int| 0 <= t < j ==> #[trigger] v@[t] == s,
                decreases n - j,
            {
                v.push(s);
                j = j + 1;
            }
            d.push(Polynomial::new(v));
            i = i + 1;
        }
        let key = GLWE_secret_key::from_scalar_vector(<Vec<u64> as from_poly_list>::from(d));
        proof {
            let ps = views(d@);
            assert(uniform(ps, n as nat));
            lemma_polys_of_join(ps, n as nat);
            assert forall|t: int, j: int| 0 <= t < count && 0 <= j < n implies #[trigger] poly_at(key@, t, n as nat)[j]
                == poly_at(key@, t, n as nat)[0] && poly_at(key@, t, n as nat)[0] < 2 by {
                assert(polys(join(ps), ps.len(), n as nat)[t] == ps[t]);
            }
        }
        key
    }

    /// The key with the given scalars.
    pub fn from_scalar_vector(data: Vec<u64>) -> (r: Self)
        ensures
            r@ == data@,
    {
        GLWE_secret_key(data, PhantomData, PhantomData)
    }

    /// The number of scalars in the key.
    pub fn len(&self) -> (r: usize)
        ensures
            r == self@.len(),
    {
        self.0.len()
    }

    /// Polynomial `ind` of the key.
    pub fn get_poly_by_index(&self, ind: usize) -> (r: Polynomial)
        requires
            ind * P::POLINOMIAL_SIZE + P::POLINOMIAL_SIZE <= self@.len(),
        ensures
            r@ == poly_at(self@, ind as int, P::POLINOMIAL_SIZE as nat),
    {
        read_poly(&self.0, ind, P::POLINOMIAL_SIZE)
    }

    /// `sum_{i < MASK_SIZE} masks[i] * key_i`, modulo the prime `Q + 1`.
    fn multisum(&self, masks: &Vec<Polynomial>) -> (r: Polynomial)
        requires
            P::POLINOMIAL_SIZE == 1 || P::POLINOMIAL_SIZE == 256,
            masks@.len() == P::MASK_SIZE,
            forall|i: int| 0 <= i < masks@.len() ==> (#[trigger] masks@[i])@.len() == P::POLINOMIAL_SIZE,
            P::MASK_SIZE * P::POLINOMIAL_SIZE <= self@.len(),
        ensures
            r@ == key_multisum(views(masks@), self@, P::MASK_SIZE as nat, P::POLINOMIAL_SIZE as nat),
    {
        let k = P::MASK_SIZE;
        let n = P::POLINOMIAL_SIZE;
        let ghost ms = views(masks@);
        let mut multysum = Polynomial::new_zero(n);
        proof {
            assert forall|c: int| 0 <= c < n implies #[trigger] multysum@[c] == reduce(multisum_partial(ms, self@, n as nat, 0, c)) by {
                lemma_small_mod(0, (Q + 1) as nat);
            }
        }
        let mut i: usize = 0;
        while i < k
            invariant
                i <= k,
                k == P::MASK_SIZE,
                n == P::POLINOMIAL_SIZE,
                n == 1 || n == 256,
                ms == views(masks@),
                masks@.len() == k,
                forall|t: int| 0 <= t < masks@.len() ==> (#[trigger] masks@[t])@.len() == n,
                k * n <= self@.len(),
                multysum@.len() == n,
                forall|c: int| 0 <= c < n ==> #[trigger] multysum@[c] == reduce(multisum_partial(ms, self@, n as nat, i as nat, c)),
            decreases k - i,
        {
            proof {
                crate::tfhe::layout::lemma_block_end(i as int, n as int, k as int);
            }
            let prod = masks[i].mul(&self.get_poly_by_index(i));
            let next = multysum.add_mod_q(&prod);
            proof {
                assert(ms[i as int] == masks@[i as int]@);
                assert forall|c: int| 0 <= c < n implies #[trigger] next@[c] == reduce(multisum_partial(ms, self@, n as nat, (i + 1) as nat, c)) by {
                    let f = |t: int| poly_mul(ms[t], poly_at(self@, t, n as nat))[c] as int;
                    assert(sum(f, (i + 1) as nat) == sum(f, i as nat) + f(i as int));
                    lemma_reduce_add(multisum_partial(ms, self@, n as nat, i as nat, c), prod@[c] as int);
                }
            }
            multysum = next;
            i = i + 1;
        }
        proof {
            assert(multysum@ =~= key_multisum(ms, self@, k as nat, n as nat));
        }
        multysum
    }

    /// GLWE encryption of `message` with the given masks and noise: the masks
    /// followed by the body `sum_i masks[i] * key_i + message + noise`,
    /// modulo the prime `Q + 1`.
    pub fn encrypt_with(&self, message: &Polynomial, masks: &Vec<Polynomial>, noise: &Polynomial) -> (r: GLWECiphertext<S, P>)
        requires
            P::POLINOMIAL_SIZE == 1 || P::POLINOMIAL_SIZE == 256,
            P::MASK_SIZE < usize::MAX,
            masks@.len() == P::MASK_SIZE,
            forall|i: int| 0 <= i < masks@.len() ==> (#[trigger] masks@[i])@.len() == P::POLINOMIAL_SIZE,
            message@.len() == P::POLINOMIAL_SIZE,
            noise@.len() == P::POLINOMIAL_SIZE,
            P::MASK_SIZE * P::POLINOMIAL_SIZE <= self@.len(),
        ensures
            r@ == join(encryption_polys(self@, views(masks@), message@, noise@, P::MASK_SIZE as nat, P::POLINOMIAL_SIZE as nat)),
    {
        let k = P::MASK_SIZE;
        let multysum = self.multisum(masks);
        let body = multysum.add_mod_q(message).add_mod_q(noise);
        let mut a_s: Vec<Polynomial> = Vec::with_capacity(k + 1);
        let mut i: usize = 0;
        while i < k
            invariant
                i <= k,
                k == masks@.len(),
                a_s@.len() == i,
                forall|t: int| 0 <= t < i ==> (#[trigger] a_s@[t])@ == masks@[t]@,
            decreases k - i,
        {
            a_s.push(masks[i].clone());
            i = i + 1;
        }
        a_s.push(body);
        proof {
            assert(views(a_s@) =~= encryption_polys(self@, views(masks@), message@, noise@, k as nat, P::POLINOMIAL_SIZE as nat));
        }
        GLWECiphertext::from_polynomial_list(<Vec<u64> as from_poly_list>::from(a_s))
    }

    /// GLWE encryption of `message` with masks drawn by `random_scalar_mask`
    /// and the given noise. Whatever masks were drawn, they are the first
    /// `MASK_SIZE` polynomials of the result and the body is computed from
    /// them.
    pub fn encrypt(&self, message: &Polynomial, noise: &Polynomial) -> (r: GLWECiphertext<S, P>)
        requires
            P::POLINOMIAL_SIZE == 1 || P::POLINOMIAL_SIZE == 256,
            P::MASK_SIZE < usize::MAX,
            message@.len() == P::POLINOMIAL_SIZE,
            noise@.len() == P::POLINOMIAL_SIZE,
            P::MASK_SIZE * P::POLINOMIAL_SIZE <= self@.len(),
        ensures
            r@.len() == (P::MASK_SIZE + 1) * P::POLINOMIAL_SIZE,
            r@ == join(
                encryption_polys(
                    self@,
                    polys(r@, P::MASK_SIZE as nat, P::POLINOMIAL_SIZE as nat),
                    message@,
                    noise@,
                    P::MASK_SIZE as nat,
                    P::POLINOMIAL_SIZE as nat,
                ),
            ),
    {
        let k = P::MASK_SIZE;
        let n = P::POLINOMIAL_SIZE;
        let mut a_s: Vec<Polynomial> = Vec::with_capacity(k);
        let mut i: usize = 0;
        while i < k
            invariant
                i <= k,
                n == P::POLINOMIAL_SIZE,
                a_s@.len() == i,
                forall|t: int| 0 <= t < i ==> (#[trigger] a_s@[t])@.len() == n,
            decreases k - i,
        {
            let mut a_i = Polynomial::new_zero(n);
            let mut e: usize = 0;
            while e < n
                invariant
                    e <= n,
                    a_i@.len() == n,
                decreases n - e,
            {
                a_i.set(e, <u64 as from_u64>::to(P::random_scalar_mask()));
                e = e + 1;
            }
            a_s.push(a_i);
            i = i + 1;
        }
        let r = self.encrypt_with(message, &a_s, noise);
        proof {
            let ps = encryption_polys(self@, views(a_s@), message@, noise@, k as nat, n as nat);
            assert(uniform(ps, n as nat));
            lemma_polys_of_join(ps, n as nat);
            assert(ps.len() * n == (k + 1) * n);
            assert(polys(r@, k as nat, n as nat) =~= views(a_s@)) by {
                assert forall|t: int| 0 <= t < k implies #[trigger] polys(r@, k as nat, n as nat)[t] == views(a_s@)[t] by {
                    assert(polys(join(ps), ps.len(), n as nat)[t] == ps[t]);
                }
            }
        }
        r
    }

    /// Appends to `acc` the `GLEV_L * (MASK_SIZE + 1)` polynomials of a GLev
    /// encryption of `message`, level `i` using the noise `noise[first + i]`.
    pub fn encrypt_glev(&self, message: &Polynomial, noise: &Vec<Polynomial>, first: usize, acc: &mut Vec<Polynomial>) -> (r: Result<(), ()>)
        requires
            P::POLINOMIAL_SIZE == 1 || P::POLINOMIAL_SIZE == 256,
            P::MASK_SIZE < usize::MAX,
            message@.len() == P::POLINOMIAL_SIZE,
            P::MASK_SIZE * P::POLINOMIAL_SIZE <= self@.len(),
            glev_shifts_ok(S::GLWE_Q, S::GLEV_L, S::GLEV_B),
            first + S::GLEV_L <= noise@.len(),
            forall|i: int| 0 <= i < noise@.len() ==> (#[trigger] noise@[i])@.len() == P::POLINOMIAL_SIZE,
            old(acc)@.len() + S::GLEV_L * (P::MASK_SIZE + 1) <= usize::MAX,
        ensures
            r is Ok,
            final(acc)@.len() == old(acc)@.len() + S::GLEV_L * (P::MASK_SIZE + 1),
            views(final(acc)@).take(old(acc)@.len() as int) == views(old(acc)@),
            forall|i: int| old(acc)@.len() <= i < final(acc)@.len() ==> (#[trigger] final(acc)@[i])@.len() == P::POLINOMIAL_SIZE,
            glev_encryption(
                self@,
                views(final(acc)@).skip(old(acc)@.len() as int),
                message@,
                views(noise@).subrange(first as int, first + S::GLEV_L),
                P::MASK_SIZE as nat,
                P::POLINOMIAL_SIZE as nat,
                S::GLWE_Q as nat,
                S::GLEV_L as nat,
                S::GLEV_B as nat,
            ),
    {
        let k = P::MASK_SIZE;
        let n = P::POLINOMIAL_SIZE;
        let l = S::GLEV_L;
        let ghost kk = k as nat;
        let ghost nn = n as nat;
        let ghost start = views(acc@);
        let ghost o = acc@.len();
        let ghost ns = views(noise@).subrange(first as int, first + l);
        let noise_count = noise.len();
        let mut t: usize = 0;
        while t < l
            invariant
                t <= l,
                k == P::MASK_SIZE,
                n == P::POLINOMIAL_SIZE,
                l == S::GLEV_L,
                kk == k,
                nn == n,
                n == 1 || n == 256,
                k < usize::MAX,
                message@.len() == n,
                k * n <= self@.len(),
                glev_shifts_ok(S::GLWE_Q, S::GLEV_L, S::GLEV_B),
                first + l <= noise@.len(),
                noise_count == noise@.len(),
                forall|i: int| 0 <= i < noise@.len() ==> (#[trigger] noise@[i])@.len() == n,
                ns == views(noise@).subrange(first as int, first + l),
                o + l * (k + 1) <= usize::MAX,
                start.len() == o,
                acc@.len() == o + t * (k + 1),
                views(acc@).take(o as int) == start,
                forall|i: int| o <= i < acc@.len() ==> (#[trigger] acc@[i])@.len() == n,
                forall|i: int| 0 <= i < t ==> #[trigger] glev_level(views(acc@).skip(o as int), i, kk) == encryption_polys(
                    self@,
                    glev_level(views(acc@).skip(o as int), i, kk).take(kk as int),
                    shift_poly(message@, (S::GLWE_Q - S::GLEV_B * (i + 1)) as nat),
                    ns[i],
                    kk,
                    nn,
                ),
            decreases l - t,
        {
            proof {
                assert(S::GLEV_B * (t + 1) <= S::GLEV_B * l) by (nonlinear_arith)
                    requires
                        t < l,
                ;
                assert(S::GLEV_B * 1 <= S::GLEV_B * (t + 1)) by (nonlinear_arith)
                    requires
                        0 <= t,
                ;
            }
            let shift = S::GLWE_Q - S::GLEV_B * (t + 1);
            let mut shifted: Vec<u64> = Vec::with_capacity(n);
            let mut c: usize = 0;
            while c < n
                invariant
                    c <= n,
                    n == message@.len(),
                    shift < 64,
                    shifted@.len() == c,
                    forall|j: int| 0 <= j < c ==> #[trigger] shifted@[j] == wrap(message@[j] * pow2(shift as nat)),
                decreases n - c,
            {
                let v = message.index(c);
                proof {
                    lemma_shl_u64(v, shift as u64);
                }
                shifted.push(v << shift);
                c = c + 1;
            }
            let shifted_message = Polynomial::new(shifted);
            proof {
                assert(shifted_message@ =~= shift_poly(message@, shift as nat));
            }
            let ct = self.encrypt(&shifted_message, &noise[first + t]);
            let ghost before = views(acc@);
            let ghost ps = encryption_polys(self@, polys(ct@, kk, nn), shifted_message@, noise@[first + t]@, kk, nn);
            proof {
                assert forall|i: int| 0 <= i < kk implies (#[trigger] polys(ct@, kk, nn)[i]).len() == nn by {
                    crate::tfhe::layout::lemma_block_end(i, nn as int, (kk + 1) as int);
                }
                assert(uniform(ps, nn));
                lemma_polys_of_join(ps, nn);
                assert(t * (k + 1) + (k + 1) <= l * (k + 1)) by (nonlinear_arith)
                    requires
                        t < l,
                ;
            }
            let mut j: usize = 0;
            while j <= k
                invariant
                    j <= k + 1,
                    k == P::MASK_SIZE,
                    n == P::POLINOMIAL_SIZE,
                    kk == k,
                    nn == n,
                    k < usize::MAX,
                    ct@ == join(ps),
                    ct@.len() == (k + 1) * n,
                    polys(join(ps), ps.len(), nn) == ps,
                    ps.len() == k + 1,
                    uniform(ps, nn),
                    acc@.len() == before.len() + j,
                    before.len() + (k + 1) <= usize::MAX,
                    views(acc@).take(before.len() as int) == before,
                    forall|i: int| before.len() <= i < acc@.len() ==> (#[trigger] acc@[i])@ == ps[i - before.len()],
                decreases k + 1 - j,
            {
                proof {
                    crate::tfhe::layout::lemma_block_end(j as int, nn as int, (k + 1) as int);
                    assert(polys(join(ps), ps.len(), nn)[j as int] == ps[j as int]);
                }
                acc.push(ct.get_poly_by_index(j));
                proof {
                    assert(views(acc@).take(before.len() as int) =~= before);
                }
                j = j + 1;
            }
            proof {
                let now = views(acc@).skip(o as int);
                assert(views(acc@).take(o as int) =~= start) by {
                    assert(views(acc@).take(before.len() as int).take(o as int) =~= views(acc@).take(o as int));
                }
                assert((t + 1) * (k + 1) == t * (k + 1) + (k + 1)) by (nonlinear_arith);
                assert(glev_level(now, t as int, kk) =~= ps) by {
                    assert forall|i: int| 0 <= i < k + 1 implies #[trigger] glev_level(now, t as int, kk)[i] == ps[i] by {
                        assert(now[t * (k + 1) + i] == views(acc@)[o + t * (k + 1) + i]);
                    }
                }
                assert(ps.take(kk as int) =~= polys(ct@, kk, nn)) by {
                    assert forall|i: int| 0 <= i < kk implies #[trigger] ps.take(kk as int)[i] == polys(ct@, kk, nn)[i] by {
                        assert(polys(join(ps), ps.len(), nn)[i] == ps[i]);
                    }
                }
                assert(ns[t as int] == noise@[first + t]@);
                assert forall|i: int| 0 <= i < t implies #[trigger] glev_level(views(acc@).skip(o as int), i, kk) == glev_level(before.skip(o as int), i, kk) by {
                    assert(i * (k + 1) + k + 1 <= t * (k + 1)) by (nonlinear_arith)
                        requires
                            0 <= i < t,
                    ;
                    assert(glev_level(views(acc@).skip(o as int), i, kk) =~= glev_level(before.skip(o as int), i, kk));
                }
                assert forall|i: int| o <= i < acc@.len() implies (#[trigger] acc@[i])@.len() == n by {
                    if i >= before.len() {
                        assert(acc@[i]@ == ps[i - before.len()]);
                    } else {
                        assert(views(acc@).take(before.len() as int)[i] == before[i]);
                    }
                }
            }
            t = t + 1;
        }
        proof {
            assert(views(acc@).skip(o as int).len() == l * (k + 1));
        }
        Ok(())
    }

    /// GGSW encryption of `message`: for each mask polynomial `e` of the key, a
    /// GLev encryption of `message * (0 - key_e)`, then a GLev encryption of
    /// `message`; row `e` uses the noises `noise[e * GLEV_L ..]`.
    pub fn encrypt_ggsw(&self, message: &Polynomial, noise: &Vec<Polynomial>) -> (r: GGSWCiphertext<S, P>)
        requires
            P::POLINOMIAL_SIZE == 1 || P::POLINOMIAL_SIZE == 256,
            P::MASK_SIZE < usize::MAX,
            message@.len() == P::POLINOMIAL_SIZE,
            P::MASK_SIZE * P::POLINOMIAL_SIZE <= self@.len(),
            glev_shifts_ok(S::GLWE_Q, S::GLEV_L, S::GLEV_B),
            (P::MASK_SIZE + 1) * S::GLEV_L <= noise@.len(),
            forall|i: int| 0 <= i < noise@.len() ==> (#[trigger] noise@[i])@.len() == P::POLINOMIAL_SIZE,
            (P::MASK_SIZE + 1) * (S::GLEV_L * (P::MASK_SIZE + 1)) * P::POLINOMIAL_SIZE <= usize::MAX,
        ensures
            ggsw_encryption(
                self@,
                r@,
                message@,
                views(noise@),
                P::MASK_SIZE as nat,
                P::POLINOMIAL_SIZE as nat,
                S::GLWE_Q as nat,
                S::GLEV_L as nat,
                S::GLEV_B as nat,
            ),
            forall|g: int, t: int| 0 <= g < P::MASK_SIZE && 0 <= t < S::GLEV_L ==> glwe_phase(
                #[trigger] ggsw_row_ct(r@, P::MASK_SIZE as nat, P::POLINOMIAL_SIZE as nat, S::GLEV_L as nat, g, t),
                self@,
                P::MASK_SIZE as nat,
                P::POLINOMIAL_SIZE as nat,
            ) == poly_add_q(
                shift_poly(
                    poly_sub_q(zero_poly(P::POLINOMIAL_SIZE as nat), poly_mul(message@, poly_at(self@, g, P::POLINOMIAL_SIZE as nat))),
                    (S::GLWE_Q - S::GLEV_B * (t + 1)) as nat,
                ),
                noise@[g * S::GLEV_L + t]@,
            ),
            forall|t: int| 0 <= t < S::GLEV_L ==> glwe_phase(
                #[trigger] ggsw_row_ct(r@, P::MASK_SIZE as nat, P::POLINOMIAL_SIZE as nat, S::GLEV_L as nat, P::MASK_SIZE as int, t),
                self@,
                P::MASK_SIZE as nat,
                P::POLINOMIAL_SIZE as nat,
            ) == poly_add_q(shift_poly(message@, (S::GLWE_Q - S::GLEV_B * (t + 1)) as nat), noise@[P::MASK_SIZE * S::GLEV_L + t]@),
    {
        let k = P::MASK_SIZE;
        let n = P::POLINOMIAL_SIZE;
        let l = S::GLEV_L;
        let ghost kk = k as nat;
        let ghost nn = n as nat;
        let ghost ll = l as nat;
        let ghost ns = views(noise@);
        let ghost w: nat = (l * (k + 1)) as nat;
        proof {
            lemma_ggsw_sizes(k as nat, l as nat, n as nat);
        }
        let mut ct_data: Vec<Polynomial> = Vec::new();
        let mut e: usize = 0;
        while e <= k
            invariant
                e <= k + 1,
                k == P::MASK_SIZE,
                n == P::POLINOMIAL_SIZE,
                l == S::GLEV_L,
                kk == k,
                nn == n,
                ll == l,
                w == l * (k + 1),
                ns == views(noise@),
                n == 1 || n == 256,
                k < usize::MAX,
                message@.len() == n,
                k * n <= self@.len(),
                glev_shifts_ok(S::GLWE_Q, S::GLEV_L, S::GLEV_B),
                (k + 1) * l <= noise@.len(),
                forall|i: int| 0 <= i < noise@.len() ==> (#[trigger] noise@[i])@.len() == n,
                (k + 1) * w <= usize::MAX,
                ct_data@.len() == e * w,
                forall|i: int| 0 <= i < ct_data@.len() ==> (#[trigger] ct_data@[i])@.len() == n,
                forall|f: int| 0 <= f < e ==> glev_encryption(
                    self@,
                    #[trigger] ggsw_row(views(ct_data@), f, ll, kk),
                    ggsw_row_message(self@, message@, f, kk, nn),
                    noise_row(ns, f, ll),
                    kk,
                    nn,
                    S::GLWE_Q as nat,
                    S::GLEV_L as nat,
                    S::GLEV_B as nat,
                ),
            decreases k + 1 - e,
        {
            proof {
                lemma_row_bounds(e as nat, k as nat, l as nat, w);
            }
            let row_message = if e < k {
                proof {
                    crate::tfhe::layout::lemma_block_end(e as int, n as int, k as int);
                }
                let neg = Polynomial::new_zero(n).sub_mod_q(&self.get_poly_by_index(e));
                message.mul(&neg)
            } else {
                message.clone()
            };
            let ghost before = views(ct_data@);
            self.encrypt_glev(&row_message, noise, e * l, &mut ct_data).unwrap();
            proof {
                let now = views(ct_data@);
                assert(ggsw_row(now, e as int, ll, kk) =~= now.skip(before.len() as int));
                assert(noise_row(ns, e as int, ll) == views(noise@).subrange((e * l) as int, e * l + l));
                assert(row_message@ == ggsw_row_message(self@, message@, e as int, kk, nn));
                assert forall|f: int| 0 <= f < e implies #[trigger] ggsw_row(now, f, ll, kk) == ggsw_row(before, f, ll, kk) by {
                    assert(f * w + w <= e * w) by (nonlinear_arith)
                        requires
                            0 <= f < e,
                    ;
                    assert(now.take(before.len() as int) == before);
                    assert(ggsw_row(now, f, ll, kk) =~= ggsw_row(before, f, ll, kk));
                }
                assert((e + 1) * w == e * w + w) by (nonlinear_arith);
                assert forall|i: int| 0 <= i < ct_data@.len() implies (#[trigger] ct_data@[i])@.len() == n by {
                    if i < before.len() {
                        assert(now.take(before.len() as int)[i] == before[i]);
                    }
                }
            }
            e = e + 1;
        }
        let data = <Vec<u64> as from_poly_list>::from(ct_data);
        proof {
            let rows = views(ct_data@);
            assert(uniform(rows, nn));
            lemma_polys_of_join(rows, nn);
        }
        let r = GGSWCiphertext::from_polynomial_list(data);
        proof {
            assert forall|g: int, t: int| 0 <= g < k && 0 <= t < l implies glwe_phase(
                #[trigger] ggsw_row_ct(r@, kk, nn, ll, g, t),
                self@,
                kk,
                nn,
            ) == poly_add_q(
                shift_poly(poly_sub_q(zero_poly(nn), poly_mul(message@, poly_at(self@, g, nn))), (S::GLWE_Q - S::GLEV_B * (t + 1)) as nat),
                noise@[g * l + t]@,
            ) by {
                assert(g * l + l <= (k + 1) * l) by (nonlinear_arith)
                    requires
                        0 <= g <= k,
                ;
                assert(0 <= g * l + t) by (nonlinear_arith)
                    requires
                        0 <= g,
                        0 <= t,
                ;
                assert(ns[g * l + t] == noise@[g * l + t]@);
                ggsw_rows_decrypt_to_signed_messages(self@, r@, message@, ns, kk, nn, S::GLWE_Q as nat, ll, S::GLEV_B as nat, g, t);
            }
            assert forall|t: int| 0 <= t < l implies glwe_phase(
                #[trigger] ggsw_row_ct(r@, kk, nn, ll, k as int, t),
                self@,
                kk,
                nn,
            ) == poly_add_q(shift_poly(message@, (S::GLWE_Q - S::GLEV_B * (t + 1)) as nat), noise@[k * l + t]@) by {
                assert(k * l + l == (k + 1) * l) by (nonlinear_arith);
                assert(0 <= k * l) by (nonlinear_arith);
                assert(ns[k * l + t] == noise@[k * l + t]@);
                ggsw_rows_decrypt_to_signed_messages(self@, r@, message@, ns, kk, nn, S::GLWE_Q as nat, ll, S::GLEV_B as nat, k as int, t);
            }
        }
        r
    }

    /// The bootstrapping key from the LWE key `old_key` to this key: for each
    /// scalar of `old_key`, a GGSW encryption of the constant polynomial
    /// holding it, with the noises `noise[bit]`.
    pub fn create_bootstrapping_key<P_old: LWE_CT_Params<S>>(
        &self,
        old_key: &GLWE_secret_key<S, P_old>,
        noise: &Vec<Vec<Polynomial>>,
    ) -> (r: BootstrappingKey<S, P_old, P>)
        requires
            P::POLINOMIAL_SIZE == 1 || P::POLINOMIAL_SIZE == 256,
            P::MASK_SIZE < usize::MAX,
            P::MASK_SIZE * P::POLINOMIAL_SIZE <= self@.len(),
            glev_shifts_ok(S::GLWE_Q, S::GLEV_L, S::GLEV_B),
            (P::MASK_SIZE + 1) * (S::GLEV_L * (P::MASK_SIZE + 1)) * P::POLINOMIAL_SIZE <= usize::MAX,
            P_old::POLINOMIAL_SIZE >= 1,
            P_old::MASK_SIZE * P_old::POLINOMIAL_SIZE <= old_key@.len(),
            P_old::MASK_SIZE <= noise@.len(),
            forall|b: int| 0 <= b < P_old::MASK_SIZE ==> (P::MASK_SIZE + 1) * S::GLEV_L <= (#[trigger] noise@[b])@.len(),
            forall|b: int, i: int| 0 <= b < P_old::MASK_SIZE && 0 <= i < noise@[b]@.len() ==> (#[trigger] noise@[b]@[i])@.len() == P::POLINOMIAL_SIZE,
        ensures
            r.key@.len() == P_old::MASK_SIZE,
            forall|b: int| 0 <= b < P_old::MASK_SIZE ==> ggsw_encryption(
                self@,
                #[trigger] ggsw_views(r.key@)[b],
                monomial(P::POLINOMIAL_SIZE as nat, old_key@[b * P_old::POLINOMIAL_SIZE], 0),
                views(noise@[b]@),
                P::MASK_SIZE as nat,
                P::POLINOMIAL_SIZE as nat,
                S::GLWE_Q as nat,
                S::GLEV_L as nat,
                S::GLEV_B as nat,
            ),
            forall|b: int, g: int, t: int| 0 <= b < P_old::MASK_SIZE && 0 <= g < P::MASK_SIZE && 0 <= t < S::GLEV_L ==> glwe_phase(
                #[trigger] ggsw_row_ct(ggsw_views(r.key@)[b], P::MASK_SIZE as nat, P::POLINOMIAL_SIZE as nat, S::GLEV_L as nat, g, t),
                self@,
                P::MASK_SIZE as nat,
                P::POLINOMIAL_SIZE as nat,
            ) == poly_add_q(
                shift_poly(
                    poly_sub_q(
                        zero_poly(P::POLINOMIAL_SIZE as nat),
                        poly_mul(
                            monomial(P::POLINOMIAL_SIZE as nat, old_key@[b * P_old::POLINOMIAL_SIZE], 0),
                            poly_at(self@, g, P::POLINOMIAL_SIZE as nat),
                        ),
                    ),
                    (S::GLWE_Q - S::GLEV_B * (t + 1)) as nat,
                ),
                noise@[b]@[g * S::GLEV_L + t]@,
            ),
            forall|b: int, t: int| 0 <= b < P_old::MASK_SIZE && 0 <= t < S::GLEV_L ==> glwe_phase(
                #[trigger] ggsw_row_ct(ggsw_views(r.key@)[b], P::MASK_SIZE as nat, P::POLINOMIAL_SIZE as nat, S::GLEV_L as nat, P::MASK_SIZE as int, t),
                self@,
                P::MASK_SIZE as nat,
                P::POLINOMIAL_SIZE as nat,
            ) == poly_add_q(
                shift_poly(
                    monomial(P::POLINOMIAL_SIZE as nat, old_key@[b * P_old::POLINOMIAL_SIZE], 0),
                    (S::GLWE_Q - S::GLEV_B * (t + 1)) as nat,
                ),
                noise@[b]@[P::MASK_SIZE * S::GLEV_L + t]@,
            ),
    {
        let count = P_old::MASK_SIZE;
        let n = P::POLINOMIAL_SIZE;
        let mut ggsws: Vec<GGSWCiphertext<S, P>> = Vec::with_capacity(count);
        let mut b: usize = 0;
        while b < count
            invariant
                b <= count,
                count == P_old::MASK_SIZE,
                n == P::POLINOMIAL_SIZE,
                n == 1 || n == 256,
                P::MASK_SIZE < usize::MAX,
                P::MASK_SIZE * P::POLINOMIAL_SIZE <= self@.len(),
                glev_shifts_ok(S::GLWE_Q, S::GLEV_L, S::GLEV_B),
                (P::MASK_SIZE + 1) * (S::GLEV_L * (P::MASK_SIZE + 1)) * P::POLINOMIAL_SIZE <= usize::MAX,
                P_old::POLINOMIAL_SIZE >= 1,
                count * P_old::POLINOMIAL_SIZE <= old_key@.len(),
                count <= noise@.len(),
                forall|c: int| 0 <= c < count ==> (P::MASK_SIZE + 1) * S::GLEV_L <= (#[trigger] noise@[c])@.len(),
                forall|c: int, i: int| 0 <= c < count && 0 <= i < noise@[c]@.len() ==> (#[trigger] noise@[c]@[i])@.len() == n,
                ggsws@.len() == b,
                forall|c: int| 0 <= c < b ==> ggsw_encryption(
                    self@,
                    #[trigger] ggsw_views(ggsws@)[c],
                    monomial(n as nat, old_key@[c * P_old::POLINOMIAL_SIZE], 0),
                    views(noise@[c]@),
                    P::MASK_SIZE as nat,
                    n as nat,
                    S::GLWE_Q as nat,
                    S::GLEV_L as nat,
                    S::GLEV_B as nat,
                ),
            decreases count - b,
        {
            proof {
                crate::tfhe::layout::lemma_block_end(b as int, P_old::POLINOMIAL_SIZE as int, count as int);
            }
            let bit = old_key.get_poly_by_index(b).index(0);
            let monom = Polynomial::new_monomial(n, bit, 0);
            let g = self.encrypt_ggsw(&monom, &noise[b]);
            let ghost before = ggsws@;
            ggsws.push(g);
            proof {
                assert forall|c: int| 0 <= c < b + 1 implies ggsw_encryption(
                    self@,
                    #[trigger] ggsw_views(ggsws@)[c],
                    monomial(n as nat, old_key@[c * P_old::POLINOMIAL_SIZE], 0),
                    views(noise@[c]@),
                    P::MASK_SIZE as nat,
                    n as nat,
                    S::GLWE_Q as nat,
                    S::GLEV_L as nat,
                    S::GLEV_B as nat,
                ) by {
                    if c < b {
                        assert(ggsw_views(ggsws@)[c] == ggsw_views(before)[c]);
                    }
                }
            }
            b = b + 1;
        }
        let r = BootstrappingKey::from_vec(ggsws);
        proof {
            let k = P::MASK_SIZE;
            let l = S::GLEV_L;
            let kk = k as nat;
            let nn = n as nat;
            let ll = l as nat;
            assert forall|b: int, g: int, t: int| 0 <= b < count && 0 <= g < k && 0 <= t < l implies glwe_phase(
                #[trigger] ggsw_row_ct(ggsw_views(r.key@)[b], kk, nn, ll, g, t),
                self@,
                kk,
                nn,
            ) == poly_add_q(
                shift_poly(
                    poly_sub_q(zero_poly(nn), poly_mul(monomial(nn, old_key@[b * P_old::POLINOMIAL_SIZE], 0), poly_at(self@, g, nn))),
                    (S::GLWE_Q - S::GLEV_B * (t + 1)) as nat,
                ),
                noise@[b]@[g * l + t]@,
            ) by {
                let ns = views(noise@[b]@);
                assert(g * l + l <= (k + 1) * l) by (nonlinear_arith)
                    requires
                        0 <= g <= k,
                ;
                assert(0 <= g * l) by (nonlinear_arith)
                    requires
                        0 <= g,
                ;
                assert(ns[g * l + t] == noise@[b]@[g * l + t]@);
                let m = monomial(nn, old_key@[b * P_old::POLINOMIAL_SIZE], 0);
                ggsw_rows_decrypt_to_signed_messages(self@, ggsw_views(r.key@)[b], m, ns, kk, nn, S::GLWE_Q as nat, ll, S::GLEV_B as nat, g, t);
            }
            assert forall|b: int, t: int| 0 <= b < count && 0 <= t < l implies glwe_phase(
                #[trigger] ggsw_row_ct(ggsw_views(r.key@)[b], kk, nn, ll, k as int, t),
                self@,
                kk,
                nn,
            ) == poly_add_q(
                shift_poly(monomial(nn, old_key@[b * P_old::POLINOMIAL_SIZE], 0), (S::GLWE_Q - S::GLEV_B * (t + 1)) as nat),
                noise@[b]@[k * l + t]@,
            ) by {
                let ns = views(noise@[b]@);
                assert(k * l + l == (k + 1) * l) by (nonlinear_arith);
                assert(0 <= k * l) by (nonlinear_arith);
                assert(ns[k * l + t] == noise@[b]@[k * l + t]@);
                let m = monomial(nn, old_key@[b * P_old::POLINOMIAL_SIZE], 0);
                ggsw_rows_decrypt_to_signed_messages(self@, ggsw_views(r.key@)[b], m, ns, kk, nn, S::GLWE_Q as nat, ll, S::GLEV_B as nat, k as int, t);
            }
        }
        r
    }

    /// The key-switching key from the LWE key `old_key` to this key: for each
    /// of the first `MASK_SIZE` scalars of `old_key`, a GLev encryption of it
    /// as a polynomial of order 1, row `e` using the noises
    /// `noise[e * GLEV_L ..]`.
    pub fn create_keyswitching_key<P_old: LWE_CT_Params<S>>(
        &self,
        old_key: &GLWE_secret_key<S, P_old>,
        noise: &Vec<Polynomial>,
    ) -> (r: KeyswitchingKey<S, P_old, P>)
        requires
            P_old::POLINOMIAL_SIZE == 1,
            P::POLINOMIAL_SIZE == 1,
            P::MASK_SIZE < usize::MAX,
            P::MASK_SIZE <= self@.len(),
            P::MASK_SIZE <= old_key@.len(),
            glev_shifts_ok(S::GLWE_Q, S::GLEV_L, S::GLEV_B),
            P::MASK_SIZE * (S::GLEV_L * (P::MASK_SIZE + 1)) <= usize::MAX,
            P::MASK_SIZE * S::GLEV_L <= noise@.len(),
            forall|i: int| 0 <= i < noise@.len() ==> (#[trigger] noise@[i])@.len() == 1,
        ensures
            r.key@.len() == P::MASK_SIZE * (S::GLEV_L * (P::MASK_SIZE + 1)),
            forall|e: int| 0 <= e < P::MASK_SIZE ==> glev_encryption(
                self@,
                #[trigger] ggsw_row(polys(r.key@, (P::MASK_SIZE * (S::GLEV_L * (P::MASK_SIZE + 1))) as nat, 1), e, S::GLEV_L as nat, P::MASK_SIZE as nat),
                monomial(1, old_key@[e], 0),
                noise_row(views(noise@), e, S::GLEV_L as nat),
                P::MASK_SIZE as nat,
                1,
                S::GLWE_Q as nat,
                S::GLEV_L as nat,
                S::GLEV_B as nat,
            ),
            forall|e: int, t: int| 0 <= e < P::MASK_SIZE && 0 <= t < S::GLEV_L ==> glwe_phase(
                #[trigger] ksk_row(r.key@, P::MASK_SIZE as nat, S::GLEV_L as nat, e, t),
                self@,
                P::MASK_SIZE as nat,
                1,
            ) == poly_add_q(shift_poly(seq![old_key@[e]], (S::GLWE_Q - S::GLEV_B * (t + 1)) as nat), noise@[e * S::GLEV_L + t]@),
    {
        let k = P::MASK_SIZE;
        let l = S::GLEV_L;
        let ghost kk = k as nat;
        let ghost ll = l as nat;
        let ghost w: nat = (l * (k + 1)) as nat;
        let ghost ns = views(noise@);
        let noise_count = noise.len();
        let mut ct_data: Vec<Polynomial> = Vec::new();
        let mut e: usize = 0;
        while e < k
            invariant
                e <= k,
                noise_count == noise@.len(),
                k == P::MASK_SIZE,
                l == S::GLEV_L,
                kk == k,
                ll == l,
                w == l * (k + 1),
                ns == views(noise@),
                P::POLINOMIAL_SIZE == 1,
                P_old::POLINOMIAL_SIZE == 1,
                k < usize::MAX,
                k <= self@.len(),
                k <= old_key@.len(),
                glev_shifts_ok(S::GLWE_Q, S::GLEV_L, S::GLEV_B),
                k * w <= usize::MAX,
                k * l <= noise@.len(),
                forall|i: int| 0 <= i < noise@.len() ==> (#[trigger] noise@[i])@.len() == 1,
                ct_data@.len() == e * w,
                forall|i: int| 0 <= i < ct_data@.len() ==> (#[trigger] ct_data@[i])@.len() == 1,
                forall|f: int| 0 <= f < e ==> glev_encryption(
                    self@,
                    #[trigger] ggsw_row(views(ct_data@), f, ll, kk),
                    monomial(1, old_key@[f], 0),
                    noise_row(ns, f, ll),
                    kk,
                    1,
                    S::GLWE_Q as nat,
                    S::GLEV_L as nat,
                    S::GLEV_B as nat,
                ),
            decreases k - e,
        {
            proof {
                assert(e * l + l <= k * l) by (nonlinear_arith)
                    requires
                        e < k,
                ;
                assert(e * w + w <= k * w) by (nonlinear_arith)
                    requires
                        e < k,
                ;
            }
            let key_bit_ = old_key.get_poly_by_index(e).index(0);
            let key_bit = Polynomial::new_monomial(1, key_bit_, 0);
            let ghost before = views(ct_data@);
            self.encrypt_glev(&key_bit, noise, e * l, &mut ct_data).unwrap();
            proof {
                let now = views(ct_data@);
                assert(ggsw_row(now, e as int, ll, kk) =~= now.skip(before.len() as int));
                assert(noise_row(ns, e as int, ll) == views(noise@).subrange((e * l) as int, e * l + l));
                assert(key_bit@ == monomial(1, old_key@[e as int], 0));
                assert forall|f: int| 0 <= f < e implies #[trigger] ggsw_row(now, f, ll, kk) == ggsw_row(before, f, ll, kk) by {
                    assert(f * w + w <= e * w) by (nonlinear_arith)
                        requires
                            0 <= f < e,
                    ;
                    assert(now.take(before.len() as int) == before);
                    assert(ggsw_row(now, f, ll, kk) =~= ggsw_row(before, f, ll, kk));
                }
                assert((e + 1) * w == e * w + w) by (nonlinear_arith);
                assert forall|i: int| 0 <= i < ct_data@.len() implies (#[trigger] ct_data@[i])@.len() == 1 by {
                    if i < before.len() {
                        assert(now.take(before.len() as int)[i] == before[i]);
                    }
                }
            }
            e = e + 1;
        }
        let data = <Vec<u64> as from_poly_list>::from(ct_data);
        proof {
            let rows = views(ct_data@);
            assert(uniform(rows, 1));
            lemma_polys_of_join(rows, 1);
        }
        let r = KeyswitchingKey::from_polynomial_list(data);
        proof {
            let total = (k * (l * (k + 1))) as nat;
            assert forall|e: int, t: int| 0 <= e < k && 0 <= t < l implies glwe_phase(
                #[trigger] ksk_row(r.key@, kk, ll, e, t),
                self@,
                kk,
                1,
            ) == poly_add_q(shift_poly(seq![old_key@[e]], (S::GLWE_Q - S::GLEV_B * (t + 1)) as nat), noise@[e * l + t]@) by {
                assert(e * l + l <= k * l) by (nonlinear_arith)
                    requires
                        e < k,
                ;
                assert(0 <= e * l) by (nonlinear_arith)
                    requires
                        0 <= e,
                ;
                assert(ns[e * l + t] == noise@[e * l + t]@);
                assert(monomial(1, old_key@[e], 0) =~= seq![old_key@[e]]);
                assert(r.key@.len() == k * (l * (k + 1)) * 1);
                glev_row_phase(
                    self@,
                    r.key@,
                    monomial(1, old_key@[e], 0),
                    ns,
                    kk,
                    kk,
                    1,
                    S::GLWE_Q as nat,
                    ll,
                    S::GLEV_B as nat,
                    e,
                    t,
                );
                assert(ksk_row(r.key@, kk, ll, e, t) =~= ggsw_row_ct(r.key@, kk, 1, ll, e, t));
            }
        }
        r
    }

    /// The key as the key of another kind of ciphertext whose polynomials are
    /// scalars (its scalars are kept as they are).
    pub fn extract_key<P_new: LWE_CT_Params<S>>(&self) -> (r: GLWE_secret_key<S, P_new>)
        requires
            P_new::POLINOMIAL_SIZE == 1,
        ensures
            r@ == self@,
    {
        let v = <Vec<u64> as from_u64_vector>::to(self.0.clone());
        let v2 = <Vec<u64> as from_u64_vector>::from(v);
        proof {
            assert(v2@ =~= self.0@);
        }
        GLWE_secret_key::<S, P_new>(v2, PhantomData, PhantomData)
    }

    /// GLWE decryption: the body of `ct` minus `sum_i mask_i * key_i`, modulo
    /// the prime `Q + 1`.
    pub fn decrypt(&self, ct: &GLWECiphertext<S, P>) -> (r: Polynomial)
        requires
            P::POLINOMIAL_SIZE == 1 || P::POLINOMIAL_SIZE == 256,
            (P::MASK_SIZE + 1) * P::POLINOMIAL_SIZE <= ct@.len(),
            P::MASK_SIZE * P::POLINOMIAL_SIZE <= self@.len(),
        ensures
            r@ == glwe_phase(ct@, self@, P::MASK_SIZE as nat, P::POLINOMIAL_SIZE as nat),
    {
        let k = P::MASK_SIZE;
        let n = P::POLINOMIAL_SIZE;
        let mut masks: Vec<Polynomial> = Vec::with_capacity(k);
        let mut i: usize = 0;
        while i < k
            invariant
                i <= k,
                k == P::MASK_SIZE,
                n == P::POLINOMIAL_SIZE,
                (k + 1) * n <= ct@.len(),
                masks@.len() == i,
                forall|t: int| 0 <= t < i ==> (#[trigger] masks@[t])@ == poly_at(ct@, t, n as nat),
            decreases k - i,
        {
            proof {
                crate::tfhe::layout::lemma_block_end(i as int, n as int, (k + 1) as int);
            }
            masks.push(ct.get_poly_by_index(i));
            i = i + 1;
        }
        proof {
            assert(views(masks@) =~= polys(ct@, k as nat, n as nat));
            assert forall|t: int| 0 <= t < masks@.len() implies (#[trigger] masks@[t])@.len() == n by {
                crate::tfhe::layout::lemma_block_end(t, n as int, (k + 1) as int);
            }
            crate::tfhe::layout::lemma_block_end(k as int, n as int, (k + 1) as int);
        }
        let multysum = self.multisum(&masks);
        ct.get_poly_by_index(k).sub_mod_q(&multysum)
    }
}

/// The sizes of a GGSW ciphertext: its rows fit, and its rows of
/// polynomials fit, in memory.
proof fn lemma_ggsw_sizes(k: nat, l: nat, n: nat)
    requires
        n >= 1,
        (k + 1) * (l * (k + 1)) * n <= usize::MAX,
    ensures
        (k + 1) * (l * (k + 1)) <= usize::MAX,
{
    assert((k + 1) * (l * (k + 1)) <= (k + 1) * (l * (k + 1)) * n) by (nonlinear_arith)
        requires
            n >= 1,
    ;
}

/// Row `e` of a GGSW ciphertext and its noises lie within the whole.
proof fn lemma_row_bounds(e: nat, k: nat, l: nat, w: nat)
    requires
        e <= k,
        w == l * (k + 1),
    ensures
        e * w + w <= (k + 1) * w,
        e * l + l <= (k + 1) * l,
        0 <= e * l,
{
    assert(e * w + w <= (k + 1) * w) by (nonlinear_arith)
        requires
            e <= k,
    ;
    assert(e * l + l <= (k + 1) * l) by (nonlinear_arith)
        requires
            e <= k,
    ;
}

/// `reduce(reduce(x) + y) == reduce(x + y)`.
proof fn lemma_reduce_add(x: int, y: int)
    ensures
        reduce(reduce(x) + y) == reduce(x + y),
{
    let q: int = Q + 1;
    lemma_mod_bound(x, q);
    lemma_add_mod_noop(x, y, q);
    lemma_mod_twice(x, q);
    lemma_add_mod_noop(x % q, y, q);
}

/// `reduce(x - reduce(y)) == reduce(x - y)`.
proof fn lemma_reduce_sub_right(x: int, y: int)
    ensures
        reduce(x - reduce(y)) == reduce(x - y),
{
    let q: int = Q + 1;
    lemma_mod_bound(y, q);
    lemma_sub_mod_noop(x, y, q);
    lemma_mod_twice(y, q);
    lemma_sub_mod_noop(x, y % q, q);
}

/// Residue arithmetic behind decryption of a fresh encryption.
proof fn lemma_encryption_phase_arith(x: int, m: int, e: int)
    ensures
        reduce(reduce(reduce(reduce(x) + m) + e) - reduce(x)) == reduce(m + e),
{
    lemma_reduce_add(x, m);
    lemma_reduce_add(x + m, e);
    lemma_reduce_add(reduce(x) + m, e);
    lemma_reduce_sub_right(reduce(x + m + e) as int, x);
    lemma_reduce_add(x + m + e, -x);
    assert(x + m + e - x == m + e);
}

/// Decryption undoes encryption: the phase of an encryption of `message` with
/// any masks and the noise `noise` is `message + noise`, coefficientwise and
/// modulo the prime `Q + 1`.
pub proof fn decrypt_encrypt(key: Seq<u64>, masks: Seq<Seq<u64>>, message: Seq<u64>, noise: Seq<u64>, k: nat, n: nat)
    requires
        masks.len() == k,
        uniform(masks, n),
        message.len() == n,
        noise.len() == n,
    ensures
        glwe_phase(join(encryption_polys(key, masks, message, noise, k, n)), key, k, n) == poly_add_q(message, noise),
{
    let ps = encryption_polys(key, masks, message, noise, k, n);
    assert(uniform(ps, n));
    lemma_polys_of_join(ps, n);
    let ct = join(ps);
    assert(polys(ct, k, n) =~= masks) by {
        assert forall|i: int| 0 <= i < k implies #[trigger] polys(ct, k, n)[i] == masks[i] by {
            assert(polys(ct, ps.len(), n)[i] == ps[i]);
        }
    }
    assert(poly_at(ct, k as int, n) == ps[k as int]) by {
        assert(polys(ct, ps.len(), n)[k as int] == ps[k as int]);
    }
    assert forall|c: int| 0 <= c < n implies #[trigger] glwe_phase(ct, key, k, n)[c] == poly_add_q(message, noise)[c] by {
        lemma_encryption_phase_arith(multisum_partial(masks, key, n, k, c), message[c] as int, noise[c] as int);
    }
    assert(glwe_phase(ct, key, k, n) =~= poly_add_q(message, noise));
}

/// Decryption recovers the bits of the message above bit `s` whenever the
/// noise, reduced modulo `Q + 1`, neither carries into those bits nor lifts
/// the sum to `Q + 1`.
pub proof fn decryption_keeps_top_bits(
    key: Seq<u64>,
    masks: Seq<Seq<u64>>,
    message: Seq<u64>,
    noise: Seq<u64>,
    k: nat,
    n: nat,
    s: nat,
)
    requires
        masks.len() == k,
        uniform(masks, n),
        message.len() == n,
        noise.len() == n,
        forall|c: int| 0 <= c < n ==> #[trigger] message[c] + reduce(noise[c] as int) < Q + 1,
        forall|c: int| 0 <= c < n ==> (#[trigger] message[c] as int) % (pow2(s) as int) + reduce(noise[c] as int) < pow2(s),
    ensures
        forall|c: int| 0 <= c < n ==> (#[trigger] glwe_phase(join(encryption_polys(key, masks, message, noise, k, n)), key, k, n)[c] as int) / (pow2(s) as int)
            == (message[c] as int) / (pow2(s) as int),
{
    decrypt_encrypt(key, masks, message, noise, k, n);
    let q: int = Q + 1;
    let d = pow2(s) as int;
    lemma_pow2_pos(s);
    assert forall|c: int| 0 <= c < n implies (#[trigger] glwe_phase(join(encryption_polys(key, masks, message, noise, k, n)), key, k, n)[c] as int) / d
        == (message[c] as int) / d by {
        let m = message[c] as int;
        let e = noise[c] as int;
        let r = reduce(e) as int;
        lemma_mod_bound(e, q);
        lemma_small_mod(m as nat, q as nat);
        lemma_add_mod_noop(m, e, q);
        lemma_small_mod((m + r) as nat, q as nat);
        assert(poly_add_q(message, noise)[c] == m + r);
        lemma_fundamental_div_mod(m, d);
        lemma_mod_bound(m, d);
        lemma_fundamental_div_mod_converse(m + r, d, m / d, m % d + r);
    }
}

/// The masks of a coefficientwise combination of two ciphertexts are the
/// combinations of their masks, and so is the body.
proof fn lemma_combined_polys(ct1: Seq<u64>, ct2: Seq<u64>, k: nat, n: nat)
    requires
        (k + 1) * n <= ct1.len(),
        (k + 1) * n <= ct2.len(),
    ensures
        forall|i: int| 0 <= i <= k ==> #[trigger] poly_at(glwe_add(ct1, ct2, (k + 1) * n), i, n)
            == poly_add_q(poly_at(ct1, i, n), poly_at(ct2, i, n)),
        forall|i: int| 0 <= i <= k ==> #[trigger] poly_at(glwe_sub(ct1, ct2, (k + 1) * n), i, n)
            == poly_sub_q(poly_at(ct1, i, n), poly_at(ct2, i, n)),
{
    let sa = glwe_add(ct1, ct2, (k + 1) * n);
    let sd = glwe_sub(ct1, ct2, (k + 1) * n);
    assert forall|i: int| 0 <= i <= k implies #[trigger] poly_at(sa, i, n) == poly_add_q(poly_at(ct1, i, n), poly_at(ct2, i, n)) by {
        crate::tfhe::layout::lemma_block_end(i, n as int, (k + 1) as int);
        assert(poly_at(sa, i, n) =~= poly_add_q(poly_at(ct1, i, n), poly_at(ct2, i, n)));
    }
    assert forall|i: int| 0 <= i <= k implies #[trigger] poly_at(sd, i, n) == poly_sub_q(poly_at(ct1, i, n), poly_at(ct2, i, n)) by {
        crate::tfhe::layout::lemma_block_end(i, n as int, (k + 1) as int);
        assert(poly_at(sd, i, n) =~= poly_sub_q(poly_at(ct1, i, n), poly_at(ct2, i, n)));
    }
}

/// Residue arithmetic behind the additive law of the phase.
proof fn lemma_phase_sum_arith(b1: int, b2: int, x: int, x1: int, x2: int)
    requires
        x % (Q + 1) == (x1 + x2) % (Q + 1),
    ensures
        reduce(reduce(b1 + b2) - reduce(x)) == reduce(reduce(b1 - reduce(x1)) + reduce(b2 - reduce(x2))),
{
    let q: int = Q + 1;
    let u1 = b1 - reduce(x1);
    let u2 = b2 - reduce(x2);
    lemma_reduce_add(b1 + b2, -(reduce(x) as int));
    lemma_reduce_sub_right(b1 + b2, x);
    lemma_reduce_add(u1, reduce(u2) as int);
    lemma_reduce_add(u2, u1);
    lemma_reduce_sub_right(b1 + b2 - reduce(x2), x1);
    lemma_reduce_sub_right(b1 + b2 - x1, x2);
    lemma_sub_mod_noop(b1 + b2, x, q);
    lemma_sub_mod_noop(b1 + b2, x1 + x2, q);
    assert(u2 + u1 == b1 + b2 - reduce(x2) - reduce(x1));
    assert(b1 + b2 - x1 - x2 == b1 + b2 - (x1 + x2));
}

/// Residue arithmetic behind the subtractive law of the phase.
proof fn lemma_phase_diff_arith(b1: int, b2: int, x: int, x1: int, x2: int)
    requires
        x % (Q + 1) == (x1 - x2) % (Q + 1),
    ensures
        reduce(reduce(b1 - b2) - reduce(x)) == reduce(reduce(b1 - reduce(x1)) - reduce(b2 - reduce(x2))),
{
    let q: int = Q + 1;
    let u1 = b1 - reduce(x1);
    let u2 = b2 - reduce(x2);
    lemma_reduce_add(b1 - b2, -(reduce(x) as int));
    lemma_reduce_sub_right(b1 - b2, x);
    lemma_reduce_add(u1, -(reduce(u2) as int));
    lemma_reduce_sub_right(u1, u2);
    lemma_reduce_sub_right(b1 - b2 + reduce(x2), x1);
    lemma_reduce_add(x2, b1 - b2 - x1);
    lemma_sub_mod_noop(b1 - b2, x, q);
    lemma_sub_mod_noop(b1 - b2, x1 - x2, q);
    assert(u1 - u2 == b1 - b2 + reduce(x2) - reduce(x1));
    assert(x2 + (b1 - b2 - x1) == b1 - b2 - (x1 - x2));
}

/// Adding ciphertexts adds what they decrypt to: the phase of the sum of two
/// GLWE ciphertexts is the sum of their phases, modulo the prime `Q + 1`.
pub proof fn phase_of_sum(ct1: Seq<u64>, ct2: Seq<u64>, key: Seq<u64>, k: nat, n: nat)
    requires
        (k + 1) * n <= ct1.len(),
        (k + 1) * n <= ct2.len(),
        k * n <= key.len(),
    ensures
        glwe_phase(glwe_add(ct1, ct2, (k + 1) * n), key, k, n)
            == poly_add_q(glwe_phase(ct1, key, k, n), glwe_phase(ct2, key, k, n)),
{
    lemma_phase_combination(ct1, ct2, key, k, n, true);
}

/// Subtracting ciphertexts subtracts what they decrypt to: the phase of the
/// difference of two GLWE ciphertexts is the difference of their phases,
/// modulo the prime `Q + 1`.
pub proof fn phase_of_difference(ct1: Seq<u64>, ct2: Seq<u64>, key: Seq<u64>, k: nat, n: nat)
    requires
        (k + 1) * n <= ct1.len(),
        (k + 1) * n <= ct2.len(),
        k * n <= key.len(),
    ensures
        glwe_phase(glwe_sub(ct1, ct2, (k + 1) * n), key, k, n)
            == poly_sub_q(glwe_phase(ct1, key, k, n), glwe_phase(ct2, key, k, n)),
{
    lemma_phase_combination(ct1, ct2, key, k, n, false);
}

proof fn lemma_phase_combination(ct1: Seq<u64>, ct2: Seq<u64>, key: Seq<u64>, k: nat, n: nat, adding: bool)
    requires
        (k + 1) * n <= ct1.len(),
        (k + 1) * n <= ct2.len(),
        k * n <= key.len(),
    ensures
        adding ==> glwe_phase(glwe_add(ct1, ct2, (k + 1) * n), key, k, n)
            == poly_add_q(glwe_phase(ct1, key, k, n), glwe_phase(ct2, key, k, n)),
        !adding ==> glwe_phase(glwe_sub(ct1, ct2, (k + 1) * n), key, k, n)
            == poly_sub_q(glwe_phase(ct1, key, k, n), glwe_phase(ct2, key, k, n)),
{
    let q: int = Q + 1;
    let s = if adding { glwe_add(ct1, ct2, (k + 1) * n) } else { glwe_sub(ct1, ct2, (k + 1) * n) };
    lemma_combined_polys(ct1, ct2, k, n);
    let ms = polys(s, k, n);
    let m1 = polys(ct1, k, n);
    let m2 = polys(ct2, k, n);
    let p1 = glwe_phase(ct1, key, k, n);
    let p2 = glwe_phase(ct2, key, k, n);
    let ps = glwe_phase(s, key, k, n);
    let expected = if adding { poly_add_q(p1, p2) } else { poly_sub_q(p1, p2) };
    crate::tfhe::layout::lemma_block_end(k as int, n as int, (k + 1) as int);
    assert(ps.len() == n && expected.len() == n);
    assert forall|c: int| 0 <= c < n implies #[trigger] ps[c] == expected[c] by {
        let f = |i: int| poly_mul(ms[i], poly_at(key, i, n))[c] as int;
        let f1 = |i: int| poly_mul(m1[i], poly_at(key, i, n))[c] as int;
        let f2 = |i: int| poly_mul(m2[i], poly_at(key, i, n))[c] as int;
        let nf2 = |i: int| -1 * f2(i);
        let g = |i: int| if adding { f1(i) + f2(i) } else { f1(i) + nf2(i) };
        assert forall|i: int| 0 <= i < k implies #[trigger] f(i) % q == g(i) % q by {
            crate::tfhe::layout::lemma_block_end(i, n as int, k as int);
            crate::tfhe::layout::lemma_block_end(i, n as int, (k + 1) as int);
            let kp = poly_at(key, i, n);
            if adding {
                mul_distributes_over_add_q(m1[i], m2[i], kp);
                lemma_mod_twice(f1(i) + f2(i), q);
            } else {
                mul_distributes_over_sub_q(m1[i], m2[i], kp);
                lemma_mod_twice(f1(i) - f2(i), q);
            }
        }
        lemma_sum_congruent(f, g, k, q);
        lemma_sum_ext(|i: int| poly_mul(ms[i], poly_at(key, i, n))[c] as int, f, k);
        lemma_sum_ext(|i: int| poly_mul(m1[i], poly_at(key, i, n))[c] as int, f1, k);
        lemma_sum_ext(|i: int| poly_mul(m2[i], poly_at(key, i, n))[c] as int, f2, k);
        crate::tfhe::layout::lemma_block_end(k as int, n as int, (k + 1) as int);
        let b1 = poly_at(ct1, k as int, n)[c] as int;
        let b2 = poly_at(ct2, k as int, n)[c] as int;
        let x = multisum_partial(ms, key, n, k, c);
        let x1 = multisum_partial(m1, key, n, k, c);
        let x2 = multisum_partial(m2, key, n, k, c);
        if adding {
            lemma_sum_add(f1, f2, k);
            lemma_sum_ext(g, |i: int| f1(i) + f2(i), k);
            lemma_phase_sum_arith(b1, b2, x, x1, x2);
        } else {
            lemma_sum_add(f1, nf2, k);
            lemma_sum_scale(f2, -1, k);
            lemma_sum_ext(nf2, |i: int| -1 * f2(i), k);
            lemma_sum_ext(g, |i: int| f1(i) + nf2(i), k);
            lemma_phase_diff_arith(b1, b2, x, x1, x2);
        }
    }
    assert(ps =~= expected);
}

/// Decrypting the sum of two encryptions gives the sum of what was
/// encrypted, each with its noise: `(m1 + e1) + (m2 + e2)`, modulo the prime
/// `Q + 1`, for any masks.
pub proof fn decrypt_sum_of_encryptions(
    key: Seq<u64>,
    masks1: Seq<Seq<u64>>,
    masks2: Seq<Seq<u64>>,
    m1: Seq<u64>,
    m2: Seq<u64>,
    e1: Seq<u64>,
    e2: Seq<u64>,
    k: nat,
    n: nat,
)
    requires
        masks1.len() == k,
        masks2.len() == k,
        uniform(masks1, n),
        uniform(masks2, n),
        m1.len() == n,
        m2.len() == n,
        e1.len() == n,
        e2.len() == n,
        k * n <= key.len(),
    ensures
        glwe_phase(
            glwe_add(join(encryption_polys(key, masks1, m1, e1, k, n)), join(encryption_polys(key, masks2, m2, e2, k, n)), (k + 1) * n),
            key,
            k,
            n,
        ) == poly_add_q(poly_add_q(m1, e1), poly_add_q(m2, e2)),
        glwe_phase(
            glwe_sub(join(encryption_polys(key, masks1, m1, e1, k, n)), join(encryption_polys(key, masks2, m2, e2, k, n)), (k + 1) * n),
            key,
            k,
            n,
        ) == poly_sub_q(poly_add_q(m1, e1), poly_add_q(m2, e2)),
{
    let c1 = join(encryption_polys(key, masks1, m1, e1, k, n));
    let c2 = join(encryption_polys(key, masks2, m2, e2, k, n));
    assert(uniform(encryption_polys(key, masks1, m1, e1, k, n), n));
    assert(uniform(encryption_polys(key, masks2, m2, e2, k, n), n));
    lemma_join_uniform(encryption_polys(key, masks1, m1, e1, k, n), n);
    lemma_join_uniform(encryption_polys(key, masks2, m2, e2, k, n), n);
    assert((k + 1) * n == k * n + n) by (nonlinear_arith);
    decrypt_encrypt(key, masks1, m1, e1, k, n);
    decrypt_encrypt(key, masks2, m2, e2, k, n);
    phase_of_sum(c1, c2, key, k, n);
    phase_of_difference(c1, c2, key, k, n);
}

} // verus!
