//! Sample extraction: the LWE ciphertext of one coefficient of a GLWE
//! ciphertext.
use vstd::prelude::*;
use vstd::arithmetic::div_mod::*;
use vstd::arithmetic::mul::lemma_mul_is_commutative;
use crate::math::polynomial::polynomial::{monomial, poly_mul, reduce, views, Polynomial, Q};
use crate::math::polynomial::ntt_theory::cyclic_convolution;
use crate::math::polynomial::product_laws::lemma_convolution_symmetric;
use crate::math::summation::{lemma_sum_blocks, lemma_sum_congruent, lemma_sum_ext, sum};
use crate::tfhe::secret_key::secret_key::{decryption_keeps_top_bits, encryption_polys, glwe_phase, multisum_partial};
use vstd::arithmetic::power2::pow2;
use crate::tfhe::layout::{poly_at, polys};
use crate::tfhe::glwe::glwe::GLWECiphertext;
use crate::tfhe::layout::{join, lemma_block_end, lemma_block_index, lemma_join_uniform, uniform};
use crate::tfhe::schemas::{from_poly_list, LWE_CT_Params, TFHESchema};

verus! {

/// The LWE coefficients extracted from the GLWE coefficients `ct` (`k` mask
/// polynomials of order `n`) at position `pos`: entry `i * n + j` of the mask
/// is coefficient `pos - j` of mask polynomial `i` when `j <= pos`, and
/// coefficient `pos + n - j` otherwise; the body is coefficient `pos` of the
/// body polynomial.
pub open spec fn extracted(ct: Seq<u64>, k: nat, n: nat, pos: nat) -> Seq<u64> {
    Seq::new(
        k * n + 1,
        |idx: int|
            if idx < k * n {
                let i = idx / (n as int);
                let j = idx % (n as int);
                if j <= pos {
                    ct[i * n + pos - j]
                } else {
                    ct[i * n + pos + n - j]
                }
            } else {
                ct[(k * n + pos) as int]
            },
    )
}

/// Extracts coefficient `sample_position` of the GLWE ciphertext `ct` as an
/// LWE ciphertext whose key is the GLWE key read as scalars.
#[allow(non_camel_case_types)]
pub fn extract_sample<S: TFHESchema, P_old: LWE_CT_Params<S>, P_new: LWE_CT_Params<S>>(
    ct: &GLWECiphertext<S, P_old>,
    sample_position: usize,
) -> (r: GLWECiphertext<S, P_new>)
    requires
        P_new::POLINOMIAL_SIZE == 1,
        sample_position < P_old::POLINOMIAL_SIZE,
        (P_old::MASK_SIZE + 1) * P_old::POLINOMIAL_SIZE <= ct@.len(),
    ensures
        r@ == extracted(ct@, P_old::MASK_SIZE as nat, P_old::POLINOMIAL_SIZE as nat, sample_position as nat),
{
    let k = P_old::MASK_SIZE;
    let n = P_old::POLINOMIAL_SIZE;
    let ghost pos = sample_position as nat;
    let total = ct.0.len();
    proof {
        assert(k * n + n == (k + 1) * n) by (nonlinear_arith);
        assert(n * k == k * n) by (nonlinear_arith);
    }
    let mut a: Vec<Polynomial> = Vec::with_capacity(n * k);
    let mut idx: usize = 0;
    while idx < n * k
        invariant
            idx <= n * k,
            n * k + n <= ct@.len(),
            total == ct@.len(),
            a@.len() == idx,
            forall|t: int| 0 <= t < idx ==> (#[trigger] a@[t])@ == monomial(1, 0, 0),
        decreases n * k - idx,
    {
        a.push(Polynomial::new_zero(1));
        idx = idx + 1;
        proof {
            assert(a@[idx - 1]@ =~= monomial(1, 0, 0));
        }
    }
    let mut i: usize = 0;
    while i < k
        invariant
            i <= k,
            k == P_old::MASK_SIZE,
            n == P_old::POLINOMIAL_SIZE,
            sample_position < n,
            pos == sample_position,
            k * n + n <= ct@.len(),
            k * n + n == (k + 1) * n,
            n * k == k * n,
            total == ct@.len(),
            a@.len() == n * k,
            forall|t: int| 0 <= t < n * k ==> (#[trigger] a@[t])@.len() == 1,
            forall|t: int| 0 <= t < n * i ==> (#[trigger] a@[t])@[0] == extracted(ct@, k as nat, n as nat, pos)[t],
        decreases k - i,
    {
        proof {
            lemma_block_end(i as int, n as int, (k + 1) as int);
            assert(n * i + n <= n * k) by (nonlinear_arith)
                requires
                    i < k,
            ;
            assert(i * n == n * i) by (nonlinear_arith);
        }
        let poly = ct.get_poly_by_index(i);
        proof {
            assert(poly@.len() == n);
        }
        let mut j: usize = 0;
        while j < n
            invariant
                i < k,
                j <= n,
                k == P_old::MASK_SIZE,
                n == P_old::POLINOMIAL_SIZE,
                sample_position < n,
                pos == sample_position,
                k * n + n <= ct@.len(),
                n * k == k * n,
                total == ct@.len(),
                n * i + n <= n * k,
                i * n + n <= ct@.len(),
                i * n == n * i,
                poly@ == crate::tfhe::layout::poly_at(ct@, i as int, n as nat),
                poly@.len() == n,
                a@.len() == n * k,
                forall|t: int| 0 <= t < n * k ==> (#[trigger] a@[t])@.len() == 1,
                forall|t: int| 0 <= t < n * i + j ==> (#[trigger] a@[t])@[0] == extracted(ct@, k as nat, n as nat, pos)[t],
            decreases n - j,
        {
            let val = if j <= sample_position {
                poly.index(sample_position - j)
            } else {
                poly.index(sample_position + (n - j))
            };
            proof {
                let t = (n * i + j) as int;
                assert(t == i * n + j) by (nonlinear_arith)
                    requires
                        t == n * i + j,
                ;
                lemma_block_index(i as int, j as int, n as int, k as int);
                lemma_fundamental_div_mod(t, n as int);
                lemma_mod_bound(t, n as int);
                assert(t / (n as int) == i && t % (n as int) == j) by {
                    lemma_div_multiples_vanish_fancy(i as int, j as int, n as int);
                    lemma_mod_multiples_vanish(i as int, j as int, n as int);
                    lemma_small_mod(j as nat, n as nat);
                    assert((n as int) * (i as int) + j == t);
                }
            }
            let m = Polynomial::new_monomial(1, val, 0);
            proof {
                let t = (n * i + j) as int;
                assert(m@[0] == val);
                let e = extracted(ct@, k as nat, n as nat, pos);
                if j <= sample_position {
                    assert(val == ct@[i * n + pos - j]);
                } else {
                    assert(val == ct@[i * n + pos + n - j]);
                }
                assert(e[t] == val);
            }
            a.set(n * i + j, m);
            j = j + 1;
        }
        proof {
            assert(n * (i + 1) == n * i + n) by (nonlinear_arith);
        }
        i = i + 1;
    }
    proof {
        lemma_block_end(k as int, n as int, (k + 1) as int);
    }
    let body = ct.get_poly_by_index(k);
    a.push(Polynomial::new_monomial(1, body.index(sample_position), 0));
    proof {
        assert(n * k == k * n) by (nonlinear_arith);
        assert(uniform(views(a@), 1));
        lemma_join_uniform(views(a@), 1);
        assert forall|t: int| 0 <= t < k * n + 1 implies #[trigger] join(views(a@))[t] == extracted(ct@, k as nat, n as nat, pos)[t] by {
            assert(join(views(a@))[t * 1 + 0] == views(a@)[t][0]);
        }
        assert(join(views(a@)) =~= extracted(ct@, k as nat, n as nat, pos));
    }
    GLWECiphertext::from_polynomial_list(<Vec<u64> as from_poly_list>::from(a))
}

/// Entry `i * n + j` of the extracted mask is coefficient `(pos - j) mod n`
/// of mask polynomial `i`.
proof fn lemma_extracted_entry(ct: Seq<u64>, k: nat, n: nat, pos: nat, i: int, j: int)
    requires
        0 <= i < k,
        0 <= j < n,
        pos < n,
        (k + 1) * n <= ct.len(),
    ensures
        0 <= i * n + j < k * n,
        0 <= (pos - j) % (n as int) < n,
        extracted(ct, k, n, pos)[i * n + j] == poly_at(ct, i, n)[(pos - j) % (n as int)],
{
    let ni = n as int;
    let t = i * ni + j;
    lemma_block_index(i, j, ni, k as int);
    lemma_block_end(i, ni, (k + 1) as int);
    assert(t / ni == i && t % ni == j) by {
        lemma_div_multiples_vanish_fancy(i, j, ni);
        lemma_mod_multiples_vanish(i, j, ni);
        lemma_small_mod(j as nat, n);
        assert(ni * i + j == t) by (nonlinear_arith)
            requires
                t == i * ni + j,
        ;
    }
    if j <= pos {
        lemma_small_mod((pos - j) as nat, n);
    } else {
        lemma_mod_add_multiples_vanish(pos - j, ni);
        lemma_small_mod((pos - j + ni) as nat, n);
    }
}

/// Sample extraction keeps the phase: under the GLWE key read as scalars
/// (`extract_key`), the LWE ciphertext extracted at `pos` decrypts to
/// coefficient `pos` of what the GLWE ciphertext decrypts to.
pub proof fn extraction_keeps_phase(ct: Seq<u64>, key: Seq<u64>, k: nat, n: nat, pos: nat)
    requires
        pos < n,
        (k + 1) * n <= ct.len(),
        k * n <= key.len(),
    ensures
        glwe_phase(extracted(ct, k, n, pos), key, k * n, 1).len() == 1,
        glwe_phase(extracted(ct, k, n, pos), key, k * n, 1)[0] == glwe_phase(ct, key, k, n)[pos as int],
{
    let q: int = Q + 1;
    let ni = n as int;
    let e = extracted(ct, k, n, pos);
    let kn = k * n;
    assert(kn * 1 + 1 == kn + 1);
    // the terms of the LWE multisum are plain products reduced modulo q
    let lw = |idx: int| poly_mul(polys(e, kn, 1)[idx], poly_at(key, idx, 1))[0] as int;
    let plain = |idx: int| e[idx] * key[idx];
    assert forall|idx: int| 0 <= idx < kn implies #[trigger] lw(idx) % q == plain(idx) % q by {
        let x = poly_at(e, idx, 1);
        let y = poly_at(key, idx, 1);
        let f = |i: int| x[i] * y[(0 - i) % 1];
        assert(sum(f, 1) == sum(f, 0) + f(0));
        assert(cyclic_convolution(x, y, 1, 0) == e[idx] * key[idx]);
        lemma_mod_twice(e[idx] * key[idx], q);
    }
    lemma_sum_congruent(lw, plain, kn, q);
    lemma_sum_blocks(plain, k, n);
    // block `i` of the plain sum is the cyclic convolution at `pos`
    let conv = |i: int| cyclic_convolution(poly_at(ct, i, n), poly_at(key, i, n), n, pos as int);
    let outer = |i: int| sum(|j: int| plain(i * n + j), n);
    assert forall|i: int| 0 <= i < k implies #[trigger] outer(i) == conv(i) by {
        let a = poly_at(ct, i, n);
        let s = poly_at(key, i, n);
        lemma_block_end(i, ni, k as int);
        assert forall|j: int| 0 <= j < n implies #[trigger] plain(i * n + j) == s[j] * a[(pos - j) % ni] by {
            lemma_extracted_entry(ct, k, n, pos, i, j);
            lemma_mul_is_commutative(e[i * n + j] as int, key[i * n + j] as int);
        }
        lemma_sum_ext(|j: int| plain(i * n + j), |j: int| s[j] * a[(pos - j) % ni], n);
        lemma_convolution_symmetric(s, a, n, pos as int);
    }
    lemma_sum_ext(outer, conv, k);
    lemma_sum_ext(|i: int| sum(|j: int| plain(i * n + j), n), outer, k);
    // the GLWE multisum reduces each convolution modulo q
    let gw = |i: int| poly_mul(polys(ct, k, n)[i], poly_at(key, i, n))[pos as int] as int;
    assert forall|i: int| 0 <= i < k implies #[trigger] conv(i) % q == gw(i) % q by {
        lemma_block_end(i, ni, (k + 1) as int);
        lemma_mod_twice(conv(i), q);
    }
    lemma_sum_congruent(conv, gw, k, q);
    let x_lwe = multisum_partial(polys(e, kn, 1), key, 1, kn, 0);
    let x_glwe = multisum_partial(polys(ct, k, n), key, n, k, pos as int);
    lemma_sum_ext(|i: int| poly_mul(polys(e, kn, 1)[i], poly_at(key, i, 1))[0] as int, lw, kn);
    lemma_sum_ext(|i: int| poly_mul(polys(ct, k, n)[i], poly_at(key, i, n))[pos as int] as int, gw, k);
    assert(x_lwe % q == x_glwe % q);
    // the bodies agree
    lemma_block_end(k as int, ni, (k + 1) as int);
    let b = e[kn as int] as int;
    assert(poly_at(e, kn as int, 1)[0] == e[kn as int]);
    assert(b == poly_at(ct, k as int, n)[pos as int]);
    lemma_mod_bound(x_lwe, q);
    lemma_mod_bound(x_glwe, q);
}

/// The LWE sample extracted at `pos` from an encryption of `message` keeps
/// the bits of `message[pos]` above bit `s` under the key read as scalars,
/// whenever the noise neither carries into those bits nor lifts the sum to
/// `Q + 1`.
pub proof fn extraction_keeps_top_bits(
    key: Seq<u64>,
    masks: Seq<Seq<u64>>,
    message: Seq<u64>,
    noise: Seq<u64>,
    k: nat,
    n: nat,
    pos: nat,
    s: nat,
)
    requires
        pos < n,
        k * n <= key.len(),
        masks.len() == k,
        uniform(masks, n),
        message.len() == n,
        noise.len() == n,
        forall|c: int| 0 <= c < n ==> #[trigger] message[c] + reduce(noise[c] as int) < Q + 1,
        forall|c: int| 0 <= c < n ==> (#[trigger] message[c] as int) % (pow2(s) as int) + reduce(noise[c] as int) < pow2(s),
    ensures
        (glwe_phase(extracted(join(encryption_polys(key, masks, message, noise, k, n)), k, n, pos), key, k * n, 1)[0] as int)
            / (pow2(s) as int) == (message[pos as int] as int) / (pow2(s) as int),
{
    let ps = encryption_polys(key, masks, message, noise, k, n);
    assert(uniform(ps, n));
    lemma_join_uniform(ps, n);
    assert(ps.len() == k + 1);
    extraction_keeps_phase(join(ps), key, k, n, pos);
    decryption_keeps_top_bits(key, masks, message, noise, k, n, s);
}

} // verus!
