//! What a key-switched LWE ciphertext decrypts to under the new key.
use vstd::prelude::*;
use vstd::arithmetic::div_mod::*;
use vstd::arithmetic::mul::*;
use crate::math::polynomial::ntt_theory::lemma_cong_mul;
use crate::math::polynomial::polynomial::{decomposition, poly_mul, reduce, zero_poly, Q};
use crate::math::summation::{lemma_sum_add, lemma_sum_congruent, lemma_sum_ext, lemma_sum_scale, lemma_sum_swap, sum};
use crate::tfhe::gadget::{gadget_product, gadget_rows, gadget_term, key_index, lemma_key_index_bound};
use crate::tfhe::layout::{join, lemma_join_uniform, poly_at, polys, uniform};
use crate::tfhe::secret_key::secret_key::{glwe_phase, multisum_partial};
use crate::tfhe::server_key::server_key::key_switched;

verus! {

/// Row `t` of GLev `g` of a key-switching key whose GLWE ciphertexts have
/// `k_new` mask scalars: the `k_new + 1` scalars of that LWE ciphertext.
pub open spec fn ksk_row(key: Seq<u64>, k_new: nat, glev_l: nat, g: int, t: int) -> Seq<u64> {
    key.subrange(key_index(k_new, glev_l, g, t, 0), key_index(k_new, glev_l, g, t, 0) + k_new + 1)
}

/// Digit `t` of mask scalar `g` of the LWE ciphertext `ct`.
pub open spec fn mask_digit(ct: Seq<u64>, glwe_q: nat, glev_l: nat, glev_b: nat, g: int, t: int) -> int {
    decomposition(glwe_q, glev_l, glev_b, poly_at(ct, g, 1))[t][0] as int
}

/// The product of two polynomials of order 1 is the product of their
/// scalars modulo `Q + 1`.
proof fn lemma_scalar_product(x: Seq<u64>, y: Seq<u64>)
    requires
        x.len() == 1,
    ensures
        poly_mul(x, y)[0] == (x[0] * y[0]) % (Q + 1),
{
    let f = |i: int| x[i] * y[(0 - i) % 1];
    assert(sum(f, 1) == sum(f, 0) + f(0));
}

/// The LWE phase (order 1) of `ct` with `k` masks under `key`, as residues.
proof fn lemma_lwe_phase(ct: Seq<u64>, key: Seq<u64>, k: nat)
    requires
        k + 1 <= ct.len(),
        k <= key.len(),
    ensures
        glwe_phase(ct, key, k, 1)[0] == reduce(ct[k as int] - reduce(sum(|p: int| (ct[p] * key[p]) % (Q + 1), k))),
{
    let f = |p: int| poly_mul(polys(ct, k, 1)[p], poly_at(key, p, 1))[0] as int;
    let g = |p: int| (ct[p] * key[p]) % (Q + 1);
    assert forall|p: int| 0 <= p < k implies #[trigger] f(p) == g(p) by {
        lemma_scalar_product(poly_at(ct, p, 1), poly_at(key, p, 1));
    }
    lemma_sum_ext(f, g, k);
    lemma_sum_ext(|p: int| poly_mul(polys(ct, k, 1)[p], poly_at(key, p, 1))[0] as int, f, k);
}

/// `sum_{g < k_old} sum_{t < glev_l} digit(g, t) * key[key_index(g, t, p)]`
/// over the integers: what the gadget product accumulates into scalar `p`.
spec fn switch_total(
    key: Seq<u64>,
    ct: Seq<u64>,
    k_old: nat,
    k_new: nat,
    glwe_q: nat,
    glev_l: nat,
    glev_b: nat,
    p: int,
) -> int {
    sum(
        |g: int| sum(|t: int| mask_digit(ct, glwe_q, glev_l, glev_b, g, t) * key[key_index(k_new, glev_l, g, t, p)], glev_l),
        k_old,
    )
}

/// Scalar `p` of the gadget product of the mask scalars of `ct` with `key`
/// is `switch_total` reduced modulo `Q + 1`.
proof fn lemma_gadget_scalar(
    key: Seq<u64>,
    ct: Seq<u64>,
    k_old: nat,
    k_new: nat,
    glwe_q: nat,
    glev_l: nat,
    glev_b: nat,
    p: int,
)
    requires
        0 <= p <= k_new,
        k_old + 1 <= ct.len(),
        k_old * (glev_l * (k_new + 1)) * 1 <= key.len(),
    ensures
        join(gadget_product(key, polys(ct, k_old, 1), k_new, 1, glwe_q, glev_l, glev_b)).len() == k_new + 1,
        join(gadget_product(key, polys(ct, k_old, 1), k_new, 1, glwe_q, glev_l, glev_b))[p]
            == reduce(switch_total(key, ct, k_old, k_new, glwe_q, glev_l, glev_b, p)),
{
    let q: int = Q + 1;
    let inputs = polys(ct, k_old, 1);
    let gp = gadget_product(key, inputs, k_new, 1, glwe_q, glev_l, glev_b);
    assert(uniform(gp, 1));
    lemma_join_uniform(gp, 1);
    assert(join(gp)[p * 1 + 0] == gp[p][0]);
    let outer_t = |g: int| sum(|t: int| gadget_term(key, inputs, k_new, 1, glwe_q, glev_l, glev_b, g, t, p)[0] as int, glev_l);
    let outer_d = |g: int| sum(|t: int| mask_digit(ct, glwe_q, glev_l, glev_b, g, t) * key[key_index(k_new, glev_l, g, t, p)], glev_l);
    assert forall|g: int| 0 <= g < k_old implies #[trigger] outer_t(g) % q == outer_d(g) % q by {
        let ft = |t: int| gadget_term(key, inputs, k_new, 1, glwe_q, glev_l, glev_b, g, t, p)[0] as int;
        let fd = |t: int| mask_digit(ct, glwe_q, glev_l, glev_b, g, t) * key[key_index(k_new, glev_l, g, t, p)];
        assert forall|t: int| 0 <= t < glev_l implies #[trigger] ft(t) % q == fd(t) % q by {
            lemma_key_index_bound(k_new, glev_l, 1, k_old, g, t, p);
            let idx = key_index(k_new, glev_l, g, t, p);
            let dec = decomposition(glwe_q, glev_l, glev_b, inputs[g])[t];
            assert(inputs[g] == poly_at(ct, g, 1));
            lemma_scalar_product(dec, poly_at(key, idx, 1));
            assert(poly_at(key, idx, 1)[0] == key[idx]);
            lemma_mod_twice(fd(t), q);
        }
        lemma_sum_congruent(ft, fd, glev_l, q);
        lemma_sum_ext(|t: int| gadget_term(key, inputs, k_new, 1, glwe_q, glev_l, glev_b, g, t, p)[0] as int, ft, glev_l);
        lemma_sum_ext(|t: int| mask_digit(ct, glwe_q, glev_l, glev_b, g, t) * key[key_index(k_new, glev_l, g, t, p)], fd, glev_l);
    }
    lemma_sum_congruent(outer_t, outer_d, k_old, q);
    let rows = gadget_rows(key, inputs, k_new, 1, glwe_q, glev_l, glev_b, k_old, p, 0);
    lemma_sum_ext(|gg: int| sum(|t: int| gadget_term(key, inputs, k_new, 1, glwe_q, glev_l, glev_b, gg, t, p)[0] as int, glev_l), outer_t, k_old);
    lemma_sum_ext(
        |g: int| sum(|t: int| mask_digit(ct, glwe_q, glev_l, glev_b, g, t) * key[key_index(k_new, glev_l, g, t, p)], glev_l),
        outer_d,
        k_old,
    );
    assert(rows % q == switch_total(key, ct, k_old, k_new, glwe_q, glev_l, glev_b, p) % q);
}

/// Residues of differences depend only on the residues of their terms.
proof fn lemma_reduce_cong_sub(x1: int, x2: int, y1: int, y2: int)
    requires
        x1 % (Q + 1) == x2 % (Q + 1),
        y1 % (Q + 1) == y2 % (Q + 1),
    ensures
        reduce(x1 - y1) == reduce(x2 - y2),
{
    lemma_sub_mod_noop(x1, y1, Q + 1);
    lemma_sub_mod_noop(x2, y2, Q + 1);
}

/// A reduced value is congruent to what was reduced.
proof fn lemma_reduce_cong(x: int)
    ensures
        (reduce(x) as int) % (Q + 1) == x % (Q + 1),
        0 <= reduce(x) < Q + 1,
{
    lemma_mod_bound(x, Q + 1);
    lemma_mod_twice(x, Q + 1);
}

/// Scalar `p` of the new key, times the key-switching-key scalar `p` of row
/// `(g, t)`, times the digit `(g, t)`.
spec fn switch_cell(
    key: Seq<u64>,
    ct: Seq<u64>,
    new_key: Seq<u64>,
    k_new: nat,
    glwe_q: nat,
    glev_l: nat,
    glev_b: nat,
    g: int,
    t: int,
    p: int,
) -> int {
    mask_digit(ct, glwe_q, glev_l, glev_b, g, t) * (key[key_index(k_new, glev_l, g, t, p)] * new_key[p])
}

/// The phase of the key-switched ciphertext, as an integer residue:
/// `b - T(k_new) + sum_p T(p) * s_p`.
proof fn lemma_switched_phase(
    key: Seq<u64>,
    ct: Seq<u64>,
    new_key: Seq<u64>,
    k_old: nat,
    k_new: nat,
    glwe_q: nat,
    glev_l: nat,
    glev_b: nat,
)
    requires
        k_old + 1 <= ct.len(),
        k_old * (glev_l * (k_new + 1)) * 1 <= key.len(),
        k_new <= new_key.len(),
    ensures
        glwe_phase(key_switched(key, ct, k_old, k_new, glwe_q, glev_l, glev_b), new_key, k_new, 1)[0] == reduce(
            ct[k_old as int] - switch_total(key, ct, k_old, k_new, glwe_q, glev_l, glev_b, k_new as int)
                + sum(|p: int| switch_total(key, ct, k_old, k_new, glwe_q, glev_l, glev_b, p) * new_key[p], k_new),
        ),
{
    let q: int = Q + 1;
    let k = k_new;
    let t_of = |p: int| switch_total(key, ct, k_old, k_new, glwe_q, glev_l, glev_b, p);
    let zs = Seq::new(k, |i: int| zero_poly(1)).push(poly_at(ct, k_old as int, 1));
    assert(uniform(zs, 1));
    lemma_join_uniform(zs, 1);
    let z = join(zs);
    let gseq = join(gadget_product(key, polys(ct, k_old, 1), k_new, 1, glwe_q, glev_l, glev_b));
    let o = key_switched(key, ct, k_old, k_new, glwe_q, glev_l, glev_b);
    assert forall|p: int| 0 <= p <= k implies #[trigger] gseq[p] == reduce(t_of(p)) by {
        lemma_gadget_scalar(key, ct, k_old, k_new, glwe_q, glev_l, glev_b, p);
    }
    lemma_gadget_scalar(key, ct, k_old, k_new, glwe_q, glev_l, glev_b, 0);
    assert forall|p: int| 0 <= p <= k implies #[trigger] z[p] == (if p < k { 0 } else { ct[k_old as int] }) by {
        assert(z[p * 1 + 0] == zs[p][0]);
    }
    assert(o.len() == k + 1);
    // mask scalars: o[p] = -T(p), body: b - T(k), modulo q
    let f = |p: int| (o[p] * new_key[p]) % q;
    let h = |p: int| -1 * (t_of(p) * new_key[p]);
    assert forall|p: int| 0 <= p < k implies #[trigger] f(p) % q == h(p) % q by {
        lemma_reduce_cong(t_of(p));
        lemma_reduce_cong(0 - gseq[p]);
        lemma_sub_mod_noop(0, t_of(p), q);
        lemma_sub_mod_noop(0, gseq[p] as int, q);
        assert((o[p] as int) % q == (0 - t_of(p)) % q);
        lemma_cong_mul(o[p] as int, new_key[p] as int, 0 - t_of(p), new_key[p] as int, q);
        lemma_mod_twice(o[p] * new_key[p], q);
        assert((0 - t_of(p)) * new_key[p] == -1 * (t_of(p) * new_key[p])) by (nonlinear_arith);
    }
    lemma_sum_congruent(f, h, k, q);
    let tf = |p: int| t_of(p) * new_key[p];
    let u = sum(tf, k);
    lemma_sum_scale(tf, -1, k);
    lemma_sum_ext(h, |i: int| -1 * tf(i), k);
    assert(sum(h, k) == -1 * u);
    lemma_lwe_phase(o, new_key, k);
    lemma_sum_ext(|p: int| (o[p] * new_key[p]) % (Q + 1), f, k);
    let sf = sum(f, k);
    lemma_reduce_cong(sf);
    lemma_reduce_cong(ct[k_old as int] - gseq[k as int]);
    lemma_reduce_cong(t_of(k as int));
    lemma_sub_mod_noop(ct[k_old as int] as int, gseq[k as int] as int, q);
    lemma_sub_mod_noop(ct[k_old as int] as int, t_of(k as int), q);
    assert((o[k as int] as int) % q == (ct[k_old as int] - t_of(k as int)) % q);
    assert((reduce(sf) as int) % q == (-1 * u) % q);
    lemma_reduce_cong_sub(o[k as int] as int, ct[k_old as int] - t_of(k as int), reduce(sf) as int, -1 * u);
    lemma_sum_ext(tf, |p: int| switch_total(key, ct, k_old, k_new, glwe_q, glev_l, glev_b, p) * new_key[p], k);
}

/// The phase of row `(g, t)` of the key-switching key under the new key.
proof fn lemma_row_phase(
    key: Seq<u64>,
    new_key: Seq<u64>,
    k_old: nat,
    k_new: nat,
    glev_l: nat,
    g: int,
    t: int,
)
    requires
        0 <= g < k_old,
        0 <= t < glev_l,
        k_old * (glev_l * (k_new + 1)) * 1 <= key.len(),
        k_new <= new_key.len(),
    ensures
        glwe_phase(ksk_row(key, k_new, glev_l, g, t), new_key, k_new, 1)[0] == reduce(
            key[key_index(k_new, glev_l, g, t, k_new as int)] - reduce(
                sum(|p: int| (key[key_index(k_new, glev_l, g, t, p)] * new_key[p]) % (Q + 1), k_new),
            ),
        ),
{
    lemma_key_index_bound(k_new, glev_l, 1, k_old, g, t, k_new as int);
    let row = ksk_row(key, k_new, glev_l, g, t);
    assert(row.len() == k_new + 1);
    lemma_lwe_phase(row, new_key, k_new);
    assert forall|p: int| 0 <= p <= k_new implies #[trigger] row[p] == key[key_index(k_new, glev_l, g, t, p)] by {}
    lemma_sum_ext(
        |p: int| (row[p] * new_key[p]) % (Q + 1),
        |p: int| (key[key_index(k_new, glev_l, g, t, p)] * new_key[p]) % (Q + 1),
        k_new,
    );
}

/// `sum_p T(p) s_p` and `sum_{g, t} digit(g, t) * sum_p key(g, t, p) s_p`
/// are the same triple sum.
proof fn lemma_switch_sums_swap(
    key: Seq<u64>,
    ct: Seq<u64>,
    new_key: Seq<u64>,
    k_old: nat,
    k_new: nat,
    glwe_q: nat,
    glev_l: nat,
    glev_b: nat,
)
    ensures
        sum(|p: int| switch_total(key, ct, k_old, k_new, glwe_q, glev_l, glev_b, p) * new_key[p], k_new) == sum(
            |g: int|
                sum(
                    |t: int|
                        mask_digit(ct, glwe_q, glev_l, glev_b, g, t) * sum(
                            |p: int| key[key_index(k_new, glev_l, g, t, p)] * new_key[p],
                            k_new,
                        ),
                    glev_l,
                ),
            k_old,
        ),
{
    let cell = |g: int, t: int, p: int| switch_cell(key, ct, new_key, k_new, glwe_q, glev_l, glev_b, g, t, p);
    // left: T(p) * s_p is the double sum of the cells at p
    let left = |p: int| sum(|g: int| sum(|t: int| cell(g, t, p), glev_l), k_old);
    assert forall|p: int| 0 <= p < k_new implies #[trigger] (switch_total(key, ct, k_old, k_new, glwe_q, glev_l, glev_b, p) * new_key[p]) == left(p) by {
        let sp = new_key[p] as int;
        let inner = |g: int| sum(|t: int| mask_digit(ct, glwe_q, glev_l, glev_b, g, t) * key[key_index(k_new, glev_l, g, t, p)], glev_l);
        lemma_sum_scale(inner, sp, k_old);
        lemma_sum_ext(
            |g: int| sum(|t: int| mask_digit(ct, glwe_q, glev_l, glev_b, g, t) * key[key_index(k_new, glev_l, g, t, p)], glev_l),
            inner,
            k_old,
        );
        assert forall|g: int| 0 <= g < k_old implies #[trigger] (sp * inner(g)) == sum(|t: int| cell(g, t, p), glev_l) by {
            let ft = |t: int| mask_digit(ct, glwe_q, glev_l, glev_b, g, t) * key[key_index(k_new, glev_l, g, t, p)];
            lemma_sum_scale(ft, sp, glev_l);
            lemma_sum_ext(|t: int| mask_digit(ct, glwe_q, glev_l, glev_b, g, t) * key[key_index(k_new, glev_l, g, t, p)], ft, glev_l);
            assert forall|t: int| 0 <= t < glev_l implies #[trigger] (sp * ft(t)) == cell(g, t, p) by {
                let d = mask_digit(ct, glwe_q, glev_l, glev_b, g, t);
                let kk = key[key_index(k_new, glev_l, g, t, p)] as int;
                assert(sp * (d * kk) == d * (kk * sp)) by (nonlinear_arith);
            }
            lemma_sum_ext(|i: int| sp * ft(i), |t: int| cell(g, t, p), glev_l);
        }
        lemma_sum_ext(|i: int| sp * inner(i), |g: int| sum(|t: int| cell(g, t, p), glev_l), k_old);
        assert(switch_total(key, ct, k_old, k_new, glwe_q, glev_l, glev_b, p) * sp == sp * switch_total(key, ct, k_old, k_new, glwe_q, glev_l, glev_b, p)) by (nonlinear_arith);
    }
    lemma_sum_ext(|p: int| switch_total(key, ct, k_old, k_new, glwe_q, glev_l, glev_b, p) * new_key[p], left, k_new);
    // swap p with g, then p with t
    let pg = |p: int, g: int| sum(|t: int| cell(g, t, p), glev_l);
    lemma_sum_swap(pg, k_new, k_old);
    let pgs = |i: int| sum(|kk: int| pg(i, kk), k_old);
    assert forall|i: int| 0 <= i < k_new implies #[trigger] left(i) == pgs(i) by {
        lemma_sum_ext(|g: int| sum(|t: int| cell(g, t, i), glev_l), |kk: int| pg(i, kk), k_old);
    }
    lemma_sum_ext(left, pgs, k_new);
    lemma_sum_ext(pgs, |i: int| sum(|kk: int| pg(i, kk), k_old), k_new);
    let right = |g: int| sum(|t: int| sum(|p: int| cell(g, t, p), k_new), glev_l);
    let swapped = |kk: int| sum(|i: int| pg(i, kk), k_new);
    assert forall|g: int| 0 <= g < k_old implies #[trigger] swapped(g) == right(g) by {
        let pt = |p: int, t: int| cell(g, t, p);
        lemma_sum_swap(pt, k_new, glev_l);
        let pts = |i: int| sum(|kk: int| pt(i, kk), glev_l);
        assert forall|i: int| 0 <= i < k_new implies #[trigger] pg(i, g) == pts(i) by {
            lemma_sum_ext(|t: int| cell(g, t, i), |kk: int| pt(i, kk), glev_l);
        }
        lemma_sum_ext(|i: int| pg(i, g), pts, k_new);
        lemma_sum_ext(pts, |i: int| sum(|kk: int| pt(i, kk), glev_l), k_new);
        let ts1 = |kk: int| sum(|i: int| pt(i, kk), k_new);
        let ts2 = |t: int| sum(|p: int| cell(g, t, p), k_new);
        assert forall|kk: int| 0 <= kk < glev_l implies #[trigger] ts1(kk) == ts2(kk) by {
            lemma_sum_ext(|i: int| pt(i, kk), |p: int| cell(g, kk, p), k_new);
        }
        lemma_sum_ext(ts1, ts2, glev_l);
        lemma_sum_ext(|kk: int| sum(|i: int| pt(i, kk), k_new), ts1, glev_l);
        lemma_sum_ext(ts2, |t: int| sum(|p: int| cell(g, t, p), k_new), glev_l);
    }
    lemma_sum_ext(swapped, right, k_old);
    lemma_sum_ext(|kk: int| sum(|i: int| pg(i, kk), k_new), swapped, k_old);
    // right: digit times the inner sum over p
    let target = |g: int|
        sum(
            |t: int|
                mask_digit(ct, glwe_q, glev_l, glev_b, g, t) * sum(|p: int| key[key_index(k_new, glev_l, g, t, p)] * new_key[p], k_new),
            glev_l,
        );
    assert forall|g: int| 0 <= g < k_old implies #[trigger] right(g) == target(g) by {
        let cs = |t: int| sum(|p: int| cell(g, t, p), k_new);
        let ds = |t: int| mask_digit(ct, glwe_q, glev_l, glev_b, g, t) * sum(|p: int| key[key_index(k_new, glev_l, g, t, p)] * new_key[p], k_new);
        assert forall|t: int| 0 <= t < glev_l implies #[trigger] cs(t) == ds(t) by {
            let d = mask_digit(ct, glwe_q, glev_l, glev_b, g, t);
            let fp = |p: int| key[key_index(k_new, glev_l, g, t, p)] * new_key[p];
            lemma_sum_scale(fp, d, k_new);
            lemma_sum_ext(|i: int| d * fp(i), |p: int| cell(g, t, p), k_new);
            lemma_sum_ext(|p: int| key[key_index(k_new, glev_l, g, t, p)] * new_key[p], fp, k_new);
        }
        lemma_sum_ext(cs, ds, glev_l);
        lemma_sum_ext(|t: int| sum(|p: int| cell(g, t, p), k_new), cs, glev_l);
        lemma_sum_ext(
            ds,
            |t: int|
                mask_digit(ct, glwe_q, glev_l, glev_b, g, t) * sum(|p: int| key[key_index(k_new, glev_l, g, t, p)] * new_key[p], k_new),
            glev_l,
        );
    }
    lemma_sum_ext(right, target, k_old);
}

/// Key switching keeps what is decrypted, up to the digits' errors: under the
/// new key, the key-switched LWE ciphertext decrypts to its body minus the
/// sum, over mask scalars `g` of `ct` and digits `t`, of digit `t` of mask
/// scalar `g` times what row `(g, t)` of the key-switching key decrypts to,
/// modulo the prime `Q + 1`. When row `(g, t)` encrypts the old key scalar
/// `g` shifted to digit `t`, with its noise, this is the phase of `ct` under
/// the old key, up to the low bits of the masks times the old key and the
/// digits times the noises.
pub proof fn key_switch_phase(
    key: Seq<u64>,
    ct: Seq<u64>,
    new_key: Seq<u64>,
    k_old: nat,
    k_new: nat,
    glwe_q: nat,
    glev_l: nat,
    glev_b: nat,
)
    requires
        k_old + 1 <= ct.len(),
        k_old * (glev_l * (k_new + 1)) * 1 <= key.len(),
        k_new <= new_key.len(),
    ensures
        glwe_phase(key_switched(key, ct, k_old, k_new, glwe_q, glev_l, glev_b), new_key, k_new, 1)[0] == reduce(
            ct[k_old as int] - sum(
                |g: int|
                    sum(
                        |t: int|
                            mask_digit(ct, glwe_q, glev_l, glev_b, g, t) * glwe_phase(ksk_row(key, k_new, glev_l, g, t), new_key, k_new, 1)[0],
                        glev_l,
                    ),
                k_old,
            ),
        ),
{
    let q: int = Q + 1;
    let b = ct[k_old as int] as int;
    let kn = k_new as int;
    let tk = switch_total(key, ct, k_old, k_new, glwe_q, glev_l, glev_b, kn);
    let u = sum(|p: int| switch_total(key, ct, k_old, k_new, glwe_q, glev_l, glev_b, p) * new_key[p], k_new);
    lemma_switched_phase(key, ct, new_key, k_old, k_new, glwe_q, glev_l, glev_b);
    lemma_switch_sums_swap(key, ct, new_key, k_old, k_new, glwe_q, glev_l, glev_b);
    let d = |g: int, t: int| mask_digit(ct, glwe_q, glev_l, glev_b, g, t);
    let kk = |g: int, t: int, p: int| key[key_index(k_new, glev_l, g, t, p)] as int;
    let v = |g: int, t: int| sum(|p: int| key[key_index(k_new, glev_l, g, t, p)] * new_key[p], k_new);
    let rp = |g: int, t: int| glwe_phase(ksk_row(key, k_new, glev_l, g, t), new_key, k_new, 1)[0] as int;
    // each row decrypts to K_k - V modulo q
    let gr = |g: int| sum(|t: int| d(g, t) * rp(g, t), glev_l);
    let ga = |g: int| sum(|t: int| d(g, t) * kk(g, t, kn), glev_l);
    let gb = |g: int| -1 * sum(|t: int| d(g, t) * v(g, t), glev_l);
    assert forall|g: int| 0 <= g < k_old implies #[trigger] gr(g) % q == (ga(g) + gb(g)) % q by {
        let fr = |t: int| d(g, t) * rp(g, t);
        let fa = |t: int| d(g, t) * kk(g, t, kn);
        let fv = |t: int| d(g, t) * v(g, t);
        let fb = |t: int| -1 * fv(t);
        assert forall|t: int| 0 <= t < glev_l implies #[trigger] fr(t) % q == (fa(t) + fb(t)) % q by {
            lemma_row_phase(key, new_key, k_old, k_new, glev_l, g, t);
            let fm = |p: int| (key[key_index(k_new, glev_l, g, t, p)] * new_key[p]) % (Q + 1);
            let fp = |p: int| key[key_index(k_new, glev_l, g, t, p)] * new_key[p];
            assert forall|p: int| 0 <= p < k_new implies #[trigger] fm(p) % q == fp(p) % q by {
                lemma_mod_twice(fp(p), q);
            }
            lemma_sum_congruent(fm, fp, k_new, q);
            lemma_sum_ext(|p: int| (key[key_index(k_new, glev_l, g, t, p)] * new_key[p]) % (Q + 1), fm, k_new);
            lemma_sum_ext(|p: int| key[key_index(k_new, glev_l, g, t, p)] * new_key[p], fp, k_new);
            let sm = sum(fm, k_new);
            lemma_reduce_cong(sm);
            lemma_reduce_cong_sub(kk(g, t, kn), kk(g, t, kn), reduce(sm) as int, v(g, t));
            lemma_reduce_cong(kk(g, t, kn) - v(g, t));
            lemma_cong_mul(d(g, t), rp(g, t), d(g, t), kk(g, t, kn) - v(g, t), q);
            let dd = d(g, t);
            let k0 = kk(g, t, kn);
            let vv = v(g, t);
            assert(dd * (k0 - vv) == dd * k0 + -1 * (dd * vv)) by (nonlinear_arith);
            assert(fa(t) == dd * k0 && fb(t) == -1 * (dd * vv));
        }
        lemma_sum_congruent(fr, |t: int| fa(t) + fb(t), glev_l, q);
        lemma_sum_add(fa, fb, glev_l);
        lemma_sum_scale(fv, -1, glev_l);
        lemma_sum_ext(fb, |i: int| -1 * fv(i), glev_l);
        lemma_sum_ext(|t: int| d(g, t) * rp(g, t), fr, glev_l);
        lemma_sum_ext(|t: int| d(g, t) * kk(g, t, kn), fa, glev_l);
        lemma_sum_ext(|t: int| d(g, t) * v(g, t), fv, glev_l);
    }
    lemma_sum_congruent(gr, |g: int| ga(g) + gb(g), k_old, q);
    lemma_sum_add(ga, gb, k_old);
    let gv = |g: int| sum(|t: int| d(g, t) * v(g, t), glev_l);
    lemma_sum_scale(gv, -1, k_old);
    lemma_sum_ext(gb, |i: int| -1 * gv(i), k_old);
    // the sums of ga and gv are T(k) and U
    let ta = |g: int| sum(|t: int| mask_digit(ct, glwe_q, glev_l, glev_b, g, t) * key[key_index(k_new, glev_l, g, t, kn)], glev_l);
    assert forall|g: int| 0 <= g < k_old implies #[trigger] ga(g) == ta(g) by {
        lemma_sum_ext(
            |t: int| d(g, t) * kk(g, t, kn),
            |t: int| mask_digit(ct, glwe_q, glev_l, glev_b, g, t) * key[key_index(k_new, glev_l, g, t, kn)],
            glev_l,
        );
    }
    lemma_sum_ext(ga, ta, k_old);
    lemma_sum_ext(
        ta,
        |g: int| sum(|t: int| mask_digit(ct, glwe_q, glev_l, glev_b, g, t) * key[key_index(k_new, glev_l, g, t, kn)], glev_l),
        k_old,
    );
    assert forall|g: int| 0 <= g < k_old implies #[trigger] gv(g) == sum(
        |t: int| mask_digit(ct, glwe_q, glev_l, glev_b, g, t) * sum(|p: int| key[key_index(k_new, glev_l, g, t, p)] * new_key[p], k_new),
        glev_l,
    ) by {
        lemma_sum_ext(
            |t: int| d(g, t) * v(g, t),
            |t: int| mask_digit(ct, glwe_q, glev_l, glev_b, g, t) * sum(|p: int| key[key_index(k_new, glev_l, g, t, p)] * new_key[p], k_new),
            glev_l,
        );
    }
    lemma_sum_ext(
        gv,
        |g: int|
            sum(
                |t: int|
                    mask_digit(ct, glwe_q, glev_l, glev_b, g, t) * sum(|p: int| key[key_index(k_new, glev_l, g, t, p)] * new_key[p], k_new),
                glev_l,
            ),
        k_old,
    );
    let r = sum(gr, k_old);
    assert(r % q == (tk + -1 * u) % q);
    lemma_sub_mod_noop(b, r, q);
    lemma_sub_mod_noop(b, tk + -1 * u, q);
    assert(b - (tk + -1 * u) == b - tk + u);
    let tr = |g: int|
        sum(
            |t: int| mask_digit(ct, glwe_q, glev_l, glev_b, g, t) * glwe_phase(ksk_row(key, k_new, glev_l, g, t), new_key, k_new, 1)[0],
            glev_l,
        );
    assert forall|g: int| 0 <= g < k_old implies #[trigger] tr(g) == gr(g) by {
        lemma_sum_ext(
            |t: int| mask_digit(ct, glwe_q, glev_l, glev_b, g, t) * glwe_phase(ksk_row(key, k_new, glev_l, g, t), new_key, k_new, 1)[0],
            |t: int| d(g, t) * rp(g, t),
            glev_l,
        );
    }
    lemma_sum_ext(tr, gr, k_old);
    lemma_sum_ext(
        |g: int|
            sum(
                |t: int|
                    mask_digit(ct, glwe_q, glev_l, glev_b, g, t) * glwe_phase(ksk_row(key, k_new, glev_l, g, t), new_key, k_new, 1)[0],
                glev_l,
            ),
        tr,
        k_old,
    );
}

} // verus!
