//! What the external product of a GGSW ciphertext with a GLWE ciphertext
//! decrypts to.
use vstd::prelude::*;
use vstd::arithmetic::div_mod::*;
use vstd::arithmetic::mul::*;
use crate::math::polynomial::ntt_theory::{cyclic_convolution, lemma_cong_mul};
use crate::math::polynomial::polynomial::{decomposition, poly_mul, reduce, zero_poly, Q};
use crate::math::polynomial::product_laws::{mul_associative, mul_commutative, mul_distributes_over_sub_q, mul_zero_absorbing};
use crate::math::summation::lemma_sum_zero;
use crate::tfhe::gadget::{gadget_product, gadget_rows, gadget_term, key_index, lemma_key_index_bound};
use crate::tfhe::ggsw::ggsw::external_product;
use crate::tfhe::glwe::glwe::glwe_mul_poly;
use crate::tfhe::layout::{join, lemma_polys_of_join, poly_at, polys, uniform};
use crate::tfhe::secret_key::secret_key::{
    decrypt_encrypt, ggsw_encryption, ggsw_row, ggsw_row_message, glev_encryption, glev_level, glwe_phase, multisum_partial, noise_row, shift_poly,
};
use crate::math::polynomial::polynomial::{poly_add_q, poly_sub_q};
use crate::tfhe::layout::{lemma_block_index, lemma_join_uniform};
use crate::math::summation::{lemma_sum_add, lemma_sum_congruent, lemma_sum_ext, lemma_sum_scale, lemma_sum_swap, sum};

verus! {

/// Products are linear in their left factor, modulo `Q + 1`: when each
/// coefficient of `a` is congruent to `x0[i] + e * sum_j fs(j)[i]`, each
/// coefficient of `a * s` is congruent to that of
/// `x0 * s + e * sum_j fs(j) * s`.
pub proof fn lemma_mul_linear_left(
    a: Seq<u64>,
    x0: Seq<u64>,
    e: int,
    fs: spec_fn(int) -> Seq<u64>,
    m: nat,
    s: Seq<u64>,
    c: int,
)
    requires
        s.len() > 0,
        a.len() == s.len(),
        x0.len() == s.len(),
        forall|j: int| 0 <= j < m ==> (#[trigger] fs(j)).len() == s.len(),
        forall|i: int| 0 <= i < s.len() ==> (#[trigger] a[i] as int) % (Q + 1) == (x0[i] + e * sum(|j: int| fs(j)[i] as int, m)) % (Q + 1),
        0 <= c < s.len(),
    ensures
        (poly_mul(a, s)[c] as int) % (Q + 1) == (poly_mul(x0, s)[c] + e * sum(|j: int| poly_mul(fs(j), s)[c] as int, m)) % (Q + 1),
{
    let q: int = Q + 1;
    let n = s.len();
    let ni = n as int;
    let sc = |i: int| s[(c - i) % ni] as int;
    // coefficientwise: a[i] * s_c(i) ~ x0[i] * s_c(i) + e * sum_j fs(j)[i] * s_c(i)
    let fa = |i: int| a[i] * sc(i);
    let fx = |i: int| x0[i] * sc(i);
    let g2 = |i: int, j: int| fs(j)[i] * sc(i);
    let fg = |i: int| sum(|j: int| g2(i, j), m);
    let rhs = |i: int| fx(i) + e * fg(i);
    assert forall|i: int| 0 <= i < n implies #[trigger] fa(i) % q == rhs(i) % q by {
        let sj = sum(|j: int| fs(j)[i] as int, m);
        lemma_cong_mul(a[i] as int, sc(i), x0[i] + e * sj, sc(i), q);
        let fj = |j: int| fs(j)[i] as int;
        lemma_sum_scale(fj, sc(i), m);
        assert forall|j: int| 0 <= j < m implies #[trigger] (sc(i) * fj(j)) == g2(i, j) by {
            let x = sc(i);
            let y = fj(j);
            assert(x * y == y * x) by (nonlinear_arith);
        }
        lemma_sum_ext(|j: int| sc(i) * fj(j), |j: int| g2(i, j), m);
        lemma_sum_ext(|j: int| fs(j)[i] as int, fj, m);
        assert(sum(|j: int| g2(i, j), m) == sc(i) * sj);
        assert((x0[i] + e * sj) * sc(i) == x0[i] * sc(i) + e * (sc(i) * sj)) by (nonlinear_arith);
    }
    lemma_sum_congruent(fa, rhs, n, q);
    let efg = |i: int| e * fg(i);
    lemma_sum_add(fx, efg, n);
    lemma_sum_ext(rhs, |i: int| fx(i) + efg(i), n);
    lemma_sum_scale(fg, e, n);
    lemma_sum_ext(efg, |i: int| e * fg(i), n);
    // swap the sums over i and j
    lemma_sum_swap(g2, n, m);
    lemma_sum_ext(fg, |i: int| sum(|k: int| g2(i, k), m), n);
    let col = |j: int| sum(|i: int| g2(i, j), n);
    let pm = |j: int| poly_mul(fs(j), s)[c] as int;
    assert forall|j: int| 0 <= j < m implies #[trigger] col(j) % q == pm(j) % q by {
        lemma_sum_ext(|i: int| g2(i, j), |i: int| fs(j)[i] * s[(c - i) % ni], n);
        lemma_mod_twice(cyclic_convolution(fs(j), s, n, c), q);
    }
    lemma_sum_ext(|k: int| sum(|i: int| g2(i, k), n), col, m);
    lemma_sum_congruent(col, pm, m, q);
    lemma_sum_ext(|j: int| poly_mul(fs(j), s)[c] as int, pm, m);
    // assemble
    lemma_sum_ext(fa, |i: int| a[i] * s[(c - i) % ni], n);
    lemma_sum_ext(fx, |i: int| x0[i] * s[(c - i) % ni], n);
    let ca = cyclic_convolution(a, s, n, c);
    let cx = cyclic_convolution(x0, s, n, c);
    let sg = sum(fg, n);
    let sp = sum(pm, m);
    lemma_mod_twice(ca, q);
    lemma_mod_twice(cx, q);
    assert(ca % q == (cx + e * sg) % q);
    assert(sg % q == sp % q);
    lemma_add_mod_noop(cx, e * sg, q);
    lemma_add_mod_noop(cx, e * sp, q);
    lemma_mul_mod_noop_right(e, sg, q);
    lemma_mul_mod_noop_right(e, sp, q);
    lemma_add_mod_noop(cx % q, e * sp, q);
    lemma_add_mod_noop(cx, e * sp, q);
}

/// The zero polynomial times anything is zero.
proof fn lemma_zero_times(s: Seq<u64>, c: int)
    requires
        0 <= c < s.len(),
    ensures
        poly_mul(zero_poly(s.len()), s)[c] == 0,
{
    let z = zero_poly(s.len());
    let f = |i: int| z[i] * s[(c - i) % (s.len() as int)];
    assert forall|i: int| 0 <= i < s.len() implies #[trigger] f(i) == 0 by {}
    lemma_sum_zero(f, s.len());
    lemma_sum_ext(|i: int| z[i] * s[(c - i) % (s.len() as int)], f, s.len());
}

/// Digit polynomial `t` of polynomial `g` of the GLWE coefficients `glwe`.
pub open spec fn digit_poly(glwe: Seq<u64>, n: nat, glwe_q: nat, glev_l: nat, glev_b: nat, g: int, t: int) -> Seq<u64> {
    decomposition(glwe_q, glev_l, glev_b, poly_at(glwe, g, n))[t]
}

/// Polynomial `p` of GLWE ciphertext `(g, t)` of the GGSW coefficients
/// `ggsw`.
pub open spec fn ggsw_poly(ggsw: Seq<u64>, k: nat, n: nat, glev_l: nat, g: int, t: int, p: int) -> Seq<u64> {
    poly_at(ggsw, key_index(k, glev_l, g, t, p), n)
}

/// GLWE ciphertext `(g, t)` of the GGSW coefficients `ggsw`: its `k + 1`
/// polynomials of order `n`.
pub open spec fn ggsw_row_ct(ggsw: Seq<u64>, k: nat, n: nat, glev_l: nat, g: int, t: int) -> Seq<u64> {
    ggsw.subrange(key_index(k, glev_l, g, t, 0) * n, key_index(k, glev_l, g, t, 0) * n + (k + 1) * n)
}

/// Polynomial `p` of the external product is the reduced double sum of the
/// digit-times-row-polynomial products.
proof fn lemma_product_poly(
    ggsw: Seq<u64>,
    glwe: Seq<u64>,
    k: nat,
    n: nat,
    glwe_q: nat,
    glev_l: nat,
    glev_b: nat,
    p: int,
)
    requires
        n > 0,
        0 <= p <= k,
        (k + 1) * n <= glwe.len(),
    ensures
        external_product(ggsw, glwe, k, n, glwe_q, glev_l, glev_b).len() == (k + 1) * n,
        poly_at(external_product(ggsw, glwe, k, n, glwe_q, glev_l, glev_b), p, n).len() == n,
        forall|i: int| 0 <= i < n ==> #[trigger] poly_at(external_product(ggsw, glwe, k, n, glwe_q, glev_l, glev_b), p, n)[i]
            == reduce(sum(
                |g: int| sum(|t: int| poly_mul(digit_poly(glwe, n, glwe_q, glev_l, glev_b, g, t), ggsw_poly(ggsw, k, n, glev_l, g, t, p))[i] as int, glev_l),
                k + 1,
            )),
{
    let inputs = polys(glwe, k + 1, n);
    let gp = gadget_product(ggsw, inputs, k, n, glwe_q, glev_l, glev_b);
    assert(uniform(gp, n));
    lemma_polys_of_join(gp, n);
    assert(polys(join(gp), gp.len(), n)[p] == gp[p]);
    assert forall|i: int| 0 <= i < n implies #[trigger] poly_at(external_product(ggsw, glwe, k, n, glwe_q, glev_l, glev_b), p, n)[i]
        == reduce(sum(
            |g: int| sum(|t: int| poly_mul(digit_poly(glwe, n, glwe_q, glev_l, glev_b, g, t), ggsw_poly(ggsw, k, n, glev_l, g, t, p))[i] as int, glev_l),
            k + 1,
        )) by {
        let a = |gg: int| sum(|t: int| gadget_term(ggsw, inputs, k, n, glwe_q, glev_l, glev_b, gg, t, p)[i] as int, glev_l);
        let b = |g: int| sum(|t: int| poly_mul(digit_poly(glwe, n, glwe_q, glev_l, glev_b, g, t), ggsw_poly(ggsw, k, n, glev_l, g, t, p))[i] as int, glev_l);
        assert forall|g: int| 0 <= g < k + 1 implies #[trigger] a(g) == b(g) by {
            crate::tfhe::layout::lemma_block_end(g, n as int, (k + 1) as int);
            assert(inputs[g] == poly_at(glwe, g, n));
            lemma_sum_ext(
                |t: int| gadget_term(ggsw, inputs, k, n, glwe_q, glev_l, glev_b, g, t, p)[i] as int,
                |t: int| poly_mul(digit_poly(glwe, n, glwe_q, glev_l, glev_b, g, t), ggsw_poly(ggsw, k, n, glev_l, g, t, p))[i] as int,
                glev_l,
            );
        }
        lemma_sum_ext(a, b, k + 1);
        lemma_sum_ext(
            |gg: int| sum(|t: int| gadget_term(ggsw, inputs, k, n, glwe_q, glev_l, glev_b, gg, t, p)[i] as int, glev_l),
            a,
            k + 1,
        );
        lemma_sum_ext(
            b,
            |g: int| sum(|t: int| poly_mul(digit_poly(glwe, n, glwe_q, glev_l, glev_b, g, t), ggsw_poly(ggsw, k, n, glev_l, g, t, p))[i] as int, glev_l),
            k + 1,
        );
    }
}

/// Sizes of the polynomials that enter the external product.
proof fn lemma_sizes(
    ggsw: Seq<u64>,
    glwe: Seq<u64>,
    key: Seq<u64>,
    k: nat,
    n: nat,
    glwe_q: nat,
    glev_l: nat,
    glev_b: nat,
    g: int,
    t: int,
    p: int,
)
    requires
        n > 0,
        0 <= g <= k,
        0 <= t < glev_l,
        0 <= p <= k,
        (k + 1) * n <= glwe.len(),
        (k + 1) * (glev_l * (k + 1)) * n <= ggsw.len(),
    ensures
        digit_poly(glwe, n, glwe_q, glev_l, glev_b, g, t).len() == n,
        ggsw_poly(ggsw, k, n, glev_l, g, t, p).len() == n,
        p < k && k * n <= key.len() ==> poly_at(key, p, n).len() == n,
{
    crate::tfhe::layout::lemma_block_end(g, n as int, (k + 1) as int);
    lemma_key_index_bound(k, glev_l, n, k + 1, g, t, p);
    if p < k {
        crate::tfhe::layout::lemma_block_end(p, n as int, k as int);
    }
}

/// `d * (x * s)`: digit `(g, t)` times row polynomial `p` times key
/// polynomial `p`, coefficient `c`.
pub open spec fn product_cell(
    ggsw: Seq<u64>,
    glwe: Seq<u64>,
    key: Seq<u64>,
    k: nat,
    n: nat,
    glwe_q: nat,
    glev_l: nat,
    glev_b: nat,
    g: int,
    t: int,
    p: int,
    c: int,
) -> int {
    poly_mul(digit_poly(glwe, n, glwe_q, glev_l, glev_b, g, t), poly_mul(ggsw_poly(ggsw, k, n, glev_l, g, t, p), poly_at(key, p, n)))[c] as int
}

/// Mask polynomial `p` of the external product times key polynomial `p`,
/// coefficient `c`, is congruent to the double sum of the cells.
proof fn lemma_masked_product(
    ggsw: Seq<u64>,
    glwe: Seq<u64>,
    key: Seq<u64>,
    k: nat,
    n: nat,
    glwe_q: nat,
    glev_l: nat,
    glev_b: nat,
    p: int,
    c: int,
)
    requires
        n > 0,
        0 <= p < k,
        0 <= c < n,
        (k + 1) * n <= glwe.len(),
        (k + 1) * (glev_l * (k + 1)) * n <= ggsw.len(),
        k * n <= key.len(),
    ensures
        (poly_mul(poly_at(external_product(ggsw, glwe, k, n, glwe_q, glev_l, glev_b), p, n), poly_at(key, p, n))[c] as int) % (Q + 1)
            == sum(|g: int| sum(|t: int| product_cell(ggsw, glwe, key, k, n, glwe_q, glev_l, glev_b, g, t, p, c), glev_l), k + 1) % (Q + 1),
{
    let q: int = Q + 1;
    let sp = poly_at(key, p, n);
    crate::tfhe::layout::lemma_block_end(p, n as int, k as int);
    assert(sp.len() == n);
    let o = poly_at(external_product(ggsw, glwe, k, n, glwe_q, glev_l, glev_b), p, n);
    lemma_product_poly(ggsw, glwe, k, n, glwe_q, glev_l, glev_b, p);
    let f2 = |g: int, t: int| poly_mul(digit_poly(glwe, n, glwe_q, glev_l, glev_b, g, t), ggsw_poly(ggsw, k, n, glev_l, g, t, p));
    let bg = |g: int| Seq::new(n, |i: int| reduce(sum(|t: int| f2(g, t)[i] as int, glev_l)));
    let z = zero_poly(n);
    // o ~ sum_g bg(g)
    assert forall|i: int| 0 <= i < n implies (#[trigger] o[i] as int) % q == (z[i] + 1 * sum(|g: int| bg(g)[i] as int, k + 1)) % q by {
        let inner = |g: int| sum(|t: int| f2(g, t)[i] as int, glev_l);
        let red = |g: int| bg(g)[i] as int;
        assert forall|g: int| 0 <= g < k + 1 implies #[trigger] red(g) % q == inner(g) % q by {
            lemma_mod_twice(inner(g), q);
        }
        lemma_sum_congruent(red, inner, k + 1, q);
        lemma_sum_ext(|g: int| bg(g)[i] as int, red, k + 1);
        let full = |g: int| sum(|t: int| poly_mul(digit_poly(glwe, n, glwe_q, glev_l, glev_b, g, t), ggsw_poly(ggsw, k, n, glev_l, g, t, p))[i] as int, glev_l);
        assert forall|g: int| 0 <= g < k + 1 implies #[trigger] full(g) == inner(g) by {
            lemma_sum_ext(
                |t: int| poly_mul(digit_poly(glwe, n, glwe_q, glev_l, glev_b, g, t), ggsw_poly(ggsw, k, n, glev_l, g, t, p))[i] as int,
                |t: int| f2(g, t)[i] as int,
                glev_l,
            );
        }
        lemma_sum_ext(full, inner, k + 1);
        lemma_sum_ext(
            |g: int| sum(|t: int| poly_mul(digit_poly(glwe, n, glwe_q, glev_l, glev_b, g, t), ggsw_poly(ggsw, k, n, glev_l, g, t, p))[i] as int, glev_l),
            full,
            k + 1,
        );
        lemma_mod_twice(sum(inner, k + 1), q);
    }
    assert forall|g: int| 0 <= g < k + 1 implies (#[trigger] bg(g)).len() == sp.len() by {}
    lemma_mul_linear_left(o, z, 1, bg, k + 1, sp, c);
    lemma_zero_times(sp, c);
    // each bg(g) * s ~ sum_t cells
    let pb = |g: int| poly_mul(bg(g), sp)[c] as int;
    let cells = |g: int| sum(|t: int| product_cell(ggsw, glwe, key, k, n, glwe_q, glev_l, glev_b, g, t, p, c), glev_l);
    assert forall|g: int| 0 <= g < k + 1 implies #[trigger] pb(g) % q == cells(g) % q by {
        let ft = |t: int| f2(g, t);
        assert forall|t: int| 0 <= t < glev_l implies (#[trigger] ft(t)).len() == sp.len() by {
            lemma_sizes(ggsw, glwe, key, k, n, glwe_q, glev_l, glev_b, g, t, p);
        }
        assert forall|i: int| 0 <= i < n implies (#[trigger] bg(g)[i] as int) % q == (z[i] + 1 * sum(|t: int| ft(t)[i] as int, glev_l)) % q by {
            lemma_mod_twice(sum(|t: int| f2(g, t)[i] as int, glev_l), q);
            lemma_sum_ext(|t: int| f2(g, t)[i] as int, |t: int| ft(t)[i] as int, glev_l);
        }
        lemma_mul_linear_left(bg(g), z, 1, ft, glev_l, sp, c);
        let pt = |t: int| poly_mul(ft(t), sp)[c] as int;
        let ct = |t: int| product_cell(ggsw, glwe, key, k, n, glwe_q, glev_l, glev_b, g, t, p, c);
        assert forall|t: int| 0 <= t < glev_l implies #[trigger] pt(t) == ct(t) by {
            lemma_sizes(ggsw, glwe, key, k, n, glwe_q, glev_l, glev_b, g, t, p);
            mul_associative(digit_poly(glwe, n, glwe_q, glev_l, glev_b, g, t), ggsw_poly(ggsw, k, n, glev_l, g, t, p), sp);
        }
        lemma_sum_ext(|t: int| poly_mul(ft(t), sp)[c] as int, pt, glev_l);
        lemma_sum_ext(pt, ct, glev_l);
        lemma_sum_ext(ct, |t: int| product_cell(ggsw, glwe, key, k, n, glwe_q, glev_l, glev_b, g, t, p, c), glev_l);
    }
    lemma_sum_congruent(pb, cells, k + 1, q);
    lemma_sum_ext(|j: int| poly_mul(bg(j), sp)[c] as int, pb, k + 1);
    lemma_sum_ext(cells, |g: int| sum(|t: int| product_cell(ggsw, glwe, key, k, n, glwe_q, glev_l, glev_b, g, t, p, c), glev_l), k + 1);
}

/// Digit `(g, t)` times what GLWE ciphertext `(g, t)` of the GGSW
/// ciphertext decrypts to, coefficient `c`: the digit times its body
/// polynomial, minus the cells over the mask polynomials `p`.
proof fn lemma_row_product(
    ggsw: Seq<u64>,
    glwe: Seq<u64>,
    key: Seq<u64>,
    k: nat,
    n: nat,
    glwe_q: nat,
    glev_l: nat,
    glev_b: nat,
    g: int,
    t: int,
    c: int,
)
    requires
        n > 0,
        0 <= g <= k,
        0 <= t < glev_l,
        0 <= c < n,
        (k + 1) * n <= glwe.len(),
        (k + 1) * (glev_l * (k + 1)) * n <= ggsw.len(),
        k * n <= key.len(),
    ensures
        (poly_mul(digit_poly(glwe, n, glwe_q, glev_l, glev_b, g, t), glwe_phase(ggsw_row_ct(ggsw, k, n, glev_l, g, t), key, k, n))[c] as int) % (Q + 1)
            == (poly_mul(digit_poly(glwe, n, glwe_q, glev_l, glev_b, g, t), ggsw_poly(ggsw, k, n, glev_l, g, t, k as int))[c]
                + -1 * sum(|p: int| product_cell(ggsw, glwe, key, k, n, glwe_q, glev_l, glev_b, g, t, p, c), k)) % (Q + 1),
{
    let q: int = Q + 1;
    let d = digit_poly(glwe, n, glwe_q, glev_l, glev_b, g, t);
    let row = ggsw_row_ct(ggsw, k, n, glev_l, g, t);
    let base = key_index(k, glev_l, g, t, 0);
    lemma_key_index_bound(k, glev_l, n, k + 1, g, t, k as int);
    lemma_sizes(ggsw, glwe, key, k, n, glwe_q, glev_l, glev_b, g, t, k as int);
    assert(key_index(k, glev_l, g, t, k as int) == base + k);
    assert(base * n + (k + 1) * n == (base + k) * n + n) by (nonlinear_arith);
    assert(row.len() == (k + 1) * n);
    // the polynomials of the row are those of the GGSW ciphertext
    assert forall|p: int| 0 <= p <= k implies #[trigger] poly_at(row, p, n) == ggsw_poly(ggsw, k, n, glev_l, g, t, p) by {
        assert(key_index(k, glev_l, g, t, p) == base + p);
        assert((base + p) * n == base * n + p * n) by (nonlinear_arith);
        crate::tfhe::layout::lemma_block_end(p, n as int, (k + 1) as int);
        assert(poly_at(row, p, n) =~= ggsw_poly(ggsw, k, n, glev_l, g, t, p));
    }
    let r = glwe_phase(row, key, k, n);
    let kk = ggsw_poly(ggsw, k, n, glev_l, g, t, k as int);
    let ms = |p: int| poly_mul(ggsw_poly(ggsw, k, n, glev_l, g, t, p), poly_at(key, p, n));
    assert forall|p: int| 0 <= p < k implies (#[trigger] ms(p)).len() == n by {
        lemma_sizes(ggsw, glwe, key, k, n, glwe_q, glev_l, glev_b, g, t, p);
    }
    // r ~ kk - sum_p ms(p)
    assert forall|j: int| 0 <= j < n implies (#[trigger] r[j] as int) % q == (kk[j] + -1 * sum(|p: int| ms(p)[j] as int, k)) % q by {
        let x = multisum_partial(polys(row, k, n), key, n, k, j);
        lemma_sum_ext(
            |i: int| poly_mul(polys(row, k, n)[i], poly_at(key, i, n))[j] as int,
            |p: int| ms(p)[j] as int,
            k,
        );
        assert(poly_at(row, k as int, n) == kk);
        assert(crate::tfhe::secret_key::secret_key::key_multisum(polys(row, k, n), key, k, n)[j] == reduce(x));
        assert(r[j] == reduce(kk[j] - reduce(x)));
        assert(sum(|p: int| ms(p)[j] as int, k) == x);
        lemma_mod_bound(x, q);
        lemma_mod_twice(x, q);
        assert(reduce(x) as int == x % q);
        lemma_sub_mod_noop(kk[j] as int, x, q);
        lemma_sub_mod_noop(kk[j] as int, x % q, q);
        lemma_mod_bound(kk[j] - x % q, q);
        lemma_mod_twice(kk[j] - x % q, q);
        assert(r[j] as int == (kk[j] - x % q) % q);
        assert(kk[j] + -1 * x == kk[j] - x);
    }
    assert(r.len() == n && kk.len() == n && d.len() == n);
    lemma_mul_linear_left(r, kk, -1, ms, k, d, c);
    mul_commutative(r, d);
    mul_commutative(kk, d);
    let pm = |p: int| poly_mul(ms(p), d)[c] as int;
    let cell = |p: int| product_cell(ggsw, glwe, key, k, n, glwe_q, glev_l, glev_b, g, t, p, c);
    assert forall|p: int| 0 <= p < k implies #[trigger] pm(p) == cell(p) by {
        lemma_sizes(ggsw, glwe, key, k, n, glwe_q, glev_l, glev_b, g, t, p);
        mul_commutative(ms(p), d);
    }
    lemma_sum_ext(|j: int| poly_mul(ms(j), d)[c] as int, pm, k);
    lemma_sum_ext(pm, cell, k);
    lemma_sum_ext(cell, |p: int| product_cell(ggsw, glwe, key, k, n, glwe_q, glev_l, glev_b, g, t, p, c), k);
}

/// The triple sum of the cells, over `p` outermost or innermost.
proof fn lemma_cells_swap(
    ggsw: Seq<u64>,
    glwe: Seq<u64>,
    key: Seq<u64>,
    k: nat,
    n: nat,
    glwe_q: nat,
    glev_l: nat,
    glev_b: nat,
    c: int,
)
    ensures
        sum(|p: int| sum(|g: int| sum(|t: int| product_cell(ggsw, glwe, key, k, n, glwe_q, glev_l, glev_b, g, t, p, c), glev_l), k + 1), k)
            == sum(|g: int| sum(|t: int| sum(|p: int| product_cell(ggsw, glwe, key, k, n, glwe_q, glev_l, glev_b, g, t, p, c), k), glev_l), k + 1),
{
    let cell = |g: int, t: int, p: int| product_cell(ggsw, glwe, key, k, n, glwe_q, glev_l, glev_b, g, t, p, c);
    let pg = |p: int, g: int| sum(|t: int| cell(g, t, p), glev_l);
    let left = |p: int| sum(|g: int| pg(p, g), k + 1);
    let lp = |p: int| sum(|g: int| sum(|t: int| product_cell(ggsw, glwe, key, k, n, glwe_q, glev_l, glev_b, g, t, p, c), glev_l), k + 1);
    assert forall|p: int| 0 <= p < k implies #[trigger] lp(p) == left(p) by {
        let a1 = |g: int| sum(|t: int| product_cell(ggsw, glwe, key, k, n, glwe_q, glev_l, glev_b, g, t, p, c), glev_l);
        let a2 = |g: int| pg(p, g);
        assert forall|g: int| 0 <= g < k + 1 implies #[trigger] a1(g) == a2(g) by {
            lemma_sum_ext(|t: int| product_cell(ggsw, glwe, key, k, n, glwe_q, glev_l, glev_b, g, t, p, c), |t: int| cell(g, t, p), glev_l);
        }
        lemma_sum_ext(a1, a2, k + 1);
        lemma_sum_ext(|g: int| sum(|t: int| product_cell(ggsw, glwe, key, k, n, glwe_q, glev_l, glev_b, g, t, p, c), glev_l), a1, k + 1);
        lemma_sum_ext(a2, |g: int| pg(p, g), k + 1);
    }
    lemma_sum_ext(lp, left, k);
    lemma_sum_ext(
        |p: int| sum(|g: int| sum(|t: int| product_cell(ggsw, glwe, key, k, n, glwe_q, glev_l, glev_b, g, t, p, c), glev_l), k + 1),
        lp,
        k,
    );
    lemma_sum_swap(pg, k, k + 1);
    lemma_sum_ext(left, |i: int| sum(|kk: int| pg(i, kk), k + 1), k);
    let swapped = |g: int| sum(|i: int| pg(i, g), k);
    let right = |g: int| sum(|t: int| sum(|p: int| cell(g, t, p), k), glev_l);
    assert forall|g: int| 0 <= g < k + 1 implies #[trigger] swapped(g) == right(g) by {
        let pt = |p: int, t: int| cell(g, t, p);
        lemma_sum_swap(pt, k, glev_l);
        let pts = |i: int| sum(|kk: int| pt(i, kk), glev_l);
        assert forall|i: int| 0 <= i < k implies #[trigger] pg(i, g) == pts(i) by {
            lemma_sum_ext(|t: int| cell(g, t, i), |kk: int| pt(i, kk), glev_l);
        }
        lemma_sum_ext(|i: int| pg(i, g), pts, k);
        lemma_sum_ext(pts, |i: int| sum(|kk: int| pt(i, kk), glev_l), k);
        let ts1 = |kk: int| sum(|i: int| pt(i, kk), k);
        let ts2 = |t: int| sum(|p: int| cell(g, t, p), k);
        assert forall|kk: int| 0 <= kk < glev_l implies #[trigger] ts1(kk) == ts2(kk) by {
            lemma_sum_ext(|i: int| pt(i, kk), |p: int| cell(g, kk, p), k);
        }
        lemma_sum_ext(|kk: int| sum(|i: int| pt(i, kk), k), ts1, glev_l);
        lemma_sum_ext(ts1, ts2, glev_l);
        lemma_sum_ext(ts2, |t: int| sum(|p: int| cell(g, t, p), k), glev_l);
    }
    lemma_sum_ext(|kk: int| sum(|i: int| pg(i, kk), k), swapped, k + 1);
    lemma_sum_ext(swapped, right, k + 1);
    let target = |g: int| sum(|t: int| sum(|p: int| product_cell(ggsw, glwe, key, k, n, glwe_q, glev_l, glev_b, g, t, p, c), k), glev_l);
    assert forall|g: int| 0 <= g < k + 1 implies #[trigger] right(g) == target(g) by {
        let r1 = |t: int| sum(|p: int| cell(g, t, p), k);
        let r2 = |t: int| sum(|p: int| product_cell(ggsw, glwe, key, k, n, glwe_q, glev_l, glev_b, g, t, p, c), k);
        assert forall|t: int| 0 <= t < glev_l implies #[trigger] r1(t) == r2(t) by {
            lemma_sum_ext(|p: int| cell(g, t, p), |p: int| product_cell(ggsw, glwe, key, k, n, glwe_q, glev_l, glev_b, g, t, p, c), k);
        }
        lemma_sum_ext(|t: int| sum(|p: int| cell(g, t, p), k), r1, glev_l);
        lemma_sum_ext(r1, r2, glev_l);
        lemma_sum_ext(r2, |t: int| sum(|p: int| product_cell(ggsw, glwe, key, k, n, glwe_q, glev_l, glev_b, g, t, p, c), k), glev_l);
    }
    lemma_sum_ext(right, target, k + 1);
    lemma_sum_ext(target, |g: int| sum(|t: int| sum(|p: int| product_cell(ggsw, glwe, key, k, n, glwe_q, glev_l, glev_b, g, t, p, c), k), glev_l), k + 1);
}

/// The external product decrypts to the digit-weighted sum of what the
/// GGSW rows decrypt to: coefficient `c` of the phase of the external product
/// of `ggsw` with `glwe` is the sum, over the polynomials `g` of `glwe` and
/// the digits `t`, of coefficient `c` of digit polynomial `t` of polynomial
/// `g` times the phase of GLWE ciphertext `(g, t)` of `ggsw`, modulo the prime
/// `Q + 1`. When row `(g, t)` encrypts the message times the key polynomial
/// `g` (or the message itself for the body) shifted to digit `t`, with its
/// noise, this is the message times the phase of `glwe`, up to the low bits
/// that the digits leave out and the digits times the noises.
pub proof fn external_product_phase(
    ggsw: Seq<u64>,
    glwe: Seq<u64>,
    key: Seq<u64>,
    k: nat,
    n: nat,
    glwe_q: nat,
    glev_l: nat,
    glev_b: nat,
    c: int,
)
    requires
        n > 0,
        0 <= c < n,
        (k + 1) * n <= glwe.len(),
        (k + 1) * (glev_l * (k + 1)) * n <= ggsw.len(),
        k * n <= key.len(),
    ensures
        glwe_phase(external_product(ggsw, glwe, k, n, glwe_q, glev_l, glev_b), key, k, n)[c] == reduce(
            sum(
                |g: int|
                    sum(
                        |t: int|
                            poly_mul(
                                digit_poly(glwe, n, glwe_q, glev_l, glev_b, g, t),
                                glwe_phase(ggsw_row_ct(ggsw, k, n, glev_l, g, t), key, k, n),
                            )[c] as int,
                        glev_l,
                    ),
                k + 1,
            ),
        ),
{
    let q: int = Q + 1;
    let o = external_product(ggsw, glwe, k, n, glwe_q, glev_l, glev_b);
    let cell = |g: int, t: int, p: int| product_cell(ggsw, glwe, key, k, n, glwe_q, glev_l, glev_b, g, t, p, c);
    let f2k = |g: int, t: int| poly_mul(digit_poly(glwe, n, glwe_q, glev_l, glev_b, g, t), ggsw_poly(ggsw, k, n, glev_l, g, t, k as int))[c] as int;
    // the masks: X ~ sum_p sum_g sum_t cells
    let xp = |p: int| poly_mul(polys(o, k, n)[p], poly_at(key, p, n))[c] as int;
    let cp = |p: int| sum(|g: int| sum(|t: int| cell(g, t, p), glev_l), k + 1);
    lemma_product_poly(ggsw, glwe, k, n, glwe_q, glev_l, glev_b, 0);
    assert forall|p: int| 0 <= p < k implies #[trigger] xp(p) % q == cp(p) % q by {
        lemma_masked_product(ggsw, glwe, key, k, n, glwe_q, glev_l, glev_b, p, c);
        let a1 = |g: int| sum(|t: int| product_cell(ggsw, glwe, key, k, n, glwe_q, glev_l, glev_b, g, t, p, c), glev_l);
        let a2 = |g: int| sum(|t: int| cell(g, t, p), glev_l);
        assert forall|g: int| 0 <= g < k + 1 implies #[trigger] a1(g) == a2(g) by {
            lemma_sum_ext(|t: int| product_cell(ggsw, glwe, key, k, n, glwe_q, glev_l, glev_b, g, t, p, c), |t: int| cell(g, t, p), glev_l);
        }
        lemma_sum_ext(|g: int| sum(|t: int| product_cell(ggsw, glwe, key, k, n, glwe_q, glev_l, glev_b, g, t, p, c), glev_l), a1, k + 1);
        lemma_sum_ext(a1, a2, k + 1);
        lemma_sum_ext(a2, |g: int| sum(|t: int| cell(g, t, p), glev_l), k + 1);
    }
    lemma_sum_congruent(xp, cp, k, q);
    let x = multisum_partial(polys(o, k, n), key, n, k, c);
    lemma_sum_ext(|i: int| poly_mul(polys(o, k, n)[i], poly_at(key, i, n))[c] as int, xp, k);
    lemma_cells_swap(ggsw, glwe, key, k, n, glwe_q, glev_l, glev_b, c);
    let w = sum(|g: int| sum(|t: int| sum(|p: int| product_cell(ggsw, glwe, key, k, n, glwe_q, glev_l, glev_b, g, t, p, c), k), glev_l), k + 1);
    let lp = |p: int| sum(|g: int| sum(|t: int| product_cell(ggsw, glwe, key, k, n, glwe_q, glev_l, glev_b, g, t, p, c), glev_l), k + 1);
    assert forall|p: int| 0 <= p < k implies #[trigger] cp(p) == lp(p) by {
        let a1 = |g: int| sum(|t: int| product_cell(ggsw, glwe, key, k, n, glwe_q, glev_l, glev_b, g, t, p, c), glev_l);
        let a2 = |g: int| sum(|t: int| cell(g, t, p), glev_l);
        assert forall|g: int| 0 <= g < k + 1 implies #[trigger] a1(g) == a2(g) by {
            lemma_sum_ext(|t: int| product_cell(ggsw, glwe, key, k, n, glwe_q, glev_l, glev_b, g, t, p, c), |t: int| cell(g, t, p), glev_l);
        }
        lemma_sum_ext(|g: int| sum(|t: int| product_cell(ggsw, glwe, key, k, n, glwe_q, glev_l, glev_b, g, t, p, c), glev_l), a1, k + 1);
        lemma_sum_ext(a1, a2, k + 1);
        lemma_sum_ext(a2, |g: int| sum(|t: int| cell(g, t, p), glev_l), k + 1);
    }
    lemma_sum_ext(cp, lp, k);
    lemma_sum_ext(lp, |p: int| sum(|g: int| sum(|t: int| product_cell(ggsw, glwe, key, k, n, glwe_q, glev_l, glev_b, g, t, p, c), glev_l), k + 1), k);
    assert(x % q == w % q);
    // the body: O_k ~ A
    lemma_product_poly(ggsw, glwe, k, n, glwe_q, glev_l, glev_b, k as int);
    let a = sum(|g: int| sum(|t: int| f2k(g, t), glev_l), k + 1);
    let ok = poly_at(o, k as int, n)[c];
    let b1 = |g: int| sum(|t: int| poly_mul(digit_poly(glwe, n, glwe_q, glev_l, glev_b, g, t), ggsw_poly(ggsw, k, n, glev_l, g, t, k as int))[c] as int, glev_l);
    let b2 = |g: int| sum(|t: int| f2k(g, t), glev_l);
    assert forall|g: int| 0 <= g < k + 1 implies #[trigger] b1(g) == b2(g) by {
        lemma_sum_ext(|t: int| poly_mul(digit_poly(glwe, n, glwe_q, glev_l, glev_b, g, t), ggsw_poly(ggsw, k, n, glev_l, g, t, k as int))[c] as int, |t: int| f2k(g, t), glev_l);
    }
    assert(ok == reduce(a)) by {
        lemma_sum_ext(
            |g: int| sum(|t: int| poly_mul(digit_poly(glwe, n, glwe_q, glev_l, glev_b, g, t), ggsw_poly(ggsw, k, n, glev_l, g, t, k as int))[c] as int, glev_l),
            b1,
            k + 1,
        );
        lemma_sum_ext(b1, b2, k + 1);
        lemma_sum_ext(b2, |g: int| sum(|t: int| f2k(g, t), glev_l), k + 1);
    }
    // the right side: sum_g sum_t d * phase(row) ~ A - W
    let rt = |g: int, t: int| poly_mul(digit_poly(glwe, n, glwe_q, glev_l, glev_b, g, t), glwe_phase(ggsw_row_ct(ggsw, k, n, glev_l, g, t), key, k, n))[c] as int;
    let rg = |g: int| sum(|t: int| rt(g, t), glev_l);
    let ag = |g: int| sum(|t: int| f2k(g, t), glev_l);
    let wg = |g: int| sum(|t: int| sum(|p: int| cell(g, t, p), k), glev_l);
    let bg = |g: int| -1 * wg(g);
    assert forall|g: int| 0 <= g < k + 1 implies #[trigger] rg(g) % q == (ag(g) + bg(g)) % q by {
        let ft = |t: int| rt(g, t);
        let fa = |t: int| f2k(g, t);
        let fw = |t: int| sum(|p: int| cell(g, t, p), k);
        let fb = |t: int| -1 * fw(t);
        assert forall|t: int| 0 <= t < glev_l implies #[trigger] ft(t) % q == (fa(t) + fb(t)) % q by {
            lemma_row_product(ggsw, glwe, key, k, n, glwe_q, glev_l, glev_b, g, t, c);
            lemma_sum_ext(|p: int| product_cell(ggsw, glwe, key, k, n, glwe_q, glev_l, glev_b, g, t, p, c), |p: int| cell(g, t, p), k);
        }
        lemma_sum_congruent(ft, |t: int| fa(t) + fb(t), glev_l, q);
        lemma_sum_add(fa, fb, glev_l);
        lemma_sum_scale(fw, -1, glev_l);
        lemma_sum_ext(fb, |i: int| -1 * fw(i), glev_l);
        lemma_sum_ext(|t: int| rt(g, t), ft, glev_l);
        lemma_sum_ext(|t: int| f2k(g, t), fa, glev_l);
        lemma_sum_ext(|t: int| sum(|p: int| cell(g, t, p), k), fw, glev_l);
    }
    lemma_sum_congruent(rg, |g: int| ag(g) + bg(g), k + 1, q);
    lemma_sum_add(ag, bg, k + 1);
    lemma_sum_scale(wg, -1, k + 1);
    lemma_sum_ext(bg, |i: int| -1 * wg(i), k + 1);
    let wgt = |g: int| sum(|t: int| sum(|p: int| product_cell(ggsw, glwe, key, k, n, glwe_q, glev_l, glev_b, g, t, p, c), k), glev_l);
    assert forall|g: int| 0 <= g < k + 1 implies #[trigger] wg(g) == wgt(g) by {
        let r1 = |t: int| sum(|p: int| cell(g, t, p), k);
        let r2 = |t: int| sum(|p: int| product_cell(ggsw, glwe, key, k, n, glwe_q, glev_l, glev_b, g, t, p, c), k);
        assert forall|t: int| 0 <= t < glev_l implies #[trigger] r1(t) == r2(t) by {
            lemma_sum_ext(|p: int| cell(g, t, p), |p: int| product_cell(ggsw, glwe, key, k, n, glwe_q, glev_l, glev_b, g, t, p, c), k);
        }
        lemma_sum_ext(|t: int| sum(|p: int| cell(g, t, p), k), r1, glev_l);
        lemma_sum_ext(r1, r2, glev_l);
        lemma_sum_ext(r2, |t: int| sum(|p: int| product_cell(ggsw, glwe, key, k, n, glwe_q, glev_l, glev_b, g, t, p, c), k), glev_l);
    }
    lemma_sum_ext(wg, wgt, k + 1);
    lemma_sum_ext(wgt, |g: int| sum(|t: int| sum(|p: int| product_cell(ggsw, glwe, key, k, n, glwe_q, glev_l, glev_b, g, t, p, c), k), glev_l), k + 1);
    lemma_sum_ext(ag, |g: int| sum(|t: int| f2k(g, t), glev_l), k + 1);
    let rs = sum(rg, k + 1);
    assert(rs % q == (a + -1 * w) % q);
    // both sides
    assert(glwe_phase(o, key, k, n)[c] == reduce(ok - reduce(x)));
    lemma_mod_bound(a, q);
    lemma_mod_twice(a, q);
    lemma_mod_bound(x, q);
    lemma_mod_twice(x, q);
    lemma_sub_mod_noop(a, x, q);
    lemma_sub_mod_noop(a, w, q);
    lemma_sub_mod_noop(ok as int, x, q);
    lemma_sub_mod_noop(ok as int, x % q, q);
    lemma_mod_twice(ok - x % q, q);
    assert(a + -1 * w == a - w);
    let tr = |g: int|
        sum(
            |t: int|
                poly_mul(digit_poly(glwe, n, glwe_q, glev_l, glev_b, g, t), glwe_phase(ggsw_row_ct(ggsw, k, n, glev_l, g, t), key, k, n))[c] as int,
            glev_l,
        );
    assert forall|g: int| 0 <= g < k + 1 implies #[trigger] tr(g) == rg(g) by {
        lemma_sum_ext(
            |t: int|
                poly_mul(digit_poly(glwe, n, glwe_q, glev_l, glev_b, g, t), glwe_phase(ggsw_row_ct(ggsw, k, n, glev_l, g, t), key, k, n))[c] as int,
            |t: int| rt(g, t),
            glev_l,
        );
    }
    lemma_sum_ext(tr, rg, k + 1);
    lemma_sum_ext(
        |g: int|
            sum(
                |t: int|
                    poly_mul(digit_poly(glwe, n, glwe_q, glev_l, glev_b, g, t), glwe_phase(ggsw_row_ct(ggsw, k, n, glev_l, g, t), key, k, n))[c] as int,
                glev_l,
            ),
        tr,
        k + 1,
    );
}

/// The phase depends on the coefficients only modulo `Q + 1`: two
/// ciphertexts whose coefficients are congruent have the same phase.
pub proof fn phase_of_congruent(x: Seq<u64>, y: Seq<u64>, key: Seq<u64>, k: nat, n: nat)
    requires
        n > 0,
        (k + 1) * n <= x.len(),
        (k + 1) * n <= y.len(),
        k * n <= key.len(),
        forall|i: int| 0 <= i < (k + 1) * n ==> (#[trigger] x[i] as int) % (Q + 1) == (y[i] as int) % (Q + 1),
    ensures
        glwe_phase(x, key, k, n) == glwe_phase(y, key, k, n),
{
    let q: int = Q + 1;
    crate::tfhe::layout::lemma_block_end(k as int, n as int, (k + 1) as int);
    assert forall|c: int| 0 <= c < n implies #[trigger] glwe_phase(x, key, k, n)[c] == glwe_phase(y, key, k, n)[c] by {
        let fx = |p: int| poly_mul(polys(x, k, n)[p], poly_at(key, p, n))[c] as int;
        let fy = |p: int| poly_mul(polys(y, k, n)[p], poly_at(key, p, n))[c] as int;
        assert forall|p: int| 0 <= p < k implies #[trigger] fx(p) == fy(p) by {
            crate::tfhe::layout::lemma_block_end(p, n as int, (k + 1) as int);
            crate::tfhe::layout::lemma_block_end(p, n as int, k as int);
            let xp = poly_at(x, p, n);
            let yp = poly_at(y, p, n);
            let sp = poly_at(key, p, n);
            assert forall|i: int| 0 <= i < n implies (#[trigger] xp[i] as int) % q == (yp[i] + 0 * sum(|j: int| yp[i] as int, 0)) % q by {
                crate::tfhe::layout::lemma_block_index(p, i, n as int, (k + 1) as int);
            }
            lemma_mul_linear_left(xp, yp, 0, |j: int| yp, 0, sp, c);
            lemma_small_mod(poly_mul(xp, sp)[c] as nat, q as nat);
            lemma_small_mod(poly_mul(yp, sp)[c] as nat, q as nat);
        }
        lemma_sum_ext(fx, fy, k);
        lemma_sum_ext(|i: int| poly_mul(polys(x, k, n)[i], poly_at(key, i, n))[c] as int, fx, k);
        lemma_sum_ext(|i: int| poly_mul(polys(y, k, n)[i], poly_at(key, i, n))[c] as int, fy, k);
        crate::tfhe::layout::lemma_block_index(k as int, c, n as int, (k + 1) as int);
        let m = reduce(multisum_partial(polys(x, k, n), key, n, k, c)) as int;
        lemma_sub_mod_noop(x[(k * n + c) as int] as int, m, q);
        lemma_sub_mod_noop(y[(k * n + c) as int] as int, m, q);
    }
    assert(glwe_phase(x, key, k, n) =~= glwe_phase(y, key, k, n));
}

/// Multiplying every polynomial of a ciphertext by `m` multiplies what it
/// decrypts to by `m`.
pub proof fn phase_of_rotation(ct: Seq<u64>, m: Seq<u64>, key: Seq<u64>, k: nat, n: nat)
    requires
        n > 0,
        m.len() == n,
        (k + 1) * n <= ct.len(),
        k * n <= key.len(),
    ensures
        glwe_phase(glwe_mul_poly(ct, m, k, n), key, k, n) == poly_mul(glwe_phase(ct, key, k, n), m),
{
    let q: int = Q + 1;
    let ps = Seq::new(k + 1, |i: int| poly_mul(poly_at(ct, i, n), m));
    assert forall|i: int| 0 <= i < k + 1 implies (#[trigger] ps[i]).len() == n by {
        crate::tfhe::layout::lemma_block_end(i, n as int, (k + 1) as int);
    }
    assert(uniform(ps, n));
    lemma_polys_of_join(ps, n);
    let r = join(ps);
    assert forall|i: int| 0 <= i < k + 1 implies #[trigger] poly_at(r, i, n) == ps[i] by {
        assert(polys(r, ps.len(), n)[i] == ps[i]);
    }
    let ph = glwe_phase(ct, key, k, n);
    crate::tfhe::layout::lemma_block_end(k as int, n as int, (k + 1) as int);
    let b = poly_at(ct, k as int, n);
    let ms = |p: int| poly_mul(poly_at(ct, p, n), poly_at(key, p, n));
    assert forall|p: int| 0 <= p < k implies (#[trigger] ms(p)).len() == n by {
        crate::tfhe::layout::lemma_block_end(p, n as int, (k + 1) as int);
    }
    assert forall|c: int| 0 <= c < n implies #[trigger] glwe_phase(r, key, k, n)[c] == poly_mul(ph, m)[c] by {
        // the phase is congruent to b - sum_p ms(p)
        assert forall|j: int| 0 <= j < n implies (#[trigger] ph[j] as int) % q == (b[j] + -1 * sum(|p: int| ms(p)[j] as int, k)) % q by {
            let x = multisum_partial(polys(ct, k, n), key, n, k, j);
            lemma_sum_ext(|i: int| poly_mul(polys(ct, k, n)[i], poly_at(key, i, n))[j] as int, |p: int| ms(p)[j] as int, k);
            lemma_mod_bound(x, q);
            lemma_mod_twice(x, q);
            lemma_sub_mod_noop(b[j] as int, x, q);
            lemma_sub_mod_noop(b[j] as int, x % q, q);
            lemma_mod_bound(b[j] - x % q, q);
            lemma_mod_twice(b[j] - x % q, q);
            assert(b[j] + -1 * x == b[j] - x);
        }
        lemma_mul_linear_left(ph, b, -1, ms, k, m, c);
        // the rotated masks times the key
        let lx = |p: int| poly_mul(polys(r, k, n)[p], poly_at(key, p, n))[c] as int;
        let rx = |p: int| poly_mul(ms(p), m)[c] as int;
        assert forall|p: int| 0 <= p < k implies #[trigger] lx(p) == rx(p) by {
            crate::tfhe::layout::lemma_block_end(p, n as int, (k + 1) as int);
            crate::tfhe::layout::lemma_block_end(p, n as int, k as int);
            let a = poly_at(ct, p, n);
            let sp = poly_at(key, p, n);
            assert(polys(r, k, n)[p] == poly_mul(a, m));
            mul_associative(a, m, sp);
            mul_commutative(m, sp);
            mul_associative(a, sp, m);
        }
        lemma_sum_ext(lx, rx, k);
        lemma_sum_ext(|i: int| poly_mul(polys(r, k, n)[i], poly_at(key, i, n))[c] as int, lx, k);
        lemma_sum_ext(|j: int| poly_mul(ms(j), m)[c] as int, rx, k);
        let x = sum(rx, k);
        let bm = poly_mul(b, m)[c] as int;
        assert(poly_at(r, k as int, n)[c] as int == bm);
        lemma_mod_bound(x, q);
        lemma_mod_twice(x, q);
        lemma_sub_mod_noop(bm, x, q);
        lemma_sub_mod_noop(bm, x % q, q);
        lemma_small_mod(bm as nat, q as nat);
        lemma_small_mod(poly_mul(ph, m)[c] as nat, q as nat);
        lemma_mod_bound(bm - x % q, q);
        lemma_mod_twice(bm - x % q, q);
        assert(bm + -1 * x == bm - x);
    }
    assert(glwe_phase(r, key, k, n) =~= poly_mul(ph, m));
}

/// In a list of `rows` GLev rows of GLWE ciphertexts with `k` masks of order
/// `n`, when row `g` is a GLev encryption of `msg`, its ciphertext at level
/// `t` decrypts to `msg` shifted to digit `t`, plus its noise.
pub proof fn glev_row_phase(
    key: Seq<u64>,
    data: Seq<u64>,
    msg: Seq<u64>,
    noise: Seq<Seq<u64>>,
    rows: nat,
    k: nat,
    n: nat,
    glwe_q: nat,
    glev_l: nat,
    glev_b: nat,
    g: int,
    t: int,
)
    requires
        n > 0,
        0 <= g < rows,
        0 <= t < glev_l,
        msg.len() == n,
        g * glev_l + glev_l <= noise.len(),
        noise[g * glev_l + t].len() == n,
        data.len() == rows * (glev_l * (k + 1)) * n,
        glev_encryption(
            key,
            ggsw_row(polys(data, rows * (glev_l * (k + 1)), n), g, glev_l, k),
            msg,
            noise_row(noise, g, glev_l),
            k,
            n,
            glwe_q,
            glev_l,
            glev_b,
        ),
    ensures
        glwe_phase(ggsw_row_ct(data, k, n, glev_l, g, t), key, k, n) == poly_add_q(
            shift_poly(msg, (glwe_q - glev_b * (t + 1)) as nat),
            noise[g * glev_l + t],
        ),
{
    let w = glev_l * (k + 1);
    let total = rows * w;
    let all = polys(data, total, n);
    let blocks = ggsw_row(all, g, glev_l, k);
    let level = glev_level(blocks, t, k);
    let base = key_index(k, glev_l, g, t, 0);
    lemma_key_index_bound(k, glev_l, n, rows, g, t, k as int);
    assert(key_index(k, glev_l, g, t, k as int) == base + k);
    assert(g * w + w <= total) by (nonlinear_arith)
        requires
            g < rows,
            total == rows * w,
    ;
    assert(t * (k + 1) + (k + 1) <= w) by (nonlinear_arith)
        requires
            t < glev_l,
            w == glev_l * (k + 1),
    ;
    assert(level.len() == k + 1);
    assert forall|p: int| 0 <= p <= k implies #[trigger] level[p] == poly_at(data, base + p, n) by {
        assert(level[p] == all[g * w + t * (k + 1) + p]);
    }
    let shifted = shift_poly(msg, (glwe_q - glev_b * (t + 1)) as nat);
    let nz = noise_row(noise, g, glev_l)[t];
    assert(nz == noise[g * glev_l + t]);
    assert(level == crate::tfhe::secret_key::secret_key::encryption_polys(key, level.take(k as int), shifted, nz, k, n));
    // the masks have order n
    assert forall|p: int| 0 <= p <= k implies (#[trigger] level[p]).len() == n by {
        lemma_key_index_bound(k, glev_l, n, rows, g, t, p);
        assert(key_index(k, glev_l, g, t, p) == base + p);
    }
    assert(uniform(level.take(k as int), n));
    decrypt_encrypt(key, level.take(k as int), shifted, nz, k, n);
    // the joined level is the slice of the coefficients
    assert(uniform(level, n));
    lemma_join_uniform(level, n);
    let row = ggsw_row_ct(data, k, n, glev_l, g, t);
    assert(base * n + (k + 1) * n == (base + k) * n + n) by (nonlinear_arith);
    assert forall|i: int| 0 <= i < (k + 1) * n implies #[trigger] row[i] == join(level)[i] by {
        let p = i / (n as int);
        let j = i % (n as int);
        lemma_fundamental_div_mod(i, n as int);
        lemma_div_pos_is_pos(i, n as int);
        lemma_mod_pos_bound(i, n as int);
        assert(p * (n as int) + j == i && 0 <= p <= k) by (nonlinear_arith)
            requires
                i == (n as int) * p + j,
                0 <= j < n,
                0 <= p,
                i < (k + 1) * n,
        ;
        assert(join(level)[p * (n as int) + j] == level[p][j]);
        assert((base + p) * n == base * n + p * n) by (nonlinear_arith);
        lemma_key_index_bound(k, glev_l, n, rows, g, t, p);
    }
    assert(row =~= join(level));
    assert(level.take(k as int).push(level[k as int]) =~= level);
}

/// In a GGSW encryption, GLWE ciphertext `(g, t)` decrypts to the message
/// of row `g` shifted to digit `t`, plus its noise.
pub proof fn ggsw_row_phase(
    key: Seq<u64>,
    data: Seq<u64>,
    message: Seq<u64>,
    noise: Seq<Seq<u64>>,
    k: nat,
    n: nat,
    glwe_q: nat,
    glev_l: nat,
    glev_b: nat,
    g: int,
    t: int,
)
    requires
        n > 0,
        0 <= g <= k,
        0 <= t < glev_l,
        message.len() == n,
        g * glev_l + glev_l <= noise.len(),
        noise[g * glev_l + t].len() == n,
        ggsw_encryption(key, data, message, noise, k, n, glwe_q, glev_l, glev_b),
    ensures
        glwe_phase(ggsw_row_ct(data, k, n, glev_l, g, t), key, k, n) == poly_add_q(
            shift_poly(ggsw_row_message(key, message, g, k, n), (glwe_q - glev_b * (t + 1)) as nat),
            noise[g * glev_l + t],
        ),
{
    let all = polys(data, (k + 1) * (glev_l * (k + 1)), n);
    assert(glev_encryption(
        key,
        ggsw_row(all, g, glev_l, k),
        ggsw_row_message(key, message, g, k, n),
        noise_row(noise, g, glev_l),
        k,
        n,
        glwe_q,
        glev_l,
        glev_b,
    ));
    glev_row_phase(key, data, ggsw_row_message(key, message, g, k, n), noise, k + 1, k, n, glwe_q, glev_l, glev_b, g, t);
}

/// The external product with a GGSW encryption of `message`: what it
/// decrypts to is, coefficient by coefficient, the sum over the polynomials
/// `g` of `glwe` and the digits `t` of digit polynomial `t` of polynomial `g`
/// times (the message of row `g` — `message` times minus key polynomial `g`
/// for a mask row, `message` for the body row — shifted to digit `t`, plus
/// the noise of that row and digit), modulo the prime `Q + 1`. The digits
/// recompose the top `glev_l * glev_b` bits of each polynomial of `glwe`, so
/// this is `message` times what `glwe` decrypts to, up to the bits the
/// digits leave out and the digits times the noises.
pub proof fn external_product_of_encryption(
    key: Seq<u64>,
    data: Seq<u64>,
    message: Seq<u64>,
    noise: Seq<Seq<u64>>,
    glwe: Seq<u64>,
    k: nat,
    n: nat,
    glwe_q: nat,
    glev_l: nat,
    glev_b: nat,
    c: int,
)
    requires
        n > 0,
        0 <= c < n,
        message.len() == n,
        (k + 1) * glev_l <= noise.len(),
        forall|i: int| 0 <= i < (k + 1) * glev_l ==> (#[trigger] noise[i]).len() == n,
        (k + 1) * n <= glwe.len(),
        k * n <= key.len(),
        ggsw_encryption(key, data, message, noise, k, n, glwe_q, glev_l, glev_b),
    ensures
        glwe_phase(external_product(data, glwe, k, n, glwe_q, glev_l, glev_b), key, k, n)[c] == reduce(
            sum(
                |g: int|
                    sum(
                        |t: int|
                            poly_mul(
                                digit_poly(glwe, n, glwe_q, glev_l, glev_b, g, t),
                                poly_add_q(
                                    shift_poly(ggsw_row_message(key, message, g, k, n), (glwe_q - glev_b * (t + 1)) as nat),
                                    noise[g * glev_l + t],
                                ),
                            )[c] as int,
                        glev_l,
                    ),
                k + 1,
            ),
        ),
{
    external_product_phase(data, glwe, key, k, n, glwe_q, glev_l, glev_b, c);
    let lhs = |g: int|
        sum(
            |t: int|
                poly_mul(digit_poly(glwe, n, glwe_q, glev_l, glev_b, g, t), glwe_phase(ggsw_row_ct(data, k, n, glev_l, g, t), key, k, n))[c] as int,
            glev_l,
        );
    let rhs = |g: int|
        sum(
            |t: int|
                poly_mul(
                    digit_poly(glwe, n, glwe_q, glev_l, glev_b, g, t),
                    poly_add_q(shift_poly(ggsw_row_message(key, message, g, k, n), (glwe_q - glev_b * (t + 1)) as nat), noise[g * glev_l + t]),
                )[c] as int,
            glev_l,
        );
    assert forall|g: int| 0 <= g < k + 1 implies #[trigger] lhs(g) == rhs(g) by {
        assert forall|t: int| 0 <= t < glev_l implies
            #[trigger] glwe_phase(ggsw_row_ct(data, k, n, glev_l, g, t), key, k, n) == poly_add_q(
                shift_poly(ggsw_row_message(key, message, g, k, n), (glwe_q - glev_b * (t + 1)) as nat),
                noise[g * glev_l + t],
            ) by {
            assert(g * glev_l + glev_l <= (k + 1) * glev_l && g * glev_l + t < (k + 1) * glev_l) by (nonlinear_arith)
                requires
                    0 <= g <= k,
                    0 <= t < glev_l,
            ;
            ggsw_row_phase(key, data, message, noise, k, n, glwe_q, glev_l, glev_b, g, t);
        }
        lemma_sum_ext(
            |t: int|
                poly_mul(digit_poly(glwe, n, glwe_q, glev_l, glev_b, g, t), glwe_phase(ggsw_row_ct(data, k, n, glev_l, g, t), key, k, n))[c] as int,
            |t: int|
                poly_mul(
                    digit_poly(glwe, n, glwe_q, glev_l, glev_b, g, t),
                    poly_add_q(shift_poly(ggsw_row_message(key, message, g, k, n), (glwe_q - glev_b * (t + 1)) as nat), noise[g * glev_l + t]),
                )[c] as int,
            glev_l,
        );
    }
    lemma_sum_ext(lhs, rhs, k + 1);
    lemma_sum_ext(
        |g: int|
            sum(
                |t: int|
                    poly_mul(digit_poly(glwe, n, glwe_q, glev_l, glev_b, g, t), glwe_phase(ggsw_row_ct(data, k, n, glev_l, g, t), key, k, n))[c] as int,
                glev_l,
            ),
        lhs,
        k + 1,
    );
    lemma_sum_ext(
        rhs,
        |g: int|
            sum(
                |t: int|
                    poly_mul(
                        digit_poly(glwe, n, glwe_q, glev_l, glev_b, g, t),
                        poly_add_q(shift_poly(ggsw_row_message(key, message, g, k, n), (glwe_q - glev_b * (t + 1)) as nat), noise[g * glev_l + t]),
                    )[c] as int,
                glev_l,
            ),
        k + 1,
    );
}

/// Multiplying by a negated polynomial negates the product, modulo `Q + 1`.
proof fn lemma_mul_by_negated(m: Seq<u64>, p: Seq<u64>)
    requires
        m.len() == p.len(),
        m.len() > 0,
    ensures
        poly_mul(m, poly_sub_q(zero_poly(m.len()), p)) == poly_sub_q(zero_poly(m.len()), poly_mul(m, p)),
{
    let n = m.len();
    let z = zero_poly(n);
    let neg = poly_sub_q(z, p);
    mul_commutative(m, neg);
    mul_distributes_over_sub_q(z, p, m);
    mul_commutative(z, m);
    mul_zero_absorbing(m);
    mul_commutative(p, m);
    assert forall|l: int| 0 <= l < n implies #[trigger] poly_mul(m, neg)[l] == poly_sub_q(z, poly_mul(m, p))[l] by {
        assert(poly_mul(neg, m)[l] == (poly_mul(z, m)[l] - poly_mul(p, m)[l]) % (Q + 1));
        assert(poly_mul(z, m)[l] == 0);
    }
    assert(poly_mul(m, neg) =~= poly_sub_q(z, poly_mul(m, p)));
}

/// What each GLWE ciphertext of a GGSW encryption of `message` decrypts to:
/// ciphertext `(g, t)` of a mask row `g < k` decrypts to minus `message`
/// times key polynomial `g` (modulo `X^n - 1` and `Q + 1`), shifted to digit
/// `t`, plus its noise; those of the body row decrypt to `message` shifted to
/// digit `t`, plus their noise.
pub proof fn ggsw_rows_decrypt_to_signed_messages(
    key: Seq<u64>,
    data: Seq<u64>,
    message: Seq<u64>,
    noise: Seq<Seq<u64>>,
    k: nat,
    n: nat,
    glwe_q: nat,
    glev_l: nat,
    glev_b: nat,
    g: int,
    t: int,
)
    requires
        n > 0,
        0 <= g <= k,
        0 <= t < glev_l,
        k * n <= key.len(),
        message.len() == n,
        g * glev_l + glev_l <= noise.len(),
        noise[g * glev_l + t].len() == n,
        ggsw_encryption(key, data, message, noise, k, n, glwe_q, glev_l, glev_b),
    ensures
        g < k ==> glwe_phase(ggsw_row_ct(data, k, n, glev_l, g, t), key, k, n) == poly_add_q(
            shift_poly(poly_sub_q(zero_poly(n), poly_mul(message, poly_at(key, g, n))), (glwe_q - glev_b * (t + 1)) as nat),
            noise[g * glev_l + t],
        ),
        g == k ==> glwe_phase(ggsw_row_ct(data, k, n, glev_l, g, t), key, k, n) == poly_add_q(
            shift_poly(message, (glwe_q - glev_b * (t + 1)) as nat),
            noise[g * glev_l + t],
        ),
{
    ggsw_row_phase(key, data, message, noise, k, n, glwe_q, glev_l, glev_b, g, t);
    if g < k {
        assert((g + 1) * n <= k * n) by (nonlinear_arith)
            requires
                g + 1 <= k,
                n > 0,
        ;
        assert(g * n + n == (g + 1) * n) by (nonlinear_arith);
        assert(0 <= g * n) by (nonlinear_arith)
            requires
                0 <= g,
        ;
        assert(poly_at(key, g, n).len() == n);
        lemma_mul_by_negated(message, poly_at(key, g, n));
    }
}

} // verus!
