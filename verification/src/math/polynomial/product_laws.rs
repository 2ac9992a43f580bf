//! Algebraic laws of polynomial sums and products.
use vstd::prelude::*;
use vstd::arithmetic::div_mod::*;
use vstd::arithmetic::mul::*;
use crate::math::polynomial::ntt_theory::cyclic_convolution;
use crate::math::polynomial::polynomial::{
    monomial, negacyclic_convolution, plain_product_sum, poly_add, poly_add_q, poly_mul, poly_mul_naive, poly_mul_nwc, poly_sub,
    poly_sub_q,
    schoolbook_sum, schoolbook_term, wrap, zero_poly, Q,
};
use crate::math::summation::{
    lemma_sum_add, lemma_sum_concat, lemma_sum_congruent, lemma_sum_ext, lemma_sum_reverse,
    lemma_sum_rotate, lemma_sum_scale, lemma_sum_single, lemma_sum_swap, lemma_sum_upper, lemma_sum_zero, sum,
};
use crate::math::polynomial::ntt_theory::lemma_cong_mul;

verus! {

/// Polynomial addition is commutative.
pub proof fn add_commutative(a: Seq<u64>, b: Seq<u64>)
    requires
        a.len() == b.len(),
    ensures
        poly_add(a, b) == poly_add(b, a),
{
    assert(poly_add(a, b) =~= poly_add(b, a));
}

/// Subtracting what was added gives the polynomial back.
pub proof fn sub_undoes_add(a: Seq<u64>, b: Seq<u64>)
    requires
        a.len() == b.len(),
    ensures
        poly_sub(poly_add(a, b), b) == a,
{
    let s = poly_add(a, b);
    assert forall|i: int| 0 <= i < a.len() implies #[trigger] poly_sub(s, b)[i] == a[i] by {
        let w: int = 0x1_0000_0000_0000_0000;
        lemma_mod_bound(a[i] + b[i], w);
        let x = (a[i] + b[i]) % w;
        lemma_fundamental_div_mod(a[i] + b[i], w);
        let d = (a[i] + b[i]) / w;
        assert(x - b[i] == a[i] + w * (-d));
        lemma_mod_multiples_vanish(-d, a[i] as int, w);
        lemma_small_mod(a[i] as nat, w as nat);
    }
    assert(poly_sub(s, b) =~= a);
}

/// `(l - ((l - i) mod n)) mod n == i` for indices in `[0, n)`.
proof fn lemma_index_reflect(l: int, i: int, n: int)
    requires
        0 <= i < n,
        0 <= l < n,
    ensures
        0 <= (l - i) % n < n,
        (l - (l - i) % n) % n == i,
{
    lemma_mod_bound(l - i, n);
    if l >= i {
        lemma_small_mod((l - i) as nat, n as nat);
        lemma_small_mod(i as nat, n as nat);
    } else {
        lemma_mod_add_multiples_vanish(l - i, n);
        lemma_small_mod((l - i + n) as nat, n as nat);
        lemma_mod_add_multiples_vanish(i - n, n);
        lemma_small_mod(i as nat, n as nat);
    }
}

/// Polynomial multiplication is commutative.
pub proof fn mul_commutative(a: Seq<u64>, b: Seq<u64>)
    requires
        a.len() == b.len(),
        a.len() > 0,
    ensures
        poly_mul(a, b) == poly_mul(b, a),
{
    let n = a.len();
    assert forall|l: int| 0 <= l < n implies #[trigger] cyclic_convolution(a, b, n, l) == cyclic_convolution(b, a, n, l) by {
        lemma_convolution_symmetric(a, b, n, l);
    }
    assert(poly_mul(a, b) =~= poly_mul(b, a));
}

pub(crate) proof fn lemma_convolution_symmetric(a: Seq<u64>, b: Seq<u64>, n: nat, l: int)
    requires
        n > 0,
        0 <= l < n,
    ensures
        cyclic_convolution(a, b, n, l) == cyclic_convolution(b, a, n, l),
{
    let ni = n as int;
    let f = |i: int| a[i] * b[(l - i) % ni];
    let g = |i: int| b[i] * a[(l - i) % ni];
    // g(i) is f at the reflected index (l - i) mod n
    let t = (l + 1) % ni;
    lemma_mod_bound(l + 1, ni);
    let h = |j: int| f((j + t) % ni);
    // g(i) == h(n - 1 - i)
    assert forall|i: int| 0 <= i < n implies #[trigger] g(i) == h(n - 1 - i) by {
        lemma_index_reflect(l, i, ni);
        let r = (l - i) % ni;
        assert(f(r) == a[r] * b[(l - r) % ni]);
        lemma_mul_is_commutative(a[r] as int, b[i] as int);
        // (n - 1 - i + t) mod n == (l - i) mod n
        lemma_add_mod_noop(n - 1 - i, l + 1, ni);
        lemma_mod_add_multiples_vanish(l - i, ni);
        lemma_add_mod_noop(n - 1 - i, t, ni);
        lemma_mod_twice(l + 1, ni);
        lemma_mod_twice(n - 1 - i, ni);
        assert((n - 1 - i) + (l + 1) == (l - i) + ni);
    }
    lemma_sum_ext(g, |i: int| h(n - 1 - i), n);
    lemma_sum_reverse(h, n);
    lemma_sum_rotate(f, n, t);
}

/// The zero polynomial absorbs products.
pub proof fn mul_zero_absorbing(a: Seq<u64>)
    requires
        a.len() > 0,
    ensures
        poly_mul(a, zero_poly(a.len())) == zero_poly(a.len()),
{
    let n = a.len();
    let z = zero_poly(n);
    assert forall|l: int| 0 <= l < n implies #[trigger] cyclic_convolution(a, z, n, l) == 0 by {
        let f = |i: int| a[i] * z[(l - i) % (n as int)];
        assert forall|i: int| 0 <= i < n implies #[trigger] f(i) == 0 by {
            lemma_mod_bound(l - i, n as int);
        }
        lemma_sum_zero(f, n);
    }
    assert(poly_mul(a, z) =~= z);
}

/// The unit monomial `1` is neutral for products, up to the reduction of the
/// coefficients modulo `Q + 1`.
pub proof fn mul_unit_neutral(a: Seq<u64>)
    requires
        a.len() > 0,
    ensures
        forall|l: int| 0 <= l < a.len() ==> #[trigger] poly_mul(a, monomial(a.len(), 1, 0))[l] == (a[l] as int) % (Q + 1),
{
    let n = a.len();
    let ni = n as int;
    let e = monomial(n, 1, 0);
    assert forall|l: int| 0 <= l < n implies #[trigger] poly_mul(a, e)[l] == (a[l] as int) % (Q + 1) by {
        let f = |i: int| a[i] * e[(l - i) % ni];
        assert forall|i: int| 0 <= i < n && i != l implies #[trigger] f(i) == 0 by {
            lemma_index_reflect(l, i, ni);
            lemma_small_mod(0, n);
            if (l - i) % ni == 0 {
                assert((l - 0) % ni == i);
                lemma_small_mod(l as nat, n);
            }
        }
        lemma_small_mod(0, n);
        assert(f(l) == a[l]);
        lemma_sum_single(f, n, l);
    }
}

/// The schoolbook product agrees with the transform-based product whenever
/// no position of the schoolbook accumulator wraps around `2^64`.
pub proof fn naive_matches_transform(a: Seq<u64>, b: Seq<u64>)
    requires
        a.len() == b.len(),
        a.len() > 0,
        forall|s: int| 0 <= s < 2 * a.len() ==> #[trigger] schoolbook_sum(a, b, a.len(), s) < 0x1_0000_0000_0000_0000,
    ensures
        poly_mul_naive(a, b) == poly_mul(a, b),
{
    let n = a.len();
    let ni = n as int;
    let q = Q + 1;
    assert forall|l: int| 0 <= l < n implies #[trigger] poly_mul_naive(a, b)[l] == poly_mul(a, b)[l] by {
        let lo = |i: int| schoolbook_term(a, b, n, i, l);
        let hi = |i: int| schoolbook_term(a, b, n, i, l + ni);
        lemma_schoolbook_nonneg(a, b, n, l);
        lemma_schoolbook_nonneg(a, b, n, l + ni);
        lemma_small_mod(schoolbook_sum(a, b, n, l) as nat, 0x1_0000_0000_0000_0000);
        lemma_small_mod(schoolbook_sum(a, b, n, l + ni) as nat, 0x1_0000_0000_0000_0000);
        lemma_sum_add(lo, hi, n);
        let both = |i: int| lo(i) + hi(i);
        let conv = |i: int| a[i] * b[(l - i) % ni];
        assert forall|i: int| 0 <= i < n implies #[trigger] both(i) % q == conv(i) % q by {
            lemma_mod_twice(a[i] * b[(l - i) % ni], q);
            if i <= l {
                lemma_small_mod((l - i) as nat, n);
            } else {
                lemma_mod_add_multiples_vanish(l - i, ni);
                lemma_small_mod((l - i + ni) as nat, n);
            }
        }
        lemma_sum_congruent(both, conv, n, q);
        lemma_sum_ext(|i: int| lo(i) + hi(i), both, n);
    }
    assert(poly_mul_naive(a, b) =~= poly_mul(a, b));
}

/// With coefficients below `2^16` and at most `2^32` of them, the schoolbook
/// product and the transform-based product are equal.
pub proof fn naive_matches_transform_for_small_coefficients(a: Seq<u64>, b: Seq<u64>)
    requires
        a.len() == b.len(),
        0 < a.len() <= 0x1_0000_0000,
        forall|i: int| 0 <= i < a.len() ==> #[trigger] a[i] < 0x1_0000,
        forall|i: int| 0 <= i < b.len() ==> #[trigger] b[i] < 0x1_0000,
    ensures
        poly_mul_naive(a, b) == poly_mul(a, b),
{
    let n = a.len();
    assert forall|s: int| 0 <= s < 2 * n implies #[trigger] schoolbook_sum(a, b, n, s) < 0x1_0000_0000_0000_0000 by {
        let f = |i: int| schoolbook_term(a, b, n, i, s);
        assert forall|i: int| 0 <= i < n implies #[trigger] f(i) <= 0xffff_ffff by {
            if 0 <= s - i < n {
                let x = a[i];
                let y = b[s - i];
                assert(x * y <= 0xffff_ffff) by (nonlinear_arith)
                    requires
                        0 <= x < 0x1_0000,
                        0 <= y < 0x1_0000,
                ;
                assert(x * y >= 0) by (nonlinear_arith)
                    requires
                        0 <= x,
                        0 <= y,
                ;
                lemma_small_mod((x * y) as nat, (Q + 1) as nat);
            }
        }
        lemma_sum_upper(f, n, 0xffff_ffff);
        assert(n * 0xffff_ffff < 0x1_0000_0000_0000_0000) by (nonlinear_arith)
            requires
                n <= 0x1_0000_0000,
        ;
    }
    naive_matches_transform(a, b);
}

proof fn lemma_schoolbook_nonneg(a: Seq<u64>, b: Seq<u64>, n: nat, s: int)
    ensures
        schoolbook_sum(a, b, n, s) >= 0,
{
    let f = |i: int| schoolbook_term(a, b, n, i, s);
    assert forall|i: int| 0 <= i < n implies #[trigger] f(i) >= 0 by {
        if 0 <= s - i < n {
            lemma_mod_bound(a[i] * b[s - i], Q + 1);
        }
    }
    crate::math::summation::lemma_sum_nonneg(f, n);
}

/// The zero polynomial absorbs negacyclic products.
pub proof fn nwc_zero_absorbing(a: Seq<u64>)
    ensures
        poly_mul_nwc(a, zero_poly(a.len())) == zero_poly(a.len()),
{
    let n = a.len();
    let z = zero_poly(n);
    assert forall|l: int| 0 <= l < n implies #[trigger] poly_mul_nwc(a, z)[l] == 0 by {
        let f = |i: int| if i <= l { a[i] * z[l - i] } else { -(a[i] * z[l + n - i]) };
        assert forall|i: int| 0 <= i < n implies #[trigger] f(i) == 0 by {}
        lemma_sum_zero(f, n);
        lemma_small_mod(0, 0x1_0000_0000_0000_0000);
    }
    assert(poly_mul_nwc(a, z) =~= z);
}

/// The unit monomial `1` is neutral for negacyclic products.
pub proof fn nwc_unit_neutral(a: Seq<u64>)
    requires
        a.len() > 0,
    ensures
        poly_mul_nwc(a, monomial(a.len(), 1, 0)) == a,
{
    let n = a.len();
    let e = monomial(n, 1, 0);
    lemma_small_mod(0, n);
    assert forall|l: int| 0 <= l < n implies #[trigger] poly_mul_nwc(a, e)[l] == a[l] by {
        let f = |i: int| if i <= l { a[i] * e[l - i] } else { -(a[i] * e[l + n - i]) };
        assert forall|i: int| 0 <= i < n && i != l implies #[trigger] f(i) == 0 by {}
        assert(f(l) == a[l]);
        lemma_sum_single(f, n, l);
        lemma_small_mod(a[l] as nat, 0x1_0000_0000_0000_0000);
    }
    assert(poly_mul_nwc(a, e) =~= a);
}

/// Negacyclic multiplication distributes over wrapping addition:
/// `(a + b) * c == a * c + b * c`, every sum wrapping at `2^64`.
pub proof fn nwc_distributes_over_add(a: Seq<u64>, b: Seq<u64>, c: Seq<u64>)
    requires
        a.len() == b.len(),
        b.len() == c.len(),
    ensures
        poly_mul_nwc(poly_add(a, b), c) == poly_add(poly_mul_nwc(a, c), poly_mul_nwc(b, c)),
{
    let n = a.len();
    let w: int = 0x1_0000_0000_0000_0000;
    let s = poly_add(a, b);
    assert forall|l: int| 0 <= l < n implies #[trigger] poly_mul_nwc(s, c)[l] == poly_add(poly_mul_nwc(a, c), poly_mul_nwc(b, c))[l] by {
        let fa = |i: int| if i <= l { a[i] * c[l - i] } else { -(a[i] * c[l + n - i]) };
        let fb = |i: int| if i <= l { b[i] * c[l - i] } else { -(b[i] * c[l + n - i]) };
        let fs = |i: int| if i <= l { s[i] * c[l - i] } else { -(s[i] * c[l + n - i]) };
        let g = |i: int| fa(i) + fb(i);
        assert forall|i: int| 0 <= i < n implies #[trigger] fs(i) % w == g(i) % w by {
            let ci = if i <= l { c[l - i] as int } else { c[l + n - i] as int };
            lemma_mod_twice(a[i] + b[i], w);
            lemma_cong_mul(s[i] as int, ci, a[i] + b[i], ci, w);
            lemma_mul_is_distributive_add_other_way(ci, a[i] as int, b[i] as int);
            if i > l {
                lemma_cong_mul(-1, s[i] * ci, -1, (a[i] + b[i]) * ci, w);
                assert(-(s[i] * ci) == -1 * (s[i] * ci));
                assert(-((a[i] + b[i]) * ci) == -1 * ((a[i] + b[i]) * ci));
            }
        }
        lemma_sum_congruent(fs, g, n, w);
        lemma_sum_add(fa, fb, n);
        let x = sum(fa, n);
        let y = sum(fb, n);
        lemma_add_mod_noop(x, y, w);
        lemma_mod_bound(x, w);
        lemma_mod_bound(y, w);
        lemma_sum_ext(|i: int| if i <= l { s[i] * c[l - i] } else { -(s[i] * c[l + n - i]) }, fs, n);
        lemma_sum_ext(|i: int| if i <= l { a[i] * c[l - i] } else { -(a[i] * c[l + n - i]) }, fa, n);
        lemma_sum_ext(|i: int| if i <= l { b[i] * c[l - i] } else { -(b[i] * c[l + n - i]) }, fb, n);
    }
    assert(poly_mul_nwc(s, c) =~= poly_add(poly_mul_nwc(a, c), poly_mul_nwc(b, c)));
}

/// Where each difference of the plain schoolbook product fits a machine
/// word, the wrapping negacyclic product is that difference: position `l` of
/// the plain product minus position `l + n`.
pub proof fn nwc_matches_naive(a: Seq<u64>, b: Seq<u64>)
    requires
        a.len() == b.len(),
        forall|l: int| 0 <= l < a.len() ==> 0 <= #[trigger] plain_product_sum(a, b, a.len(), l) - plain_product_sum(a, b, a.len(), l + a.len()) <= u64::MAX,
    ensures
        forall|l: int| 0 <= l < a.len() ==> #[trigger] poly_mul_nwc(a, b)[l] == plain_product_sum(a, b, a.len(), l) - plain_product_sum(a, b, a.len(), l + a.len()),
{
    let n = a.len();
    assert forall|l: int| 0 <= l < n implies #[trigger] poly_mul_nwc(a, b)[l] == plain_product_sum(a, b, n, l) - plain_product_sum(a, b, n, l + n) by {
        let f = |i: int| if i <= l { a[i] * b[l - i] } else { -(a[i] * b[l + n - i]) };
        let p = |i: int| if 0 <= l - i < n { a[i] * b[l - i] } else { 0 };
        let q = |i: int| if 0 <= l + n - i < n { a[i] * b[l + n - i] } else { 0 };
        let mq = |i: int| -1 * q(i);
        assert forall|i: int| 0 <= i < n implies #[trigger] f(i) == p(i) + mq(i) by {}
        lemma_sum_ext(f, |i: int| p(i) + mq(i), n);
        lemma_sum_add(p, mq, n);
        lemma_sum_scale(q, -1, n);
        lemma_sum_ext(mq, |i: int| -1 * q(i), n);
        assert(sum(f, n) == sum(p, n) - sum(q, n));
        lemma_sum_ext(p, |i: int| if 0 <= l - i < n { a[i] * b[l - i] } else { 0 }, n);
        lemma_sum_ext(q, |i: int| if 0 <= (l + n) - i < n { a[i] * b[(l + n) - i] } else { 0 }, n);
        let d = plain_product_sum(a, b, n, l) - plain_product_sum(a, b, n, l + n);
        assert(0 <= d <= u64::MAX);
        assert(negacyclic_convolution(a, b, n, l) == sum(f, n));
        assert(sum(f, n) == d);
        lemma_small_mod(d as nat, 0x1_0000_0000_0000_0000);
    }
}

/// The negacyclic product is commutative.
pub proof fn nwc_commutative(a: Seq<u64>, b: Seq<u64>)
    requires
        a.len() == b.len(),
    ensures
        poly_mul_nwc(a, b) == poly_mul_nwc(b, a),
{
    let n = a.len();
    assert forall|l: int| 0 <= l < n implies #[trigger] negacyclic_convolution(a, b, n, l) == negacyclic_convolution(b, a, n, l) by {
        lemma_negacyclic_symmetric(a, b, n, l);
    }
    assert(poly_mul_nwc(a, b) =~= poly_mul_nwc(b, a));
}

proof fn lemma_negacyclic_symmetric(a: Seq<u64>, b: Seq<u64>, n: nat, l: int)
    requires
        0 <= l < n,
    ensures
        negacyclic_convolution(a, b, n, l) == negacyclic_convolution(b, a, n, l),
{
    let f = |i: int| if i <= l { a[i] * b[l - i] } else { -(a[i] * b[l + n - i]) };
    let g = |i: int| if i <= l { b[i] * a[l - i] } else { -(b[i] * a[l + n - i]) };
    let head = (l + 1) as nat;
    let tail = (n - l - 1) as nat;
    assert(head + tail == n);
    // split both sums at l + 1 and read each part backwards
    lemma_sum_concat(f, head, tail);
    lemma_sum_concat(g, head, tail);
    let fh = |i: int| a[i] * b[l - i];
    let gh = |i: int| b[i] * a[l - i];
    lemma_sum_ext(f, fh, head);
    lemma_sum_ext(g, gh, head);
    lemma_sum_reverse(fh, head);
    assert forall|i: int| 0 <= i < head implies #[trigger] gh(i) == fh(head - 1 - i) by {
        lemma_mul_is_commutative(b[i] as int, a[l - i] as int);
    }
    lemma_sum_ext(gh, |i: int| fh(head - 1 - i), head);
    let ft = |i: int| f(head + i);
    let gt = |i: int| g(head + i);
    lemma_sum_reverse(ft, tail);
    assert forall|i: int| 0 <= i < tail implies #[trigger] gt(i) == ft(tail - 1 - i) by {
        lemma_mul_is_commutative(b[head + i] as int, a[l + n - (head + i)] as int);
    }
    lemma_sum_ext(gt, |i: int| ft(tail - 1 - i), tail);
}

/// `b[0..n]` extended to `[-2n, 2n)` so that moving the index up by `n`
/// negates the value: the coefficients of `b` read modulo `X^n + 1`.
spec fn nega_ext(b: Seq<u64>, n: nat, j: int) -> int {
    if j < -(n as int) {
        b[j + 2 * n] as int
    } else if j < 0 {
        -(b[j + n] as int)
    } else if j < n {
        b[j] as int
    } else {
        -(b[j - n] as int)
    }
}

/// `sum_{k < n} b[k] * nega_ext(c, n, t - k)`: the negacyclic product of `b`
/// and `c` at `t`, for `t` in `(-n, n)`.
spec fn nega_conv_ext(b: Seq<u64>, c: Seq<u64>, n: nat, t: int) -> int {
    sum(|k: int| b[k] * nega_ext(c, n, t - k), n)
}

/// Position `l` of the negacyclic product, read through `nega_ext`.
proof fn lemma_negacyclic_as_ext(a: Seq<u64>, b: Seq<u64>, n: nat, l: int)
    requires
        0 <= l < n,
    ensures
        negacyclic_convolution(a, b, n, l) == sum(|i: int| a[i] * nega_ext(b, n, l - i), n),
{
    let f = |i: int| if i <= l { a[i] * b[l - i] } else { -(a[i] * b[l + n - i]) };
    let g = |i: int| a[i] * nega_ext(b, n, l - i);
    assert forall|i: int| 0 <= i < n implies #[trigger] f(i) == g(i) by {
        if i > l {
            assert(l - i + n == l + n - i);
            lemma_mul_unary_negation(a[i] as int, b[l + n - i] as int);
        }
    }
    lemma_sum_ext(f, g, n);
}

/// `nega_conv_ext` is the negacyclic product on `[0, n)` and its negation
/// moved up by `n` on `(-n, 0)`.
proof fn lemma_nega_conv_ext(b: Seq<u64>, c: Seq<u64>, n: nat, t: int)
    requires
        -(n as int) < t < n,
    ensures
        0 <= t ==> nega_conv_ext(b, c, n, t) == negacyclic_convolution(b, c, n, t),
        t < 0 ==> nega_conv_ext(b, c, n, t) == -negacyclic_convolution(b, c, n, t + n),
{
    let f = |k: int| b[k] * nega_ext(c, n, t - k);
    if t >= 0 {
        lemma_negacyclic_as_ext(b, c, n, t);
        lemma_sum_ext(f, |i: int| b[i] * nega_ext(c, n, t - i), n);
    } else {
        lemma_negacyclic_as_ext(b, c, n, t + n);
        let g = |k: int| b[k] * nega_ext(c, n, t + n - k);
        assert forall|k: int| 0 <= k < n implies #[trigger] f(k) == -1 * g(k) by {
            assert(nega_ext(c, n, t - k + n) == -nega_ext(c, n, t - k));
            assert(t - k + n == t + n - k);
            lemma_mul_unary_negation(b[k] as int, nega_ext(c, n, t + n - k));
        }
        lemma_sum_ext(f, |k: int| -1 * g(k), n);
        lemma_sum_scale(g, -1, n);
        lemma_sum_ext(g, |i: int| b[i] * nega_ext(c, n, (t + n) - i), n);
    }
}

/// Rotating the summation index by `i` turns the inner sum of the triple
/// negacyclic product into `nega_conv_ext` at `l - i`.
proof fn lemma_nega_inner_rotation(b: Seq<u64>, c: Seq<u64>, n: nat, i: int, l: int)
    requires
        0 <= i < n,
        0 <= l < n,
    ensures
        sum(|j: int| nega_ext(b, n, j - i) * nega_ext(c, n, l - j), n) == nega_conv_ext(b, c, n, l - i),
{
    let ni = n as int;
    let h = |j: int| nega_ext(b, n, j - i) * nega_ext(c, n, l - j);
    lemma_sum_rotate(h, n, i);
    assert forall|k: int| 0 <= k < n implies #[trigger] h((k + i) % ni) == b[k] * nega_ext(c, n, (l - i) - k) by {
        if k + i < ni {
            lemma_small_mod((k + i) as nat, n);
        } else {
            lemma_small_mod((k + i - ni) as nat, n);
            lemma_mod_add_multiples_vanish(k + i - ni, ni);
            assert(k + i - ni + ni == k + i);
            let y = nega_ext(c, n, l - i - k);
            assert(nega_ext(c, n, l - i - k + ni) == -y);
            assert(l - (k + i - ni) == l - i - k + ni);
            assert(nega_ext(b, n, (k + i - ni) - i) == -(b[k] as int));
            assert((-(b[k] as int)) * (-y) == b[k] * y) by (nonlinear_arith);
        }
    }
    lemma_sum_ext(|k: int| h((k + i) % ni), |k: int| b[k] * nega_ext(c, n, (l - i) - k), n);
}

/// The negacyclic product is associative, coefficients wrapping at `2^64`.
pub proof fn nwc_associative(a: Seq<u64>, b: Seq<u64>, c: Seq<u64>)
    requires
        a.len() == b.len(),
        b.len() == c.len(),
    ensures
        poly_mul_nwc(poly_mul_nwc(a, b), c) == poly_mul_nwc(a, poly_mul_nwc(b, c)),
{
    let n = a.len();
    let w: int = 0x1_0000_0000_0000_0000;
    let x = poly_mul_nwc(a, b);
    let z = poly_mul_nwc(b, c);
    assert forall|l: int| 0 <= l < n implies #[trigger] poly_mul_nwc(x, c)[l] == poly_mul_nwc(a, z)[l] by {
        // the common middle: sum_i a[i] * (b * c)[l - i], read negacyclically
        let mid = |i: int| a[i] * nega_conv_ext(b, c, n, l - i);
        // left side
        lemma_negacyclic_as_ext(x, c, n, l);
        let lt = |j: int| x[j] * nega_ext(c, n, l - j);
        let lu = |j: int| negacyclic_convolution(a, b, n, j) * nega_ext(c, n, l - j);
        assert forall|j: int| 0 <= j < n implies #[trigger] lt(j) % w == lu(j) % w by {
            let v = negacyclic_convolution(a, b, n, j);
            lemma_mod_bound(v, w);
            lemma_mod_twice(v, w);
            lemma_cong_mul(x[j] as int, nega_ext(c, n, l - j), v, nega_ext(c, n, l - j), w);
        }
        lemma_sum_congruent(lt, lu, n, w);
        let g = |j: int, i: int| a[i] * (nega_ext(b, n, j - i) * nega_ext(c, n, l - j));
        assert forall|j: int| 0 <= j < n implies #[trigger] lu(j) == sum(|i: int| g(j, i), n) by {
            lemma_negacyclic_as_ext(a, b, n, j);
            let f = |i: int| a[i] * nega_ext(b, n, j - i);
            let cj = nega_ext(c, n, l - j);
            lemma_sum_scale(f, cj, n);
            assert forall|i: int| 0 <= i < n implies #[trigger] g(j, i) == cj * f(i) by {
                let ai = a[i] as int;
                let bi = nega_ext(b, n, j - i);
                assert(ai * (bi * cj) == cj * (ai * bi)) by (nonlinear_arith);
            }
            lemma_sum_ext(|i: int| g(j, i), |i: int| cj * f(i), n);
            lemma_sum_ext(f, |i: int| a[i] * nega_ext(b, n, j - i), n);
            lemma_mul_is_commutative(sum(f, n), cj);
        }
        lemma_sum_ext(lu, |j: int| sum(|i: int| g(j, i), n), n);
        lemma_sum_swap(g, n, n);
        let col = |i: int| sum(|j: int| g(j, i), n);
        assert forall|i: int| 0 <= i < n implies #[trigger] col(i) == mid(i) by {
            let h = |j: int| nega_ext(b, n, j - i) * nega_ext(c, n, l - j);
            lemma_sum_scale(h, a[i] as int, n);
            lemma_sum_ext(|j: int| g(j, i), |j: int| a[i] * h(j), n);
            lemma_nega_inner_rotation(b, c, n, i, l);
        }
        lemma_sum_ext(col, mid, n);
        // right side
        lemma_negacyclic_as_ext(a, z, n, l);
        let rt = |i: int| a[i] * nega_ext(z, n, l - i);
        assert forall|i: int| 0 <= i < n implies #[trigger] rt(i) % w == mid(i) % w by {
            lemma_nega_conv_ext(b, c, n, l - i);
            if l - i >= 0 {
                let v = negacyclic_convolution(b, c, n, l - i);
                lemma_mod_bound(v, w);
                lemma_mod_twice(v, w);
                lemma_cong_mul(a[i] as int, z[l - i] as int, a[i] as int, v, w);
            } else {
                let v = negacyclic_convolution(b, c, n, l - i + n);
                lemma_mod_bound(v, w);
                lemma_mod_twice(v, w);
                lemma_cong_mul(-1, z[l - i + n] as int, -1, v, w);
                assert(-1 * (z[l - i + n] as int) == -(z[l - i + n] as int));
                assert(-1 * v == -v);
                lemma_cong_mul(a[i] as int, -(z[l - i + n] as int), a[i] as int, -v, w);
            }
        }
        lemma_sum_congruent(rt, mid, n, w);
        lemma_sum_ext(|j: int| x[j] * nega_ext(c, n, l - j), lt, n);
        lemma_sum_ext(|i: int| a[i] * nega_ext(z, n, l - i), rt, n);
    }
    assert(poly_mul_nwc(x, c) =~= poly_mul_nwc(a, z));
}

/// Two integers congruent modulo `n` have the same residue.
proof fn lemma_same_residue(x: int, y: int, n: int)
    requires
        n > 0,
        (x - y) % n == 0,
    ensures
        x % n == y % n,
{
    lemma_fundamental_div_mod(x - y, n);
    lemma_mod_multiples_vanish((x - y) / n, y, n);
    assert(x == n * ((x - y) / n) + y);
}

/// Rotating the summation index by `i` turns the inner sum of the triple
/// product into a coefficient of the product of `b` and `c`.
proof fn lemma_inner_rotation(b: Seq<u64>, c: Seq<u64>, n: nat, i: int, l: int)
    requires
        n > 0,
        0 <= i < n,
        0 <= l < n,
    ensures
        sum(|j: int| b[(j - i) % (n as int)] * c[(l - j) % (n as int)], n) == cyclic_convolution(b, c, n, (l - i) % (n as int)),
{
    let ni = n as int;
    let h = |j: int| b[(j - i) % ni] * c[(l - j) % ni];
    let m = (l - i) % ni;
    lemma_sum_rotate(h, n, i);
    assert forall|k: int| 0 <= k < n implies #[trigger] h((k + i) % ni) == b[k] * c[(m - k) % ni] by {
        let j = (k + i) % ni;
        lemma_mod_bound(k + i, ni);
        lemma_fundamental_div_mod(k + i, ni);
        // (j - i) mod n == k
        assert(((j - i) - k) % ni == 0) by {
            assert((j - i) - k == -(ni * ((k + i) / ni)));
            lemma_mod_multiples_vanish(-((k + i) / ni), 0, ni);
            lemma_small_mod(0, n);
            assert(ni * (-((k + i) / ni)) + 0 == -(ni * ((k + i) / ni))) by (nonlinear_arith);
        }
        lemma_same_residue(j - i, k, ni);
        lemma_small_mod(k as nat, n);
        // (l - j) mod n == (m - k) mod n
        lemma_fundamental_div_mod(l - i, ni);
        assert(((l - j) - (m - k)) % ni == 0) by {
            assert((l - j) - (m - k) == ni * ((l - i) / ni) + ni * ((k + i) / ni));
            assert(ni * ((l - i) / ni) + ni * ((k + i) / ni) == ni * ((l - i) / ni + (k + i) / ni) + 0) by (nonlinear_arith);
            lemma_mod_multiples_vanish((l - i) / ni + (k + i) / ni, 0, ni);
            lemma_small_mod(0, n);
        }
        lemma_same_residue(l - j, m - k, ni);
    }
    lemma_sum_ext(|k: int| h((k + i) % ni), |k: int| b[k] * c[(m - k) % ni], n);
}

/// Polynomial multiplication is associative.
pub proof fn mul_associative(a: Seq<u64>, b: Seq<u64>, c: Seq<u64>)
    requires
        a.len() == b.len(),
        b.len() == c.len(),
        a.len() > 0,
    ensures
        poly_mul(poly_mul(a, b), c) == poly_mul(a, poly_mul(b, c)),
{
    let n = a.len();
    let ni = n as int;
    let q = Q + 1;
    let x = poly_mul(a, b);
    let z = poly_mul(b, c);
    assert forall|l: int| 0 <= l < n implies #[trigger] poly_mul(x, c)[l] == poly_mul(a, z)[l] by {
        // the common middle: sum_i a[i] * (b * c)[(l - i) mod n]
        let mid = |i: int| a[i] * cyclic_convolution(b, c, n, (l - i) % ni);
        // left side
        let lt = |j: int| x[j] * c[(l - j) % ni];
        let lu = |j: int| cyclic_convolution(a, b, n, j) * c[(l - j) % ni];
        assert forall|j: int| 0 <= j < n implies #[trigger] lt(j) % q == lu(j) % q by {
            lemma_mod_bound(cyclic_convolution(a, b, n, j), q);
            lemma_mod_twice(cyclic_convolution(a, b, n, j), q);
            lemma_cong_mul(x[j] as int, c[(l - j) % ni] as int, cyclic_convolution(a, b, n, j), c[(l - j) % ni] as int, q);
        }
        lemma_sum_congruent(lt, lu, n, q);
        let g = |j: int, i: int| a[i] * (b[(j - i) % ni] * c[(l - j) % ni]);
        assert forall|j: int| 0 <= j < n implies #[trigger] lu(j) == sum(|i: int| g(j, i), n) by {
            let f = |i: int| a[i] * b[(j - i) % ni];
            let cj = c[(l - j) % ni] as int;
            lemma_sum_scale(f, cj, n);
            assert forall|i: int| 0 <= i < n implies #[trigger] g(j, i) == cj * f(i) by {
                assert(a[i] * (b[(j - i) % ni] * cj) == cj * (a[i] * b[(j - i) % ni])) by (nonlinear_arith);
            }
            lemma_sum_ext(|i: int| g(j, i), |i: int| cj * f(i), n);
            lemma_mul_is_commutative(sum(f, n), cj);
        }
        lemma_sum_ext(lu, |j: int| sum(|i: int| g(j, i), n), n);
        lemma_sum_swap(g, n, n);
        let col = |i: int| sum(|j: int| g(j, i), n);
        assert forall|i: int| 0 <= i < n implies #[trigger] col(i) == mid(i) by {
            let h = |j: int| b[(j - i) % ni] * c[(l - j) % ni];
            lemma_sum_scale(h, a[i] as int, n);
            lemma_sum_ext(|j: int| g(j, i), |j: int| a[i] * h(j), n);
            lemma_inner_rotation(b, c, n, i, l);
        }
        lemma_sum_ext(col, mid, n);
        // right side
        let rt = |i: int| a[i] * z[(l - i) % ni];
        assert forall|i: int| 0 <= i < n implies #[trigger] rt(i) % q == mid(i) % q by {
            lemma_mod_bound(l - i, ni);
            let m = (l - i) % ni;
            lemma_mod_twice(cyclic_convolution(b, c, n, m), q);
            lemma_cong_mul(a[i] as int, z[m] as int, a[i] as int, cyclic_convolution(b, c, n, m), q);
        }
        lemma_sum_congruent(rt, mid, n, q);
        lemma_sum_ext(|j: int| x[j] * c[(l - j) % ni], lt, n);
        lemma_sum_ext(|i: int| a[i] * z[(l - i) % ni], rt, n);
    }
    assert(poly_mul(x, c) =~= poly_mul(a, z));
}

/// Multiplication distributes over addition up to the final reduction: when
/// no coefficient of `a + b` wraps around `2^64`, each coefficient of
/// `(a + b) * c` is the sum of those of `a * c` and `b * c`, reduced modulo
/// `Q + 1`.
pub proof fn mul_distributes_over_add(a: Seq<u64>, b: Seq<u64>, c: Seq<u64>)
    requires
        a.len() == b.len(),
        b.len() == c.len(),
        forall|i: int| 0 <= i < a.len() ==> #[trigger] a[i] + b[i] < 0x1_0000_0000_0000_0000,
    ensures
        forall|l: int| 0 <= l < a.len() ==> #[trigger] poly_mul(poly_add(a, b), c)[l]
            == (poly_mul(a, c)[l] + poly_mul(b, c)[l]) % (Q + 1),
{
    let n = a.len();
    let ni = n as int;
    let s = poly_add(a, b);
    assert forall|l: int| 0 <= l < n implies #[trigger] poly_mul(s, c)[l] == (poly_mul(a, c)[l] + poly_mul(b, c)[l]) % (Q + 1) by {
        let fa = |i: int| a[i] * c[(l - i) % ni];
        let fb = |i: int| b[i] * c[(l - i) % ni];
        let fs = |i: int| s[i] * c[(l - i) % ni];
        assert forall|i: int| 0 <= i < n implies #[trigger] fs(i) == fa(i) + fb(i) by {
            lemma_small_mod((a[i] + b[i]) as nat, 0x1_0000_0000_0000_0000);
            lemma_mul_is_distributive_add_other_way(c[(l - i) % ni] as int, a[i] as int, b[i] as int);
        }
        lemma_sum_ext(fs, |i: int| fa(i) + fb(i), n);
        lemma_sum_add(fa, fb, n);
        lemma_sum_ext(|i: int| s[i] * c[(l - i) % ni], fs, n);
        lemma_sum_ext(|i: int| a[i] * c[(l - i) % ni], fa, n);
        lemma_sum_ext(|i: int| b[i] * c[(l - i) % ni], fb, n);
        lemma_add_mod_noop(sum(fa, n), sum(fb, n), Q + 1);
    }
}

/// Multiplication distributes over addition modulo `Q + 1`: each coefficient
/// of `(a + b) * c`, the sum taken modulo `Q + 1`, is the sum of those of
/// `a * c` and `b * c`, reduced modulo `Q + 1`.
pub proof fn mul_distributes_over_add_q(a: Seq<u64>, b: Seq<u64>, c: Seq<u64>)
    requires
        a.len() == b.len(),
        b.len() == c.len(),
    ensures
        forall|l: int| 0 <= l < a.len() ==> #[trigger] poly_mul(poly_add_q(a, b), c)[l]
            == (poly_mul(a, c)[l] + poly_mul(b, c)[l]) % (Q + 1),
{
    let n = a.len();
    let ni = n as int;
    let q: int = Q + 1;
    let s = poly_add_q(a, b);
    assert forall|l: int| 0 <= l < n implies #[trigger] poly_mul(s, c)[l] == (poly_mul(a, c)[l] + poly_mul(b, c)[l]) % (Q + 1) by {
        let fa = |i: int| a[i] * c[(l - i) % ni];
        let fb = |i: int| b[i] * c[(l - i) % ni];
        let fs = |i: int| s[i] * c[(l - i) % ni];
        let g = |i: int| fa(i) + fb(i);
        assert forall|i: int| 0 <= i < n implies #[trigger] fs(i) % q == g(i) % q by {
            let ci = c[(l - i) % ni] as int;
            lemma_mod_twice(a[i] + b[i], q);
            lemma_cong_mul(s[i] as int, ci, a[i] + b[i], ci, q);
            lemma_mul_is_distributive_add_other_way(ci, a[i] as int, b[i] as int);
        }
        lemma_sum_congruent(fs, g, n, q);
        lemma_sum_add(fa, fb, n);
        lemma_sum_ext(|i: int| s[i] * c[(l - i) % ni], fs, n);
        lemma_sum_ext(|i: int| a[i] * c[(l - i) % ni], fa, n);
        lemma_sum_ext(|i: int| b[i] * c[(l - i) % ni], fb, n);
        lemma_add_mod_noop(sum(fa, n), sum(fb, n), q);
    }
}

/// Multiplication distributes over subtraction modulo `Q + 1`: each
/// coefficient of `(a - b) * c`, the difference taken modulo `Q + 1`, is the
/// difference of those of `a * c` and `b * c`, reduced modulo `Q + 1`.
pub proof fn mul_distributes_over_sub_q(a: Seq<u64>, b: Seq<u64>, c: Seq<u64>)
    requires
        a.len() == b.len(),
        b.len() == c.len(),
    ensures
        forall|l: int| 0 <= l < a.len() ==> #[trigger] poly_mul(poly_sub_q(a, b), c)[l]
            == (poly_mul(a, c)[l] - poly_mul(b, c)[l]) % (Q + 1),
{
    let n = a.len();
    let ni = n as int;
    let q: int = Q + 1;
    let s = poly_sub_q(a, b);
    assert forall|l: int| 0 <= l < n implies #[trigger] poly_mul(s, c)[l] == (poly_mul(a, c)[l] - poly_mul(b, c)[l]) % (Q + 1) by {
        let fa = |i: int| a[i] * c[(l - i) % ni];
        let fb = |i: int| b[i] * c[(l - i) % ni];
        let nb = |i: int| -1 * fb(i);
        let fs = |i: int| s[i] * c[(l - i) % ni];
        let g = |i: int| fa(i) + nb(i);
        assert forall|i: int| 0 <= i < n implies #[trigger] fs(i) % q == g(i) % q by {
            let ci = c[(l - i) % ni] as int;
            lemma_mod_twice(a[i] - b[i], q);
            lemma_cong_mul(s[i] as int, ci, a[i] - b[i], ci, q);
            lemma_mul_is_distributive_sub_other_way(ci, a[i] as int, b[i] as int);
        }
        lemma_sum_congruent(fs, g, n, q);
        lemma_sum_add(fa, nb, n);
        lemma_sum_scale(fb, -1, n);
        lemma_sum_ext(nb, |i: int| -1 * fb(i), n);
        lemma_sum_ext(|i: int| s[i] * c[(l - i) % ni], fs, n);
        lemma_sum_ext(|i: int| a[i] * c[(l - i) % ni], fa, n);
        lemma_sum_ext(|i: int| b[i] * c[(l - i) % ni], fb, n);
        lemma_sub_mod_noop(sum(fa, n), sum(fb, n), q);
    }
}

} // verus!
