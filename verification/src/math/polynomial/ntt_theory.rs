//! The discrete Fourier transform over `Z_q` and the facts that the iterative
//! transform, its inverse and the convolution theorem rest on.
use vstd::prelude::*;
use vstd::arithmetic::div_mod::*;
use vstd::arithmetic::mul::*;
use vstd::arithmetic::power::*;
use vstd::arithmetic::power2::*;
use crate::math::summation::{
    lemma_sum_concat, lemma_sum_congruent, lemma_sum_even_odd, lemma_sum_ext, lemma_sum_scale,
    lemma_sum_single, lemma_sum_swap, sum,
};

verus! {

/// `n` is `2^l` for some `l`.
pub open spec fn is_power_of_two(n: nat) -> bool
    decreases n,
{
    if n <= 1 {
        n == 1
    } else {
        n % 2 == 0 && is_power_of_two(n / 2)
    }
}

/// `w^(n/2)` is `-1` modulo `q` (when `n >= 2`): `w` is a principal `n`-th root
/// of unity of the kind the iterative transform needs.
pub open spec fn is_half_turn_root(w: int, n: nat, q: int) -> bool {
    n >= 2 ==> pow(w, n / 2) % q == q - 1
}

/// `sum_{j < n} a[j] * w^(j k)`, over the integers.
pub open spec fn dft_sum(a: Seq<u64>, w: int, n: nat, k: int) -> int {
    sum(|j: int| a[j] * pow(w, (j * k) as nat), n)
}

/// The `k`-th coefficient of the transform of `a[0..n]` with root `w`,
/// reduced modulo `q`.
pub open spec fn dft(a: Seq<u64>, w: int, q: int, n: nat, k: int) -> int {
    dft_sum(a, w, n, k) % q
}

/// The `j`-th coefficient of the inverse transform of `x[0..n]`: the forward
/// transform with root `w_inv`, scaled by `n_inv`, modulo `q`.
pub open spec fn inverse_dft(x: Seq<u64>, w_inv: int, n_inv: int, q: int, n: nat, j: int) -> int {
    (dft_sum(x, w_inv, n, j) * n_inv) % q
}

/// `sum_{u < len} a[t + u v] * w^(v u r)`: the transform of the `len` entries of
/// `a` that start at `t` and lie `v` apart, with root `w^v`, at position `r`.
pub open spec fn strided_sum(a: Seq<u64>, t: int, v: nat, len: nat, w: int, r: nat) -> int {
    sum(|u: int| a[t + u * v] * pow(w, (v * u * r) as nat), len)
}

/// What entry `i` of the working buffer holds, modulo `q`, once `a` has been
/// split into `v` interleaved subsequences of length `big_m`, each transformed.
pub open spec fn stage_value(a: Seq<u64>, w: int, big_m: nat, v: nat, i: int) -> int {
    strided_sum(a, i % (v as int), v, big_m, w, (i / (v as int)) as nat)
}

// ---------------------------------------------------------------------------
// Congruence helpers
// ---------------------------------------------------------------------------

pub proof fn lemma_cong_add(a: int, b: int, x: int, y: int, q: int)
    requires
        q > 0,
        a % q == x % q,
        b % q == y % q,
    ensures
        (a + b) % q == (x + y) % q,
{
    lemma_add_mod_noop(a, b, q);
    lemma_add_mod_noop(x, y, q);
}

pub proof fn lemma_cong_sub(a: int, b: int, x: int, y: int, q: int)
    requires
        q > 0,
        a % q == x % q,
        b % q == y % q,
    ensures
        (a - b) % q == (x - y) % q,
{
    lemma_sub_mod_noop(a, b, q);
    lemma_sub_mod_noop(x, y, q);
}

pub proof fn lemma_cong_mul(a: int, b: int, x: int, y: int, q: int)
    requires
        q > 0,
        a % q == x % q,
        b % q == y % q,
    ensures
        (a * b) % q == (x * y) % q,
{
    lemma_mul_mod_noop_general(a, b, q);
    lemma_mul_mod_noop_general(x, y, q);
}

/// `x^e` is `1` modulo `q` whenever `x` is.
pub proof fn lemma_pow_of_one_mod(x: int, e: nat, q: int)
    requires
        q > 1,
        x % q == 1,
    ensures
        pow(x, e) % q == 1,
{
    lemma_pow_mod_noop(x, e, q);
    lemma1_pow(e);
    lemma_small_mod(1, q as nat);
}

/// `(-1)^e` modulo `q`, through any representative of `-1`.
pub proof fn lemma_pow_minus_one_mod(y: int, e: nat, q: int)
    requires
        q > 1,
        y % q == q - 1,
    ensures
        e % 2 == 0 ==> pow(y, e) % q == 1,
        e % 2 == 1 ==> pow(y, e) % q == q - 1,
    decreases e,
{
    if e == 0 {
        lemma_pow0(y);
        lemma_small_mod(1, q as nat);
    } else {
        lemma_pow_minus_one_mod(y, (e - 1) as nat, q);
        reveal(pow);
        assert(pow(y, e) == y * pow(y, (e - 1) as nat));
        lemma_mul_mod_noop_general(y, pow(y, (e - 1) as nat), q);
        if e % 2 == 0 {
            assert((q - 1) * (q - 1) == q * (q - 2) + 1) by (nonlinear_arith);
            lemma_mod_multiples_vanish(q - 2, 1, q);
            lemma_small_mod(1, q as nat);
        } else {
            lemma_small_mod((q - 1) as nat, q as nat);
        }
    }
}

/// For a half-turn root, `w^n` is `1` modulo `q`.
pub proof fn lemma_full_turn(w: int, n: nat, q: int)
    requires
        q > 1,
        n >= 2,
        n % 2 == 0,
        is_half_turn_root(w, n, q),
    ensures
        pow(w, n) % q == 1,
{
    lemma_pow_multiplies(w, n / 2, 2);
    assert((n / 2) * 2 == n);
    lemma_pow_minus_one_mod(pow(w, n / 2), 2, q);
}

// ---------------------------------------------------------------------------
// One butterfly stage
// ---------------------------------------------------------------------------

/// A transform of even length splits into the transforms of its even and odd
/// entries (the Cooley-Tukey step), as an identity over the integers.
pub proof fn lemma_strided_split(a: Seq<u64>, t: int, v: nat, m: nat, w: int, r: nat)
    ensures
        strided_sum(a, t, v, 2 * m, w, r) == strided_sum(a, t, 2 * v, m, w, r) + pow(w, v * r)
            * strided_sum(a, t + v, 2 * v, m, w, r),
{
    let f = |u: int| a[t + u * v] * pow(w, (v * u * r) as nat);
    let even = |u: int| a[t + u * (2 * v)] * pow(w, ((2 * v) * u * r) as nat);
    let odd = |u: int| a[(t + v) + u * (2 * v)] * pow(w, ((2 * v) * u * r) as nat);
    lemma_sum_even_odd(f, m);
    assert forall|u: int| 0 <= u < m implies #[trigger] f(2 * u) == even(u) by {
        assert((2 * u) * v == u * (2 * v)) by (nonlinear_arith);
        assert(v * (2 * u) * r == (2 * v) * u * r) by (nonlinear_arith);
    }
    lemma_sum_ext(|u: int| f(2 * u), even, m);
    assert forall|u: int| 0 <= u < m implies #[trigger] f(2 * u + 1) == pow(w, v * r) * odd(u) by {
        assert((2 * u + 1) * v == v + u * (2 * v)) by (nonlinear_arith);
        assert(v * (2 * u + 1) * r == v * r + (2 * v) * u * r) by (nonlinear_arith);
        assert(0 <= (2 * v) * u * r) by (nonlinear_arith)
            requires
                0 <= u,
        ;
        lemma_pow_adds(w, v * r, ((2 * v) * u * r) as nat);
        assert((v * r + ((2 * v) * u * r) as nat) as nat == (v * (2 * u + 1) * r) as nat);
        lemma_mul_is_associative(pow(w, v * r), a[(t + v) + u * (2 * v)] as int, pow(w, ((2 * v) * u * r) as nat));
        lemma_mul_is_commutative(pow(w, v * r), a[(t + v) + u * (2 * v)] as int);
        lemma_mul_is_associative(a[(t + v) + u * (2 * v)] as int, pow(w, v * r), pow(w, ((2 * v) * u * r) as nat));
    }
    lemma_sum_ext(|u: int| f(2 * u + 1), |u: int| pow(w, v * r) * odd(u), m);
    lemma_sum_scale(odd, pow(w, v * r), m);
}

/// Moving the position `r` of a strided transform by its length `m` changes
/// nothing modulo `q` when `w^(v m)` is `1`.
pub proof fn lemma_strided_wrap(a: Seq<u64>, t: int, v: nat, m: nat, w: int, k: nat, q: int)
    requires
        q > 1,
        pow(w, v * m) % q == 1,
    ensures
        strided_sum(a, t, v, m, w, k + m) % q == strided_sum(a, t, v, m, w, k) % q,
{
    let f = |u: int| a[t + u * v] * pow(w, (v * u * (k + m)) as nat);
    let g = |u: int| a[t + u * v] * pow(w, (v * u * k) as nat);
    assert forall|u: int| 0 <= u < m implies #[trigger] f(u) % q == g(u) % q by {
        let e1 = (v * u * k) as nat;
        let e2 = (v * m * u) as nat;
        assert(0 <= v * u * k && 0 <= v * m * u) by (nonlinear_arith)
            requires
                0 <= u,
        ;
        assert(v * u * (k + m) == v * u * k + v * m * u) by (nonlinear_arith);
        lemma_pow_adds(w, e1, e2);
        assert((e1 + e2) as nat == (v * u * (k + m)) as nat);
        lemma_pow_multiplies(w, v * m, u as nat);
        assert((v * m) * (u as nat) == v * m * u) by (nonlinear_arith)
            requires
                0 <= u,
        ;
        lemma_pow_of_one_mod(pow(w, v * m), u as nat, q);
        lemma_small_mod(1, q as nat);
        lemma_cong_mul(pow(w, e1), pow(w, e2), pow(w, e1), 1, q);
        lemma_cong_mul(a[t + u * v] as int, pow(w, e1) * pow(w, e2), a[t + u * v] as int, pow(w, e1), q);
    }
    lemma_sum_congruent(f, g, m, q);
}

/// `w^(v (k + m))` is `-w^(v k)` modulo `q` when `w^(v m)` is `-1`.
pub proof fn lemma_half_turn_shift(w: int, v: nat, m: nat, k: nat, q: int)
    requires
        q > 1,
        pow(w, v * m) % q == q - 1,
    ensures
        (pow(w, v * (k + m)) + pow(w, v * k)) % q == 0,
{
    assert(v * (k + m) == v * k + v * m) by (nonlinear_arith);
    lemma_pow_adds(w, v * k, v * m);
    assert((-1int) % q == q - 1) by {
        lemma_small_mod((q - 1) as nat, q as nat);
        lemma_mod_add_multiples_vanish(-1, q);
    }
    lemma_cong_mul(pow(w, v * k), pow(w, v * m), pow(w, v * k), -1, q);
    lemma_cong_add(pow(w, v * k) * pow(w, v * m), pow(w, v * k), -pow(w, v * k), pow(w, v * k), q);
    lemma_small_mod(0, q as nat);
}

/// Position arithmetic: entry `k c + t` with `t < c` is entry `t` of group `k`.
pub proof fn lemma_index_split(k: int, c: int, t: int)
    requires
        c > 0,
        0 <= t < c,
        k >= 0,
    ensures
        (k * c + t) % c == t,
        (k * c + t) / c == k,
{
    lemma_fundamental_div_mod_converse(k * c + t, c, k, t);
}

/// One butterfly of a stage: from the `m`-point transforms of the `2v`
/// interleaved subsequences to the `2m`-point transforms of the `v` subsequences.
pub proof fn lemma_butterfly(
    a: Seq<u64>,
    w: int,
    q: int,
    m: nat,
    v: nat,
    k: nat,
    t: nat,
    x_lo: int,
    x_hi: int,
    tw: int,
    y_lo: int,
    y_hi: int,
)
    requires
        q > 0,
        v >= 1,
        m >= 1,
        k < m,
        t < v,
        q > 1 ==> pow(w, v * m) % q == q - 1,
        x_lo % q == stage_value(a, w, m, 2 * v, (k * (2 * v) + t) as int) % q,
        x_hi % q == stage_value(a, w, m, 2 * v, (k * (2 * v) + t + v) as int) % q,
        tw % q == pow(w, k * v) % q,
        y_lo % q == (x_lo + (tw * x_hi) % q) % q,
        y_hi % q == (x_lo - (tw * x_hi) % q) % q,
    ensures
        y_lo % q == stage_value(a, w, 2 * m, v, (k * v + t) as int) % q,
        y_hi % q == stage_value(a, w, 2 * m, v, (k * v + t + m * v) as int) % q,
{
    if q == 1 {
        lemma_mod_one(y_lo);
        lemma_mod_one(y_hi);
        lemma_mod_one(stage_value(a, w, 2 * m, v, (k * v + t) as int));
        lemma_mod_one(stage_value(a, w, 2 * m, v, (k * v + t + m * v) as int));
    } else {
        let v2 = (2 * v) as nat;
        let e0 = strided_sum(a, t as int, v2, m, w, k);
        let o0 = strided_sum(a, (t + v) as int, v2, m, w, k);
        let e1 = strided_sum(a, t as int, v2, m, w, k + m);
        let o1 = strided_sum(a, (t + v) as int, v2, m, w, k + m);
        let wk = pow(w, v * k);
        let wkm = pow(w, v * (k + m));
        lemma_index_split(k as int, v2 as int, t as int);
        lemma_index_split(k as int, v2 as int, (t + v) as int);
        assert(k * (2 * v) + t + v == k * v2 + (t + v));
        assert(stage_value(a, w, m, v2, (k * v2 + t) as int) == e0);
        assert(stage_value(a, w, m, v2, (k * v2 + (t + v)) as int) == o0);
        lemma_index_split(k as int, v as int, t as int);
        assert(stage_value(a, w, 2 * m, v, (k * v + t) as int) == strided_sum(a, t as int, v, 2 * m, w, k));
        lemma_strided_split(a, t as int, v, m, w, k);
        assert((k + m) * v + t == k * v + t + m * v) by (nonlinear_arith);
        lemma_index_split((k + m) as int, v as int, t as int);
        assert(stage_value(a, w, 2 * m, v, (k * v + t + m * v) as int) == strided_sum(a, t as int, v, 2 * m, w, k + m));
        lemma_strided_split(a, t as int, v, m, w, (k + m) as nat);
        // w^(2 v m) = 1 and w^(v m) = -1
        assert((v * m) * 2 == v2 * m) by (nonlinear_arith)
            requires
                v2 == 2 * v,
        ;
        lemma_pow_multiplies(w, v * m, 2);
        lemma_pow_minus_one_mod(pow(w, v * m), 2, q);
        lemma_strided_wrap(a, t as int, v2, m, w, k, q);
        lemma_strided_wrap(a, (t + v) as int, v2, m, w, k, q);
        lemma_half_turn_shift(w, v, m, k, q);
        assert(k * v == v * k) by (nonlinear_arith);
        // the low output
        lemma_mod_twice(tw * x_hi, q);
        lemma_cong_mul(tw, x_hi, wk, o0, q);
        lemma_cong_add(x_lo, (tw * x_hi) % q, e0, wk * o0, q);
        // the high output
        lemma_cong_sub(x_lo, (tw * x_hi) % q, e0, wk * o0, q);
        lemma_small_mod(0, q as nat);
        lemma_mod_add_multiples_vanish(0, q);
        assert(wkm % q == (-wk) % q) by {
            lemma_cong_sub(wkm + wk, wk, 0, wk, q);
        }
        lemma_cong_mul(wkm, o1, -wk, o0, q);
        lemma_cong_add(e1, wkm * o1, e0, (-wk) * o0, q);
        assert((-wk) * o0 == -(wk * o0)) by (nonlinear_arith);
    }
}

/// Every integer is `0` modulo `1`.
pub proof fn lemma_mod_one(x: int)
    ensures
        x % 1 == 0,
{
    lemma_fundamental_div_mod(x, 1);
    lemma_mod_bound(x, 1);
}

/// `floor(log2(n))`, with `log2(0) == 0`.
pub open spec fn log2(n: nat) -> nat
    decreases n,
{
    if n <= 1 {
        0
    } else {
        1 + log2(n / 2)
    }
}

/// Before the first stage every entry holds the input itself.
pub proof fn lemma_stage_initial(a: Seq<u64>, w: int, n: nat, i: int)
    requires
        0 <= i < n,
    ensures
        stage_value(a, w, 1, n, i) == a[i],
{
    lemma_small_mod(i as nat, n);
    lemma_basic_div(i, n as int);
    assert(i % (n as int) == i);
    assert(i / (n as int) == 0);
    let f = |u: int| a[i % (n as int) + u * n] * pow(w, (n * u * ((i / (n as int)) as nat)) as nat);
    assert(n * 0int * 0nat == 0) by (nonlinear_arith);
    assert(f(0) == a[i] * pow(w, 0));
    lemma_pow0(w);
    assert(sum(f, 1) == sum(f, 0) + f(0));
}

/// After the last stage every entry holds a coefficient of the transform.
pub proof fn lemma_stage_final(a: Seq<u64>, w: int, n: nat, i: int)
    requires
        0 <= i,
    ensures
        stage_value(a, w, n, 1, i) == dft_sum(a, w, n, i),
{
    lemma_small_mod(0, 1);
    lemma_fundamental_div_mod(i, 1);
    lemma_mod_one(i);
    assert(i / 1 == i);
    let f = |u: int| a[0 + u * 1] * pow(w, (1 * u * (i as nat)) as nat);
    let g = |j: int| a[j] * pow(w, (j * i) as nat);
    assert forall|u: int| 0 <= u < n implies #[trigger] f(u) == g(u) by {}
    lemma_sum_ext(f, g, n);
}

// ---------------------------------------------------------------------------
// Orthogonality of the powers of a half-turn root
// ---------------------------------------------------------------------------

/// `x` is `0` modulo `q` when one factor is.
pub proof fn lemma_mul_zero_mod(x: int, y: int, q: int)
    requires
        q > 0,
        x % q == 0 || y % q == 0,
    ensures
        (x * y) % q == 0,
{
    lemma_small_mod(0, q as nat);
    if x % q == 0 {
        lemma_cong_mul(x, y, 0, y, q);
    } else {
        lemma_cong_mul(x, y, x, 0, q);
    }
}

/// For `0 < d < n`, the powers `w^(d k)`, `k < n`, of a half-turn root of order
/// `n` sum to `0` modulo `q`.
pub proof fn lemma_orthogonality(w: int, n: nat, q: int, d: nat)
    requires
        q > 1,
        is_power_of_two(n),
        is_half_turn_root(w, n, q),
        0 < d < n,
    ensures
        sum(|k: int| pow(w, (d * k) as nat), n) % q == 0,
    decreases n,
{
    let h = n / 2;
    assert(n == h + h);
    let g = |k: int| pow(w, (d * k) as nat);
    let c = pow(w, d * h);
    lemma_sum_concat(g, h, h);
    assert forall|k: int| 0 <= k < h implies #[trigger] g(h + k) == c * g(k) by {
        assert(d * (h + k) == d * h + d * k && 0 <= d * k) by (nonlinear_arith)
            requires
                0 <= k,
        ;
        lemma_pow_adds(w, d * h, (d * k) as nat);
    }
    lemma_sum_ext(|k: int| g(h + k), |k: int| c * g(k), h);
    lemma_sum_scale(g, c, h);
    let sh = sum(g, h);
    assert(sum(g, n) == (1 + c) * sh) by (nonlinear_arith)
        requires
            sum(g, n) == sh + c * sh,
    ;
    if d % 2 == 1 {
        lemma_pow_multiplies(w, h, d);
        assert(h * d == d * h) by (nonlinear_arith);
        lemma_pow_minus_one_mod(pow(w, h), d, q);
        lemma_small_mod(1, q as nat);
        lemma_small_mod((q - 1) as nat, q as nat);
        assert(c % q == (q - 1) % q);
        lemma_cong_add(1, c, 1, q - 1, q);
        lemma_mod_self_0(q);
        lemma_mul_zero_mod(1 + c, sh, q);
    } else {
        let d2 = (d / 2) as nat;
        let w2 = pow(w, 2);
        assert(d == 2 * d2);
        assert(h >= 2);
        assert(is_power_of_two(h));
        assert(h % 2 == 0);
        lemma_pow_multiplies(w, 2, h / 2);
        assert(2 * (h / 2) == h);
        assert(is_half_turn_root(w2, h, q));
        lemma_orthogonality(w2, h, q, d2);
        let g2 = |k: int| pow(w2, (d2 * k) as nat);
        assert forall|k: int| 0 <= k < h implies #[trigger] g(k) == g2(k) by {
            assert(0 <= d2 * k && 2 * (d2 * k) == d * k) by (nonlinear_arith)
                requires
                    0 <= k,
                    d == 2 * d2,
            ;
            lemma_pow_multiplies(w, 2, (d2 * k) as nat);
        }
        lemma_sum_ext(g, g2, h);
        lemma_mul_zero_mod(1 + c, sh, q);
    }
}

/// The inverse of a half-turn root is a half-turn root.
pub proof fn lemma_inverse_half_turn(w: int, w_inv: int, n: nat, q: int)
    requires
        q > 1,
        is_half_turn_root(w, n, q),
        (w * w_inv) % q == 1,
    ensures
        is_half_turn_root(w_inv, n, q),
{
    if n >= 2 {
        let h = n / 2;
        let p = pow(w_inv, h);
        lemma_pow_distributes(w, w_inv, h);
        lemma_pow_of_one_mod(w * w_inv, h, q);
        lemma_small_mod((q - 1) as nat, q as nat);
        lemma_cong_mul(pow(w, h), p, q - 1, p, q);
        assert((q - 1) * p == q * p + (-p)) by (nonlinear_arith);
        lemma_mod_multiples_vanish(p, -p, q);
        // -p is 1 modulo q, so p is -1 modulo q
        lemma_small_mod(1, q as nat);
        lemma_cong_sub(0, -p, 0, 1, q);
        lemma_mod_add_multiples_vanish(-1, q);
    }
}

/// `w^(j k) w_inv^(l k)` is, modulo `q`, `w^((j - l) k)` when `j >= l` and
/// `w_inv^((l - j) k)` when `j < l`.
pub proof fn lemma_exponent_pair(w: int, w_inv: int, q: int, j: nat, l: nat, k: nat)
    requires
        q > 1,
        (w * w_inv) % q == 1,
    ensures
        j >= l ==> (pow(w, j * k) * pow(w_inv, l * k)) % q == pow(w, ((j - l) * k) as nat) % q,
        j < l ==> (pow(w, j * k) * pow(w_inv, l * k)) % q == pow(w_inv, ((l - j) * k) as nat) % q,
{
    if j >= l {
        let e = ((j - l) * k) as nat;
        assert(j * k == e + l * k) by (nonlinear_arith)
            requires
                j >= l,
                e == (j - l) * k,
        ;
        lemma_pow_adds(w, e, l * k);
        lemma_pow_distributes(w, w_inv, l * k);
        lemma_pow_of_one_mod(w * w_inv, l * k, q);
        lemma_small_mod(1, q as nat);
        lemma_mul_is_associative(pow(w, e), pow(w, l * k), pow(w_inv, l * k));
        lemma_cong_mul(pow(w, e), pow(w, l * k) * pow(w_inv, l * k), pow(w, e), 1, q);
    } else {
        let e = ((l - j) * k) as nat;
        assert(l * k == e + j * k) by (nonlinear_arith)
            requires
                j < l,
                e == (l - j) * k,
        ;
        lemma_pow_adds(w_inv, e, j * k);
        lemma_pow_distributes(w, w_inv, j * k);
        lemma_pow_of_one_mod(w * w_inv, j * k, q);
        lemma_small_mod(1, q as nat);
        assert(pow(w, j * k) * (pow(w_inv, e) * pow(w_inv, j * k)) == pow(w_inv, e) * (pow(w, j * k) * pow(w_inv, j * k))) by (nonlinear_arith);
        lemma_cong_mul(pow(w_inv, e), pow(w, j * k) * pow(w_inv, j * k), pow(w_inv, e), 1, q);
    }
}

/// `sum_{k < n} w^(j k) w_inv^(l k)` is `n` modulo `q` when `j == l`, `0` otherwise.
pub proof fn lemma_orthogonality_pair(w: int, w_inv: int, n: nat, q: int, j: nat, l: nat)
    requires
        q > 1,
        is_power_of_two(n),
        is_half_turn_root(w, n, q),
        (w * w_inv) % q == 1,
        j < n,
        l < n,
    ensures
        sum(|k: int| pow(w, (j * k) as nat) * pow(w_inv, (l * k) as nat), n) % q == (if j == l { n as int } else { 0 }) % q,
{
    let e = |k: int| pow(w, (j * k) as nat) * pow(w_inv, (l * k) as nat);
    if j == l {
        let one = |k: int| 1int;
        assert forall|k: int| 0 <= k < n implies #[trigger] e(k) % q == one(k) % q by {
            assert(0 <= j * k) by (nonlinear_arith)
                requires
                    0 <= k,
            ;
            lemma_exponent_pair(w, w_inv, q, j, l, k as nat);
            lemma_pow0(w);
            assert((j - l) * k == 0);
        }
        lemma_sum_congruent(e, one, n, q);
        lemma_sum_of_ones(n);
    } else if j > l {
        let d = (j - l) as nat;
        let g = |k: int| pow(w, (d * k) as nat);
        assert forall|k: int| 0 <= k < n implies #[trigger] e(k) % q == g(k) % q by {
            assert(0 <= j * k && 0 <= l * k) by (nonlinear_arith)
                requires
                    0 <= k,
            ;
            lemma_exponent_pair(w, w_inv, q, j, l, k as nat);
        }
        lemma_sum_congruent(e, g, n, q);
        lemma_orthogonality(w, n, q, d);
        lemma_small_mod(0, q as nat);
    } else {
        let d = (l - j) as nat;
        let g = |k: int| pow(w_inv, (d * k) as nat);
        assert forall|k: int| 0 <= k < n implies #[trigger] e(k) % q == g(k) % q by {
            assert(0 <= j * k && 0 <= l * k) by (nonlinear_arith)
                requires
                    0 <= k,
            ;
            lemma_exponent_pair(w, w_inv, q, j, l, k as nat);
        }
        lemma_sum_congruent(e, g, n, q);
        lemma_inverse_half_turn(w, w_inv, n, q);
        lemma_orthogonality(w_inv, n, q, d);
        lemma_small_mod(0, q as nat);
    }
}

/// `n` ones sum to `n`.
pub proof fn lemma_sum_of_ones(n: nat)
    ensures
        sum(|k: int| 1int, n) == n,
    decreases n,
{
    if n > 0 {
        lemma_sum_of_ones((n - 1) as nat);
    }
}

/// The core of the inversion theorem:
/// `sum_{k < n} w_inv^(l k) * (sum_{j < n} x[j] w^(j k))` is `n * x[l]` modulo `q`.
pub proof fn lemma_inverse_core(x: Seq<u64>, w: int, w_inv: int, n: nat, q: int, l: nat)
    requires
        q > 1,
        is_power_of_two(n),
        is_half_turn_root(w, n, q),
        (w * w_inv) % q == 1,
        l < n,
    ensures
        sum(|k: int| pow(w_inv, (l * k) as nat) * dft_sum(x, w, n, k), n) % q == (n * x[l as int]) % q,
{
    let gjk = |j: int, k: int| x[j] * (pow(w, (j * k) as nat) * pow(w_inv, (l * k) as nat));
    let lhs = |k: int| pow(w_inv, (l * k) as nat) * dft_sum(x, w, n, k);
    // each outer term is an inner sum over j
    assert forall|k: int| 0 <= k < n implies #[trigger] lhs(k) == sum(|j: int| gjk(j, k), n) by {
        let f = |j: int| x[j] * pow(w, (j * k) as nat);
        let c = pow(w_inv, (l * k) as nat);
        lemma_sum_scale(f, c, n);
        assert forall|j: int| 0 <= j < n implies #[trigger] gjk(j, k) == c * f(j) by {
            assert(x[j] * (pow(w, (j * k) as nat) * c) == c * (x[j] * pow(w, (j * k) as nat))) by (nonlinear_arith);
        }
        lemma_sum_ext(|j: int| gjk(j, k), |j: int| c * f(j), n);
    }
    lemma_sum_ext(lhs, |k: int| sum(|j: int| gjk(j, k), n), n);
    lemma_sum_swap(gjk, n, n);
    // each inner sum over k is x[j] times an orthogonality sum
    let hj = |j: int| x[j] * sum(|k: int| pow(w, (j * k) as nat) * pow(w_inv, (l * k) as nat), n);
    let target = |j: int| if j == l { n * x[j] } else { 0 };
    let inner = |j: int| sum(|k: int| gjk(j, k), n);
    assert forall|j: int| 0 <= j < n implies #[trigger] inner(j) % q == target(j) % q by {
        let e = |k: int| pow(w, (j * k) as nat) * pow(w_inv, (l * k) as nat);
        lemma_sum_scale(e, x[j] as int, n);
        lemma_sum_ext(|k: int| gjk(j, k), |k: int| x[j] * e(k), n);
        lemma_orthogonality_pair(w, w_inv, n, q, j as nat, l);
        lemma_cong_mul(x[j] as int, sum(e, n), x[j] as int, if j == l { n as int } else { 0 }, q);
        if j == l {
            lemma_mul_is_commutative(x[j] as int, n as int);
        }
    }
    lemma_sum_congruent(inner, target, n, q);
    assert forall|j: int| 0 <= j < n && j != l implies #[trigger] target(j) == 0 by {}
    lemma_sum_single(target, n, l as int);
}

/// The inverse transform undoes the transform.
///
/// For a half-turn root `w` of order `n` (a power of two) modulo `q`, its inverse
/// `w_inv` and the inverse `n_inv` of `n`: the inverse transform of any sequence
/// that agrees modulo `q` with the transform of `a` (as `ct_ntt` produces it)
/// gives back the entries of `a`, reduced modulo `q`.
pub proof fn ntt_round_trip(a: Seq<u64>, x: Seq<u64>, n: nat, q: int, w: int, w_inv: int, n_inv: int)
    requires
        q > 1,
        is_power_of_two(n),
        n <= a.len(),
        is_half_turn_root(w, n, q),
        (w * w_inv) % q == 1,
        (n * n_inv) % q == 1,
        forall|k: int| 0 <= k < n ==> (#[trigger] x[k] as int) % q == dft(a, w, q, n, k),
    ensures
        forall|j: int| 0 <= j < n ==> #[trigger] inverse_dft(x, w_inv, n_inv, q, n, j) == (a[j] as int) % q,
{
    assert forall|j: int| 0 <= j < n implies #[trigger] inverse_dft(x, w_inv, n_inv, q, n, j) == (a[j] as int) % q by {
        let f = |k: int| x[k] * pow(w_inv, (k * j) as nat);
        let g = |k: int| pow(w_inv, ((j as nat) * k) as nat) * dft_sum(a, w, n, k);
        assert forall|k: int| 0 <= k < n implies #[trigger] f(k) % q == g(k) % q by {
            assert(k * j == (j as nat) * k) by (nonlinear_arith)
                requires
                    0 <= j,
            ;
            lemma_mod_twice(dft_sum(a, w, n, k), q);
            lemma_cong_mul(x[k] as int, pow(w_inv, (k * j) as nat), dft_sum(a, w, n, k), pow(w_inv, (k * j) as nat), q);
            lemma_mul_is_commutative(dft_sum(a, w, n, k), pow(w_inv, (k * j) as nat));
        }
        lemma_sum_congruent(f, g, n, q);
        lemma_inverse_core(a, w, w_inv, n, q, j as nat);
        let s = dft_sum(x, w_inv, n, j);
        lemma_cong_mul(s, n_inv, n * a[j], n_inv, q);
        assert((n * a[j]) * n_inv == a[j] * (n * n_inv)) by (nonlinear_arith);
        lemma_small_mod(1, q as nat);
        lemma_cong_mul(a[j] as int, n * n_inv, a[j] as int, 1, q);
    }
}

/// Entry `l` of the cyclic (positively wrapped) convolution of `a[0..n]` and
/// `b[0..n]`: `sum_{i < n} a[i] * b[(l - i) mod n]`.
pub open spec fn cyclic_convolution(a: Seq<u64>, b: Seq<u64>, n: nat, l: int) -> int {
    sum(|i: int| a[i] * b[(l - i) % (n as int)], n)
}

/// The convolution theorem: multiplying transforms pointwise and transforming
/// back computes the cyclic convolution.
///
/// For a half-turn root `w` of order `n` modulo `q` with inverse `w_inv`, and
/// `n_inv` the inverse of `n`: if `c` agrees modulo `q` with the pointwise
/// product of the transforms of `a` and `b`, its inverse transform is the cyclic
/// convolution of `a` and `b` modulo `q`.
pub proof fn convolution_theorem(
    a: Seq<u64>,
    b: Seq<u64>,
    c: Seq<u64>,
    n: nat,
    q: int,
    w: int,
    w_inv: int,
    n_inv: int,
)
    requires
        q > 1,
        is_power_of_two(n),
        n <= a.len(),
        n <= b.len(),
        is_half_turn_root(w, n, q),
        (w * w_inv) % q == 1,
        (n * n_inv) % q == 1,
        forall|k: int| 0 <= k < n ==> (#[trigger] c[k] as int) % q == (dft_sum(a, w, n, k) * dft_sum(b, w, n, k)) % q,
    ensures
        forall|l: int| 0 <= l < n ==> #[trigger] inverse_dft(c, w_inv, n_inv, q, n, l) == cyclic_convolution(a, b, n, l) % q,
{
    assert forall|l: int| 0 <= l < n implies #[trigger] inverse_dft(c, w_inv, n_inv, q, n, l) == cyclic_convolution(a, b, n, l) % q by {
        lemma_convolution_at(a, b, c, n, q, w, w_inv, n_inv, l as nat);
    }
}

proof fn lemma_convolution_at(
    a: Seq<u64>,
    b: Seq<u64>,
    c: Seq<u64>,
    n: nat,
    q: int,
    w: int,
    w_inv: int,
    n_inv: int,
    l: nat,
)
    requires
        q > 1,
        is_power_of_two(n),
        is_half_turn_root(w, n, q),
        (w * w_inv) % q == 1,
        (n * n_inv) % q == 1,
        l < n,
        forall|k: int| 0 <= k < n ==> (#[trigger] c[k] as int) % q == (dft_sum(a, w, n, k) * dft_sum(b, w, n, k)) % q,
    ensures
        inverse_dft(c, w_inv, n_inv, q, n, l as int) == cyclic_convolution(a, b, n, l as int) % q,
{
    // sum_k c[k] w_inv^(l k) agrees with sum_k sum_i a[i] w^(i k) w_inv^(l k) B_k
    let g = |i: int, k: int| a[i] * ((pow(w, (i * k) as nat) * pow(w_inv, (l * k) as nat)) * dft_sum(b, w, n, k));
    let f = |k: int| c[k] * pow(w_inv, (k * l) as nat);
    let col = |k: int| sum(|i: int| g(i, k), n);
    assert forall|k: int| 0 <= k < n implies #[trigger] f(k) % q == col(k) % q by {
        let fa = |i: int| a[i] * pow(w, (i * k) as nat);
        let da = dft_sum(a, w, n, k);
        let db = dft_sum(b, w, n, k);
        let p = pow(w_inv, (l * k) as nat);
        assert(k * l == l * k) by (nonlinear_arith);
        lemma_cong_mul(c[k] as int, p, da * db, p, q);
        lemma_sum_scale(fa, p * db, n);
        assert forall|i: int| 0 <= i < n implies #[trigger] g(i, k) == (p * db) * fa(i) by {
            let pw = pow(w, (i * k) as nat);
            let ai = a[i] as int;
            assert(ai * ((pw * p) * db) == (p * db) * (ai * pw)) by (nonlinear_arith);
        }
        lemma_sum_ext(|i: int| g(i, k), |i: int| (p * db) * fa(i), n);
        assert((da * db) * p == (p * db) * da) by (nonlinear_arith);
    }
    lemma_sum_congruent(f, col, n, q);
    lemma_sum_swap(g, n, n);
    // for each i, sum_k w^(i k) w_inv^(l k) B_k is n * b[(l - i) mod n]
    let inner = |i: int| sum(|k: int| g(i, k), n);
    let term = |i: int| a[i] * b[(l - i) % (n as int)];
    let target = |i: int| (n as int) * term(i);
    assert forall|i: int| 0 <= i < n implies #[trigger] inner(i) % q == target(i) % q by {
        let i_n = i as nat;
        lemma_convolution_inner(a, b, n, q, w, w_inv, l, i_n);
        lemma_sum_ext(
            |k: int| g(i, k),
            |k: int| a[i_n as int] * ((pow(w, (i_n * k) as nat) * pow(w_inv, (l * k) as nat)) * dft_sum(b, w, n, k)),
            n,
        );
    }
    lemma_sum_congruent(inner, target, n, q);
    lemma_sum_scale(term, n as int, n);
    // scale by n_inv
    let s = dft_sum(c, w_inv, n, l as int);
    let conv = cyclic_convolution(a, b, n, l as int);
    lemma_sum_ext(f, |j: int| c[j] * pow(w_inv, (j * l) as nat), n);
    assert(s % q == (n * conv) % q);
    lemma_cong_mul(s, n_inv, n * conv, n_inv, q);
    assert((n * conv) * n_inv == conv * (n * n_inv)) by (nonlinear_arith);
    lemma_small_mod(1, q as nat);
    lemma_cong_mul(conv, n * n_inv, conv, 1, q);
}

proof fn lemma_convolution_inner(a: Seq<u64>, b: Seq<u64>, n: nat, q: int, w: int, w_inv: int, l: nat, i: nat)
    requires
        q > 1,
        is_power_of_two(n),
        is_half_turn_root(w, n, q),
        (w * w_inv) % q == 1,
        l < n,
        i < n,
    ensures
        sum(|k: int| a[i as int] * ((pow(w, (i * k) as nat) * pow(w_inv, (l * k) as nat)) * dft_sum(b, w, n, k)), n) % q
            == (n * (a[i as int] * b[(l - i) % (n as int)])) % q,
{
    let lp: nat = if l >= i { (l - i) as nat } else { (l + n - i) as nat };
    assert(lp == (l - i) % (n as int)) by {
        if l >= i {
            lemma_small_mod(lp, n);
        } else {
            lemma_mod_add_multiples_vanish(l - i, n as int);
            lemma_small_mod(lp, n);
        }
    }
    lemma_inverse_half_turn(w, w_inv, n, q);
    let e = |k: int| pow(w, (i * k) as nat) * pow(w_inv, (l * k) as nat);
    let r = |k: int| pow(w_inv, (lp * k) as nat);
    assert forall|k: int| 0 <= k < n implies #[trigger] e(k) % q == r(k) % q by {
        let kn = k as nat;
        assert(i * k == i * kn && l * k == l * kn && lp * k == lp * kn) by (nonlinear_arith)
            requires
                kn == k,
        ;
        lemma_exponent_pair(w, w_inv, q, i, l, kn);
        if i == l {
            lemma_pow0(w);
            lemma_pow0(w_inv);
            assert((i - l) * kn == 0 && lp * kn == 0) by (nonlinear_arith)
                requires
                    i == l,
                    lp == 0,
            ;
        } else if i < l {
            assert(lp * kn == (l - i) * kn) by (nonlinear_arith)
                requires
                    lp == l - i,
            ;
        } else {
            let d = (i - l) as nat;
            lemma_root_complement(w, w_inv, n, q, d, kn);
            assert(d * kn == (i - l) * kn && lp * kn == (n - d) * kn) by (nonlinear_arith)
                requires
                    d == i - l,
                    lp == n - d,
            ;
        }
    }
    let ai = a[i as int] as int;
    let lhs = |k: int| ai * (e(k) * dft_sum(b, w, n, k));
    let mid = |k: int| pow(w_inv, (lp * k) as nat) * dft_sum(b, w, n, k);
    assert forall|k: int| 0 <= k < n implies #[trigger] lhs(k) % q == (ai * mid(k)) % q by {
        let db = dft_sum(b, w, n, k);
        lemma_cong_mul(e(k), db, r(k), db, q);
        lemma_cong_mul(ai, e(k) * db, ai, r(k) * db, q);
    }
    lemma_sum_congruent(lhs, |k: int| ai * mid(k), n, q);
    lemma_sum_scale(mid, ai, n);
    lemma_inverse_core(b, w, w_inv, n, q, lp);
    lemma_cong_mul(ai, sum(mid, n), ai, n * b[lp as int], q);
    assert(ai * (n * b[lp as int]) == n * (ai * b[lp as int])) by (nonlinear_arith);
    lemma_sum_ext(
        |k: int| a[i as int] * ((pow(w, (i * k) as nat) * pow(w_inv, (l * k) as nat)) * dft_sum(b, w, n, k)),
        lhs,
        n,
    );
}

/// For `0 < e < n`: `w^(e k)` is `w_inv^((n - e) k)` modulo `q`.
proof fn lemma_root_complement(w: int, w_inv: int, n: nat, q: int, e: nat, k: nat)
    requires
        q > 1,
        is_power_of_two(n),
        is_half_turn_root(w, n, q),
        (w * w_inv) % q == 1,
        0 < e < n,
    ensures
        pow(w, e * k) % q == pow(w_inv, ((n - e) * k) as nat) % q,
{
    let f = ((n - e) * k) as nat;
    assert(0 <= (n - e) * k) by (nonlinear_arith)
        requires
            e <= n,
    ;
    assert(n * k == f + e * k) by (nonlinear_arith)
        requires
            f == (n - e) * k,
    ;
    lemma_inverse_half_turn(w, w_inv, n, q);
    lemma_full_turn(w_inv, n, q);
    lemma_pow_multiplies(w_inv, n, k);
    lemma_pow_of_one_mod(pow(w_inv, n), k, q);
    lemma_pow_adds(w_inv, f, e * k);
    lemma_pow_distributes(w, w_inv, e * k);
    lemma_pow_of_one_mod(w * w_inv, e * k, q);
    lemma_small_mod(1, q as nat);
    let pw = pow(w, e * k);
    let pf = pow(w_inv, f);
    let pe = pow(w_inv, e * k);
    lemma_cong_mul(pw, pf * pe, pw, 1, q);
    assert(pw * (pf * pe) == pf * (pw * pe)) by (nonlinear_arith);
    lemma_cong_mul(pf, pw * pe, pf, 1, q);
}

} // verus!
