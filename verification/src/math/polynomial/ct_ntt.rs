//! Modular exponentiation, the iterative Cooley-Tukey number-theoretic
//! transform and its inverse.
use vstd::prelude::*;
use vstd::arithmetic::div_mod::*;
use crate::math::modular::mod_arith::{mod_mul, mod_sub, mod_sum};
use crate::math::polynomial::ntt_theory::{
    dft, dft_sum, inverse_dft, is_half_turn_root, is_power_of_two, lemma_butterfly, lemma_cong_mul,
    lemma_stage_final, lemma_stage_initial, log2, stage_value,
};

verus! {

/// What `pow` returns: `a^p mod q`, except that `a^0` is `1` whatever `q`.
pub open spec fn pow_mod(a: u64, p: u32, q: u64) -> int {
    if p == 0 {
        1
    } else {
        vstd::arithmetic::power::pow(a as int, p as nat) % (q as int)
    }
}

/// `a` to the power `p` modulo `q`, by repeated multiplication.
pub fn pow(a: u64, p: u32, q: u64) -> (r: u64)
    requires
        q > 0,
    ensures
        r == pow_mod(a, p, q),
        r as int % q as int == vstd::arithmetic::power::pow(a as int, p as nat) % (q as int),
{
    let mut acc: u64 = 1;
    let mut i: u32 = 0;
    while i < p
        invariant
            i <= p,
            q > 0,
            i == 0 ==> acc == 1,
            i > 0 ==> acc == vstd::arithmetic::power::pow(a as int, i as nat) % (q as int),
        decreases p - i,
    {
        proof {
            reveal(vstd::arithmetic::power::pow);
            vstd::arithmetic::power::lemma_pow1(a as int);
            assert(vstd::arithmetic::power::pow(a as int, (i + 1) as nat) == a * vstd::arithmetic::power::pow(a as int, i as nat));
            vstd::arithmetic::mul::lemma_mul_is_commutative(a as int, vstd::arithmetic::power::pow(a as int, i as nat));
            if i > 0 {
                lemma_mul_mod_noop_left(vstd::arithmetic::power::pow(a as int, i as nat), a as int, q as int);
            } else {
                vstd::arithmetic::power::lemma_pow0(a as int);
            }
            vstd::arithmetic::mul::lemma_mul_upper_bound(acc as int, u64::MAX as int, a as int, u64::MAX as int);
        }
        acc = ((acc as u128 * a as u128) % q as u128) as u64;
        i = i + 1;
    }
    proof {
        if p == 0 {
            vstd::arithmetic::power::lemma_pow0(a as int);
        } else {
            lemma_mod_twice(vstd::arithmetic::power::pow(a as int, p as nat), q as int);
        }
    }
    acc
}

/// What `egcd` returns where it is defined: the nonzero argument (the gcd), `0` and `1`.
pub open spec fn egcd_result(a: u64, b: u64) -> (u64, u64, u64) {
    ((a + b) as u64, 0, 1)
}

/// Extended Euclid as this library writes it, in unsigned arithmetic.
///
/// The recursion subtracts `(b / a) * y` from `x` in `u64`, which underflows
/// unless one argument is `0`; on those inputs the result is the gcd (the other
/// argument) with the coefficients `0` and `1`.
pub fn egcd(a: u64, b: u64) -> (r: (u64, u64, u64))
    requires
        a == 0 || b == 0,
    ensures
        r == egcd_result(a, b),
    decreases a,
{
    match a {
        0 => (b, 0, 1),
        a => {
            let (g, x, y) = egcd(b % a, a);
            (g, x - (b / a) * y, y)
        },
    }
}

/// Modular inverse through `egcd`: `Err` when the gcd of `a` and `q` is `1`,
/// otherwise `Ok` of the first Bezout coefficient reduced modulo `q`.
///
/// `egcd` is only defined with a zero argument and the reduction needs `q > 0`,
/// which leaves `a == 0 < q` (the gcd is `q`) and `a == 1, q == 0` (the gcd is `1`).
pub fn modinv(a: u64, q: u64) -> (r: Result<u64, String>)
    requires
        (a == 0 && q > 0) || (a == 1 && q == 0),
    ensures
        egcd_result(a, q).0 == 1 ==> (r matches Err(e) && e@ == "Modular inverse does not exist"@),
        egcd_result(a, q).0 != 1 ==> r == Ok::<u64, String>(0),
{
    let (g, x, _) = egcd(a, q);
    match g {
        1 => Err("Modular inverse does not exist".to_owned()),
        _ => Ok(x % q),
    }
}

/// `floor(log2(x))` by repeated halving (`0` for `x <= 1`).
fn floor_log2(x: usize) -> (r: u64)
    ensures
        r == log2(x as nat),
{
    proof {
        lemma_log2_small(x as nat);
    }
    let mut t = x;
    let mut r: u64 = 0;
    while t > 1
        invariant
            log2(x as nat) == r + log2(t as nat),
            log2(x as nat) < 64,
        decreases t,
    {
        t = t / 2;
        r = r + 1;
    }
    r
}

/// `2^log2(t) <= t` for positive `t`.
proof fn lemma_log2_le(t: nat)
    requires
        t >= 1,
    ensures
        vstd::arithmetic::power2::pow2(log2(t)) <= t,
    decreases t,
{
    if t > 1 {
        lemma_log2_le(t / 2);
        vstd::arithmetic::power2::lemma_pow2_unfold(log2(t));
    } else {
        vstd::arithmetic::power2::lemma2_to64();
    }
}

/// A machine word has fewer than 64 halvings in it.
proof fn lemma_log2_small(t: nat)
    requires
        t <= usize::MAX,
    ensures
        log2(t) < 64,
{
    if t >= 1 && log2(t) >= 64 {
        lemma_log2_le(t);
        vstd::arithmetic::power2::lemma2_to64_rest();
        if log2(t) > 64 {
            vstd::arithmetic::power2::lemma_pow2_strictly_increases(64, log2(t));
        }
    }
}

/// Holds when pair `p` of a stage output has been written: entries `p` and
/// `p + m v` hold the `2m`-point transforms (reduced when the input was).
spec fn pair_done(d: Seq<u64>, a: Seq<u64>, w: int, q: int, m: nat, v: nat, p: int, root: bool, reduced: bool) -> bool {
    &&& root ==> (d[p] as int) % q == stage_value(a, w, 2 * m, v, p) % q
    &&& root ==> (d[p + m * v] as int) % q == stage_value(a, w, 2 * m, v, p + m * v) % q
    &&& reduced ==> d[p] < q && d[p + m * v] < q
}

/// One stage of the transform: from `src`, holding the `m`-point transforms of
/// the `2v` interleaved subsequences of `a`, into `dst`, holding the `2m`-point
/// transforms of the `v` interleaved subsequences.
fn ntt_stage(
    src: &Vec<u64>,
    dst: &mut Vec<u64>,
    n: usize,
    m: usize,
    v: usize,
    q: u64,
    w: u64,
    Ghost(a): Ghost<Seq<u64>>,
    Ghost(root): Ghost<bool>,
    Ghost(reduced): Ghost<bool>,
)
    requires
        src.len() == n,
        old(dst).len() == n,
        v >= 1,
        m >= 1,
        n == 2 * m * v,
        root ==> n <= 0x1_0000_0000,
        q > 0,
        root ==> (q > 1 ==> vstd::arithmetic::power::pow(w as int, (v * m) as nat) % (q as int) == q - 1),
        root ==> forall|i: int| 0 <= i < n ==> (#[trigger] src[i] as int) % (q as int) == stage_value(a, w as int, m as nat, (2 * v) as nat, i) % (q as int),
        reduced ==> forall|i: int| 0 <= i < n ==> #[trigger] src[i] < q,
    ensures
        final(dst).len() == n,
        root ==> forall|i: int| 0 <= i < n ==> (#[trigger] final(dst)[i] as int) % (q as int) == stage_value(a, w as int, (2 * m) as nat, v as nat, i) % (q as int),
        reduced ==> forall|i: int| 0 <= i < n ==> #[trigger] final(dst)[i] < q,
{
    proof {
        assert(n / 2 == m * v && n == 2 * (m * v)) by (nonlinear_arith)
            requires
                n == 2 * m * v,
        ;
    }
    let n_2 = n / 2;
    let d = v;
    let mut l: usize = 0;
    let mut k: usize = 0;
    while k < m
        invariant
            src.len() == n,
            dst.len() == n,
            v >= 1,
            m >= 1,
            n == 2 * m * v,
            n_2 == m * v,
            n == 2 * n_2,
            d == v,
            root ==> n <= 0x1_0000_0000,
            q > 0,
            root ==> (q > 1 ==> vstd::arithmetic::power::pow(w as int, (v * m) as nat) % (q as int) == q - 1),
            root ==> forall|i: int| 0 <= i < n ==> (#[trigger] src[i] as int) % (q as int) == stage_value(a, w as int, m as nat, (2 * v) as nat, i) % (q as int),
            reduced ==> forall|i: int| 0 <= i < n ==> #[trigger] src[i] < q,
            k <= m,
            l == k * v,
            forall|p: int| 0 <= p < l ==> #[trigger] pair_done(dst@, a, w as int, q as int, m as nat, v as nat, p, root, reduced),
        decreases m - k,
    {
        proof {
            assert(k * v < m * v) by (nonlinear_arith)
                requires
                    k < m,
                    v >= 1,
            ;
            assert(2 * k * v + 2 * v <= n && 2 * k <= n && k * v + v <= m * v) by (nonlinear_arith)
                requires
                    k < m,
                    v >= 1,
                    n == 2 * m * v,
            ;
        }
        let jf = 2 * k * v;
        let jl = jf + v - 1;
        let jt = k * v;
        proof {
            if root {
                assert(n_2 <= 0x8000_0000) by (nonlinear_arith)
                    requires
                        n_2 == m * v,
                        n == 2 * m * v,
                        n <= 0x1_0000_0000,
                ;
            }
        }
        // twiddle exponents are taken as `u32`, which is exact when the order
        // is at most `2^32`
        #[verifier::truncate]
        let exponent = jt as u32;
        let tw = pow(w, exponent, q);
        let mut j = jf;
        while j < jl + 1
            invariant
                src.len() == n,
                dst.len() == n,
                v >= 1,
                m >= 1,
                n == 2 * m * v,
                n_2 == m * v,
                n == 2 * n_2,
                d == v,
                q > 0,
                root ==> (q > 1 ==> vstd::arithmetic::power::pow(w as int, (v * m) as nat) % (q as int) == q - 1),
                root ==> forall|i: int| 0 <= i < n ==> (#[trigger] src[i] as int) % (q as int) == stage_value(a, w as int, m as nat, (2 * v) as nat, i) % (q as int),
                reduced ==> forall|i: int| 0 <= i < n ==> #[trigger] src[i] < q,
                k < m,
                jf == 2 * k * v,
                jl + 1 == jf + v,
                jf + 2 * v <= n,
                jt == k * v,
                jt < n_2,
                k * v + v <= m * v,
                root ==> tw as int % q as int == vstd::arithmetic::power::pow(w as int, (k * v) as nat) % (q as int),
                jf <= j <= jl + 1,
                l == k * v + (j - jf),
                forall|p: int| 0 <= p < l ==> #[trigger] pair_done(dst@, a, w as int, q as int, m as nat, v as nat, p, root, reduced),
            decreases jl + 1 - j,
        {
            let ghost t: nat = (j - jf) as nat;
            assert(l < n_2 && l + n_2 < n);
            let temp = mod_mul(tw, src[j + d], q);
            let lo = mod_sum(src[j], temp, q);
            let hi = mod_sub(src[j], temp, q);
            let ghost before = dst@;
            dst.set(l, lo);
            dst.set(l + n_2, hi);
            proof {
                assert(2 * k * v == k * (2 * v)) by (nonlinear_arith);
                assert(j == k * (2 * v) + t);
                assert(j + d == k * (2 * v) + t + v);
                if root {
                    lemma_butterfly(a, w as int, q as int, m as nat, v as nat, k as nat, t,
                        src[j as int] as int, src[j + d] as int, tw as int, lo as int, hi as int);
                }
                assert(l == k * v + t);
                assert(l + n_2 == k * v + t + m * v);
                assert forall|p: int| 0 <= p < l + 1 implies #[trigger] pair_done(dst@, a, w as int, q as int, m as nat, v as nat, p, root, reduced) by {
                    if p < l {
                        assert(pair_done(before, a, w as int, q as int, m as nat, v as nat, p, root, reduced));
                        assert(dst@[p] == before[p]);
                        assert(dst@[p + m * v] == before[p + m * v]);
                    } else {
                        if reduced {
                            assert(src[j as int] < q && src[j + d] < q);
                        }
                    }
                }
            }
            l = l + 1;
            j = j + 1;
        }
        k = k + 1;
        proof {
            assert(l == k * v) by (nonlinear_arith)
                requires
                    l == (k - 1) * v + v,
            ;
        }
    }
    proof {
        assert forall|i: int| 0 <= i < n implies (root ==> (#[trigger] dst@[i] as int) % (q as int) == stage_value(a, w as int, (2 * m) as nat, v as nat, i) % (q as int))
            && (reduced ==> dst@[i] < q) by {
            if i < n_2 {
                assert(pair_done(dst@, a, w as int, q as int, m as nat, v as nat, i, root, reduced));
            } else {
                assert((i - n_2) + m * v == i);
                assert(pair_done(dst@, a, w as int, q as int, m as nat, v as nat, i - n_2, root, reduced));
            }
        }
    }
}

/// A power of two above `1` is even, and halving it keeps it a power of two
/// with one halving fewer.
proof fn lemma_power_of_two_halves(x: nat)
    requires
        is_power_of_two(x),
        x > 1,
    ensures
        x % 2 == 0,
        x == 2 * (x / 2),
        is_power_of_two(x / 2),
        log2(x / 2) + 1 == log2(x),
{
}

/// The inputs on which the transform runs: `n` a power of two, the first `n`
/// entries of `regular_form` as input, and a modulus `q > 0`.
pub open spec fn ntt_shape_ok(regular_form: Seq<u64>, n: usize, q: u64) -> bool {
    &&& is_power_of_two(n as nat)
    &&& n <= regular_form.len()
    &&& q > 0
}

/// Iterative decimation-in-time transform with alternating buffers.
///
/// `ntt_form` is replaced by the `n` coefficients of the transform of
/// `regular_form[0..n]` with root `w`: when `w` is a half-turn root of order
/// `n` modulo `q` and `n` is at most `2^32` (twiddle exponents are taken as
/// `u32`), each is congruent modulo `q` to
/// `sum_j regular_form[j] * w^(j k)`, and equal to its reduction when every
/// input entry is below `q`. For any `w`, `regular_form` is left unchanged,
/// the result is `Ok`, and the outputs are below `q` when the inputs are.
pub fn iter_dit_ntt(
    regular_form: &mut Vec<u64>,
    n: usize,
    q: u64,
    w: u64,
    ntt_form: &mut Vec<u64>,
) -> (r: Result<(), ()>)
    requires
        ntt_shape_ok(old(regular_form)@, n, q),
    ensures
        r is Ok,
        final(regular_form)@ == old(regular_form)@,
        final(ntt_form).len() == n,
        (forall|j: int| 0 <= j < n ==> old(regular_form)[j] < q) ==> forall|k: int| 0 <= k < n ==> #[trigger] final(ntt_form)[k] < q,
        n <= 0x1_0000_0000 && is_half_turn_root(w as int, n as nat, q as int) ==> forall|k: int| 0 <= k < n ==> (#[trigger] final(ntt_form)[k] as int) % (q as int) == dft(old(regular_form)@, w as int, q as int, n as nat, k),
        n <= 0x1_0000_0000 && is_half_turn_root(w as int, n as nat, q as int) && (forall|j: int| 0 <= j < n ==> old(regular_form)[j] < q) ==> forall|k: int| 0 <= k < n ==> #[trigger] final(ntt_form)[k] == dft(old(regular_form)@, w as int, q as int, n as nat, k),
{
    let ghost a = regular_form@;
    let ghost root = n <= 0x1_0000_0000 && is_half_turn_root(w as int, n as nat, q as int);
    let ghost reduced = forall|j: int| 0 <= j < n ==> a[j] < q;
    let mut b: Vec<u64> = Vec::with_capacity(n);
    ntt_form.clear();
    for i in 0..n
        invariant
            regular_form@ == a,
            n <= a.len(),
            ntt_form@ == a.subrange(0, i as int),
            b@ == a.subrange(0, i as int),
    {
        ntt_form.push(regular_form[i]);
        b.push(regular_form[i]);
        proof {
            assert(a.subrange(0, i + 1) == a.subrange(0, i as int).push(a[i as int]));
        }
    }
    let ghost mut cur: Seq<u64> = a.subrange(0, n as int);
    let ghost mut vv: nat = n as nat;
    proof {
        assert forall|i: int| 0 <= i < n implies (#[trigger] cur[i] as int) % (q as int) == stage_value(a, w as int, 1, vv, i) % (q as int) by {
            lemma_stage_initial(a, w as int, n as nat, i);
        }
        if n >= 2 {
            lemma_power_of_two_halves(n as nat);
        }
    }
    let mut v = n / 2;
    let mut m: usize = 1;
    let mut nsi = floor_log2(v) % 2 == 0;
    while m < n
        invariant
            regular_form@ == a,
            ntt_shape_ok(a, n, q),
            root == (n <= 0x1_0000_0000 && is_half_turn_root(w as int, n as nat, q as int)),
            reduced == (forall|j: int| 0 <= j < n ==> a[j] < q),
            m >= 1,
            m * vv == n,
            is_power_of_two(vv),
            v == vv / 2,
            b.len() == n,
            ntt_form.len() == n,
            cur.len() == n,
            root ==> forall|i: int| 0 <= i < n ==> (#[trigger] cur[i] as int) % (q as int) == stage_value(a, w as int, m as nat, vv, i) % (q as int),
            reduced ==> forall|i: int| 0 <= i < n ==> #[trigger] cur[i] < q,
            nsi ==> b@ == cur,
            !nsi ==> ntt_form@ == cur,
            m == 1 ==> b@ == cur && ntt_form@ == cur,
            n >= 2 ==> (nsi <==> log2(vv) % 2 == 1),
        decreases n - m,
    {
        proof {
            if vv <= 1 {
                assert(m * vv <= m) by (nonlinear_arith)
                    requires
                        vv <= 1,
                ;
            }
            lemma_power_of_two_halves(vv);
            assert(n == 2 * m * v && v * m == n / 2 && 2 * m <= n) by (nonlinear_arith)
                requires
                    m * vv == n,
                    vv == 2 * v,
                    v >= 1,
            ;
        }
        if nsi {
            ntt_stage(&b, ntt_form, n, m, v, q, w, Ghost(a), Ghost(root), Ghost(reduced));
            proof {
                cur = ntt_form@;
            }
            nsi = false
        } else {
            ntt_stage(ntt_form, &mut b, n, m, v, q, w, Ghost(a), Ghost(root), Ghost(reduced));
            proof {
                cur = b@;
            }
            nsi = true
        }
        proof {
            assert((2 * m) * v == n) by (nonlinear_arith)
                requires
                    n == 2 * m * v,
            ;
            vv = v as nat;
        }
        v = v / 2;
        m = m * 2;
    }
    proof {
        if vv > 1 {
            assert(m * vv > m) by (nonlinear_arith)
                requires
                    vv > 1,
                    m >= 1,
            ;
        }
        assert(vv == 1 && m == n) by (nonlinear_arith)
            requires
                m * vv == n,
                m >= n,
                vv >= 1,
                vv <= 1,
        ;
        assert forall|k: int| 0 <= k < n implies (root ==> (#[trigger] ntt_form@[k] as int) % (q as int) == dft(a, w as int, q as int, n as nat, k))
            && (root && reduced ==> ntt_form@[k] == dft(a, w as int, q as int, n as nat, k)) && (reduced ==> ntt_form@[k] < q) by {
            lemma_stage_final(a, w as int, n as nat, k);
            if reduced {
                vstd::arithmetic::div_mod::lemma_small_mod(ntt_form@[k] as nat, q as nat);
            }
        }
    }
    Ok(())
}

/// The transform, through `iter_dit_ntt`.
pub fn ct_ntt(
    regular_form: &mut Vec<u64>,
    n: usize,
    q: u64,
    w: u64,
    ntt_form: &mut Vec<u64>,
) -> (r: Result<(), ()>)
    requires
        ntt_shape_ok(old(regular_form)@, n, q),
    ensures
        r is Ok,
        final(regular_form)@ == old(regular_form)@,
        final(ntt_form).len() == n,
        (forall|j: int| 0 <= j < n ==> old(regular_form)[j] < q) ==> forall|k: int| 0 <= k < n ==> #[trigger] final(ntt_form)[k] < q,
        n <= 0x1_0000_0000 && is_half_turn_root(w as int, n as nat, q as int) ==> forall|k: int| 0 <= k < n ==> (#[trigger] final(ntt_form)[k] as int) % (q as int) == dft(old(regular_form)@, w as int, q as int, n as nat, k),
        n <= 0x1_0000_0000 && is_half_turn_root(w as int, n as nat, q as int) && (forall|j: int| 0 <= j < n ==> old(regular_form)[j] < q) ==> forall|k: int| 0 <= k < n ==> #[trigger] final(ntt_form)[k] == dft(old(regular_form)@, w as int, q as int, n as nat, k),
{
    iter_dit_ntt(regular_form, n, q, w, ntt_form)
}

/// The inverse transform: the transform of `ntt_form[0..n]` with root `w_inv`,
/// each coefficient multiplied by `n_inv` modulo `q`, written to
/// `regular_form`; it is the inverse discrete Fourier transform when `w_inv`
/// is a half-turn root of order `n <= 2^32` modulo `q`. For any `w_inv`, `ntt_form`
/// is left unchanged and the result is `Ok`.
pub fn ct_intt(
    ntt_form: &mut Vec<u64>,
    n: usize,
    q: u64,
    w_inv: u64,
    n_inv: u64,
    regular_form: &mut Vec<u64>,
) -> (r: Result<(), ()>)
    requires
        ntt_shape_ok(old(ntt_form)@, n, q),
    ensures
        r is Ok,
        final(ntt_form)@ == old(ntt_form)@,
        final(regular_form).len() == n,
        forall|j: int| 0 <= j < n ==> #[trigger] final(regular_form)[j] < q,
        n <= 0x1_0000_0000 && is_half_turn_root(w_inv as int, n as nat, q as int) ==> forall|j: int| 0 <= j < n ==> #[trigger] final(regular_form)[j] == inverse_dft(old(ntt_form)@, w_inv as int, n_inv as int, q as int, n as nat, j),
{
    ct_ntt(ntt_form, n, q, w_inv, regular_form).unwrap();
    let ghost x = regular_form@;
    let len = regular_form.len();
    for i in 0..len
        invariant
            len == regular_form.len(),
            len == n,
            q > 0,
            n <= 0x1_0000_0000 && is_half_turn_root(w_inv as int, n as nat, q as int) ==> forall|j: int| 0 <= j < n ==> (#[trigger] x[j] as int) % (q as int) == dft(ntt_form@, w_inv as int, q as int, n as nat, j),
            forall|j: int| i <= j < n ==> #[trigger] regular_form@[j] == x[j],
            forall|j: int| 0 <= j < i ==> #[trigger] regular_form@[j] < q,
            n <= 0x1_0000_0000 && is_half_turn_root(w_inv as int, n as nat, q as int) ==> forall|j: int| 0 <= j < i ==> #[trigger] regular_form@[j] == inverse_dft(ntt_form@, w_inv as int, n_inv as int, q as int, n as nat, j),
    {
        let xi = regular_form[i];
        proof {
            vstd::arithmetic::mul::lemma_mul_upper_bound(xi as int, u64::MAX as int, n_inv as int, u64::MAX as int);
            let d = dft_sum(ntt_form@, w_inv as int, n as nat, i as int);
            if n <= 0x1_0000_0000 && is_half_turn_root(w_inv as int, n as nat, q as int) {
                lemma_mod_twice(d, q as int);
                lemma_cong_mul(xi as int, n_inv as int, d, n_inv as int, q as int);
            }
        }
        let r: u128 = (xi as u128 * n_inv as u128) % q as u128;
        regular_form.set(i, r as u64);
    }
    Ok(())
}

} // verus!
