//! Gadget products: each input polynomial is decomposed into digits, every
//! digit multiplies a key polynomial, and the products are accumulated into
//! the output polynomials. The external product of a GGSW ciphertext with a
//! GLWE ciphertext and the key switch are both of this form.
use vstd::prelude::*;
use vstd::arithmetic::div_mod::*;
use crate::math::polynomial::polynomial::{
    decomposable, decompose_polynomial, decomposition, poly_mul, reduce, views, zero_poly, Polynomial, Q,
};
use crate::math::summation::sum;
use crate::tfhe::layout::{poly_at, read_poly};

verus! {

/// Index of the key polynomial that digit `t` of input `g` multiplies for
/// output polynomial `p`, when there are `k_out + 1` outputs and `glev_l`
/// digits.
pub open spec fn key_index(k_out: nat, glev_l: nat, g: int, t: int, p: int) -> int {
    g * (glev_l * (k_out + 1)) + t * (k_out + 1) + p
}

/// Digit `t` of input `g` times its key polynomial for output `p`.
pub open spec fn gadget_term(
    key: Seq<u64>,
    inputs: Seq<Seq<u64>>,
    k_out: nat,
    n: nat,
    glwe_q: nat,
    glev_l: nat,
    glev_b: nat,
    g: int,
    t: int,
    p: int,
) -> Seq<u64> {
    poly_mul(
        decomposition(glwe_q, glev_l, glev_b, inputs[g])[t],
        poly_at(key, key_index(k_out, glev_l, g, t, p), n),
    )
}

/// Coefficient `c` of output `p` summed over the digits of inputs `0..g`.
pub open spec fn gadget_rows(
    key: Seq<u64>,
    inputs: Seq<Seq<u64>>,
    k_out: nat,
    n: nat,
    glwe_q: nat,
    glev_l: nat,
    glev_b: nat,
    g: nat,
    p: int,
    c: int,
) -> int {
    sum(
        |gg: int|
            sum(
                |t: int| gadget_term(key, inputs, k_out, n, glwe_q, glev_l, glev_b, gg, t, p)[c] as int,
                glev_l,
            ),
        g,
    )
}

/// The `k_out + 1` output polynomials: coefficient `c` of output `p` is the
/// sum, modulo the prime `Q + 1`, of coefficient `c` of every term for
/// output `p`.
pub open spec fn gadget_product(
    key: Seq<u64>,
    inputs: Seq<Seq<u64>>,
    k_out: nat,
    n: nat,
    glwe_q: nat,
    glev_l: nat,
    glev_b: nat,
) -> Seq<Seq<u64>> {
    Seq::new(
        k_out + 1,
        |p: int| Seq::new(n, |c: int| reduce(gadget_rows(key, inputs, k_out, n, glwe_q, glev_l, glev_b, inputs.len(), p, c))),
    )
}

/// The accumulator of output `p` after inputs `0..g` and digits `0..t` of
/// input `g`.
spec fn partial_acc(
    key: Seq<u64>,
    inputs: Seq<Seq<u64>>,
    k_out: nat,
    n: nat,
    glwe_q: nat,
    glev_l: nat,
    glev_b: nat,
    g: nat,
    t: nat,
    p: int,
) -> Seq<u64> {
    Seq::new(
        n,
        |c: int|
            reduce(
                gadget_rows(key, inputs, k_out, n, glwe_q, glev_l, glev_b, g, p, c) + sum(
                    |tt: int| gadget_term(key, inputs, k_out, n, glwe_q, glev_l, glev_b, g as int, tt, p)[c] as int,
                    t,
                ),
            ),
    )
}

/// The key polynomial of digit `t` of input `g` for output `p` lies inside
/// a key of `inputs * glev_l * (k_out + 1)` polynomials.
pub(crate) proof fn lemma_key_index_bound(k_out: nat, glev_l: nat, n: nat, inputs: nat, g: int, t: int, p: int)
    requires
        0 <= g < inputs,
        0 <= t < glev_l,
        0 <= p <= k_out,
        n >= 1,
    ensures
        glev_l * (k_out + 1) <= inputs * (glev_l * (k_out + 1)) * n,
        g * (glev_l * (k_out + 1)) + t * (k_out + 1) + p <= inputs * (glev_l * (k_out + 1)) * n,
        0 <= key_index(k_out, glev_l, g, t, p),
        key_index(k_out, glev_l, g, t, p) < inputs * (glev_l * (k_out + 1)),
        key_index(k_out, glev_l, g, t, p) * n + n <= inputs * (glev_l * (k_out + 1)) * n,
        g * (glev_l * (k_out + 1)) <= inputs * (glev_l * (k_out + 1)),
        t * (k_out + 1) < glev_l * (k_out + 1),
{
    let w = k_out + 1;
    assert(t * w + p < glev_l * w) by (nonlinear_arith)
        requires
            0 <= t < glev_l,
            0 <= p < w,
    ;
    assert(t * w < glev_l * w) by (nonlinear_arith)
        requires
            0 <= t < glev_l,
            0 < w,
    ;
    assert(g * (glev_l * w) + glev_l * w <= inputs * (glev_l * w)) by (nonlinear_arith)
        requires
            0 <= g < inputs,
            0 <= glev_l * w,
    ;
    assert(0 <= g * (glev_l * w) && 0 <= t * w) by (nonlinear_arith)
        requires
            0 <= g,
            0 <= t,
            0 < w,
    ;
    let idx = key_index(k_out, glev_l, g, t, p);
    assert(idx * n + n <= inputs * (glev_l * w) * n) by (nonlinear_arith)
        requires
            0 <= idx < inputs * (glev_l * w),
    ;
    assert(glev_l * w <= inputs * (glev_l * w) * n) by (nonlinear_arith)
        requires
            1 <= inputs,
            1 <= n,
            0 <= glev_l * w,
    ;
    assert(idx <= inputs * (glev_l * w) * n) by (nonlinear_arith)
        requires
            0 <= idx < inputs * (glev_l * w),
            1 <= n,
    ;
}

/// Decomposes each input polynomial and accumulates digit times key
/// polynomial into the `k_out + 1` outputs, modulo the prime `Q + 1`.
pub fn gadget_accumulate(
    key: &Vec<u64>,
    inputs: &Vec<Polynomial>,
    k_out: usize,
    n: usize,
    glwe_q: usize,
    glev_l: usize,
    glev_b: usize,
) -> (r: Vec<Polynomial>)
    requires
        n == 1 || n == 256,
        decomposable(glwe_q, glev_l, glev_b),
        k_out < usize::MAX,
        forall|g: int| 0 <= g < inputs@.len() ==> (#[trigger] inputs@[g])@.len() == n,
        inputs@.len() * (glev_l * (k_out + 1)) * n <= key@.len(),
    ensures
        views(r@) == gadget_product(key@, views(inputs@), k_out as nat, n as nat, glwe_q as nat, glev_l as nat, glev_b as nat),
{
    let ghost kd = key@;
    let ghost ins = views(inputs@);
    let ghost ko = k_out as nat;
    let ghost nn = n as nat;
    let ghost gq = glwe_q as nat;
    let ghost gl = glev_l as nat;
    let ghost gb = glev_b as nat;
    let total = key.len();
    let count = inputs.len();
    let mut acc: Vec<Polynomial> = Vec::with_capacity(k_out + 1);
    let mut p: usize = 0;
    while p <= k_out
        invariant
            p <= k_out + 1,
            k_out < usize::MAX,
            acc@.len() == p,
            forall|pp: int| 0 <= pp < p ==> (#[trigger] acc@[pp])@ == zero_poly(n as nat),
        decreases k_out + 1 - p,
    {
        acc.push(Polynomial::new_zero(n));
        p = p + 1;
    }
    proof {
        assert forall|pp: int| 0 <= pp <= k_out implies (#[trigger] acc@[pp])@ == partial_acc(kd, ins, ko, nn, gq, gl, gb, 0, 0, pp) by {
            assert forall|c: int| 0 <= c < nn implies #[trigger] partial_acc(kd, ins, ko, nn, gq, gl, gb, 0, 0, pp)[c] == 0 by {
                lemma_small_mod(0, (Q + 1) as nat);
            }
            assert(acc@[pp]@ =~= partial_acc(kd, ins, ko, nn, gq, gl, gb, 0, 0, pp));
        }
    }
    let mut g: usize = 0;
    while g < count
        invariant
            g <= count,
            count == inputs@.len(),
            total == key@.len(),
            kd == key@,
            ins == views(inputs@),
            ko == k_out,
            nn == n,
            gq == glwe_q,
            gl == glev_l,
            gb == glev_b,
            n == 1 || n == 256,
            decomposable(glwe_q, glev_l, glev_b),
            k_out < usize::MAX,
            forall|gg: int| 0 <= gg < inputs@.len() ==> (#[trigger] inputs@[gg])@.len() == n,
            count * (glev_l * (k_out + 1)) * n <= key@.len(),
            acc@.len() == k_out + 1,
            forall|pp: int| 0 <= pp <= k_out ==> (#[trigger] acc@[pp])@ == partial_acc(kd, ins, ko, nn, gq, gl, gb, g as nat, 0, pp),
        decreases count - g,
    {
        let dec = decompose_polynomial(glwe_q, glev_l, glev_b, inputs[g].clone());
        proof {
            assert(ins[g as int] == inputs@[g as int]@);
            assert(views(dec@).len() == dec@.len());
            assert(decomposition(gq, gl, gb, ins[g as int]).len() == gl);
        }
        let mut t: usize = 0;
        while t < glev_l
            invariant
                g < count,
                t <= glev_l,
                count == inputs@.len(),
                total == key@.len(),
                kd == key@,
                ins == views(inputs@),
                ko == k_out,
                nn == n,
                gq == glwe_q,
                gl == glev_l,
                gb == glev_b,
                n == 1 || n == 256,
                k_out < usize::MAX,
                forall|gg: int| 0 <= gg < inputs@.len() ==> (#[trigger] inputs@[gg])@.len() == n,
                count * (glev_l * (k_out + 1)) * n <= key@.len(),
                views(dec@) == decomposition(gq, gl, gb, ins[g as int]),
                dec@.len() == glev_l,
                acc@.len() == k_out + 1,
                forall|pp: int| 0 <= pp <= k_out ==> (#[trigger] acc@[pp])@ == partial_acc(kd, ins, ko, nn, gq, gl, gb, g as nat, t as nat, pp),
            decreases glev_l - t,
        {
            let mut q: usize = 0;
            while q <= k_out
                invariant
                    g < count,
                    t < glev_l,
                    q <= k_out + 1,
                    count == inputs@.len(),
                    total == key@.len(),
                    kd == key@,
                    ins == views(inputs@),
                    ko == k_out,
                    nn == n,
                    gq == glwe_q,
                    gl == glev_l,
                    gb == glev_b,
                    n == 1 || n == 256,
                    k_out < usize::MAX,
                    forall|gg: int| 0 <= gg < inputs@.len() ==> (#[trigger] inputs@[gg])@.len() == n,
                    count * (glev_l * (k_out + 1)) * n <= key@.len(),
                    views(dec@) == decomposition(gq, gl, gb, ins[g as int]),
                    dec@.len() == glev_l,
                    acc@.len() == k_out + 1,
                    forall|pp: int| 0 <= pp < q ==> (#[trigger] acc@[pp])@ == partial_acc(kd, ins, ko, nn, gq, gl, gb, g as nat, (t + 1) as nat, pp),
                    forall|pp: int| q <= pp <= k_out ==> (#[trigger] acc@[pp])@ == partial_acc(kd, ins, ko, nn, gq, gl, gb, g as nat, t as nat, pp),
                decreases k_out + 1 - q,
            {
                proof {
                    lemma_key_index_bound(ko, gl, nn, count as nat, g as int, t as int, q as int);
                }
                let offset_glev = g * (glev_l * (k_out + 1));
                let offset_glwe = t * (k_out + 1);
                let key_poly = read_poly(key, offset_glev + offset_glwe + q, n);
                proof {
                    assert(views(dec@)[t as int] == dec@[t as int]@);
                    assert(dec@[t as int]@ == decomposition(gq, gl, gb, ins[g as int])[t as int]);
                    assert(dec@[t as int]@.len() == n);
                }
                let prod = dec[t].mul(&key_poly);
                let sum_poly = acc[q].add_mod_q(&prod);
                proof {
                    let pq = q as int;
                    let term = gadget_term(kd, ins, ko, nn, gq, gl, gb, g as int, t as int, pq);
                    assert(prod@ == term);
                    assert forall|c: int| 0 <= c < nn implies #[trigger] sum_poly@[c] == partial_acc(kd, ins, ko, nn, gq, gl, gb, g as nat, (t + 1) as nat, pq)[c] by {
                        let rows = gadget_rows(kd, ins, ko, nn, gq, gl, gb, g as nat, pq, c);
                        let f = |tt: int| gadget_term(kd, ins, ko, nn, gq, gl, gb, g as int, tt, pq)[c] as int;
                        assert(sum(f, (t + 1) as nat) == sum(f, t as nat) + f(t as int));
                        lemma_add_mod_noop(rows + sum(f, t as nat), term[c] as int, (Q + 1) as int);
                        lemma_small_mod(term[c] as nat, (Q + 1) as nat);
                        lemma_mod_twice(rows + sum(f, t as nat), (Q + 1) as int);
                    }
                    assert(sum_poly@ =~= partial_acc(kd, ins, ko, nn, gq, gl, gb, g as nat, (t + 1) as nat, pq));
                }
                acc.set(q, sum_poly);
                q = q + 1;
            }
            t = t + 1;
        }
        proof {
            assert forall|pp: int| 0 <= pp <= k_out implies (#[trigger] acc@[pp])@ == partial_acc(kd, ins, ko, nn, gq, gl, gb, (g + 1) as nat, 0, pp) by {
                assert forall|c: int| 0 <= c < nn implies #[trigger] acc@[pp]@[c] == partial_acc(kd, ins, ko, nn, gq, gl, gb, (g + 1) as nat, 0, pp)[c] by {
                    let row = |gg: int| sum(|tt: int| gadget_term(kd, ins, ko, nn, gq, gl, gb, gg, tt, pp)[c] as int, gl);
                    assert(sum(row, (g + 1) as nat) == sum(row, g as nat) + row(g as int));
                }
                assert(acc@[pp]@ =~= partial_acc(kd, ins, ko, nn, gq, gl, gb, (g + 1) as nat, 0, pp));
            }
        }
        g = g + 1;
    }
    proof {
        assert forall|pp: int| 0 <= pp <= k_out implies #[trigger] views(acc@)[pp] == gadget_product(kd, ins, ko, nn, gq, gl, gb)[pp] by {
            assert(acc@[pp]@ =~= gadget_product(kd, ins, ko, nn, gq, gl, gb)[pp]);
        }
        assert(views(acc@) =~= gadget_product(kd, ins, ko, nn, gq, gl, gb));
    }
    acc
}

} // verus!
