//! The controlled multiplexer: selects one of two GLWE ciphertexts under an
//! encrypted condition.
use vstd::prelude::*;
use crate::math::polynomial::polynomial::decomposable;
use crate::tfhe::ggsw::ggsw::{external_product, GGSWCiphertext};
use crate::tfhe::glwe::glwe::{glwe_add, glwe_add_mod, glwe_sub, GLWECiphertext, ADD_MODULUS};
use crate::tfhe::schemas::{LWE_CT_Params, TFHESchema};
use crate::math::modular::mod_arith::{lemma_mod_sum_props, spec_mod_sum};
use crate::math::polynomial::polynomial::{poly_add_q, Q};
use crate::tfhe::ggsw::product_phase::phase_of_congruent;
use crate::tfhe::secret_key::secret_key::{glwe_phase, phase_of_sum};

verus! {

/// What `cmux` computes: the external product of the condition with
/// `if_true - if_false`, with `if_false` added back by `mod_sum`.
pub open spec fn cmux_result(
    cond: Seq<u64>,
    if_true: Seq<u64>,
    if_false: Seq<u64>,
    k: nat,
    n: nat,
    glwe_q: nat,
    glev_l: nat,
    glev_b: nat,
) -> Seq<u64> {
    glwe_add_mod(
        external_product(cond, glwe_sub(if_true, if_false, (k + 1) * n), k, n, glwe_q, glev_l, glev_b),
        if_false,
        (k + 1) * n,
    )
}

/// The conditions under which `cmux` can run: the sizes of the ciphertexts
/// and of the decomposition, and `if_false` small enough for `mod_sum`.
pub open spec fn cmux_ready<S: TFHESchema, P: LWE_CT_Params<S>>(
    cond: Seq<u64>,
    if_true: Seq<u64>,
    if_false: Seq<u64>,
) -> bool {
    &&& P::POLINOMIAL_SIZE == 1 || P::POLINOMIAL_SIZE == 256
    &&& decomposable(S::GLWE_Q, S::GLEV_L, S::GLEV_B)
    &&& P::MASK_SIZE < usize::MAX
    &&& (P::MASK_SIZE + 1) * P::POLINOMIAL_SIZE <= if_true.len()
    &&& (P::MASK_SIZE + 1) * P::POLINOMIAL_SIZE <= if_false.len()
    &&& (P::MASK_SIZE + 1) * (S::GLEV_L * (P::MASK_SIZE + 1)) * P::POLINOMIAL_SIZE <= cond.len()
}

/// Selects `if_true` when `cond` encrypts `1` and `if_false` when it encrypts
/// `0`: `cond * (if_true - if_false) + if_false`, the final sum by `mod_sum`.
pub fn cmux<S: TFHESchema, P: LWE_CT_Params<S>>(
    cond: &GGSWCiphertext<S, P>,
    if_true: &GLWECiphertext<S, P>,
    if_false: &GLWECiphertext<S, P>,
) -> (r: GLWECiphertext<S, P>)
    requires
        cmux_ready::<S, P>(cond@, if_true@, if_false@),
        forall|i: int| 0 <= i < (P::MASK_SIZE + 1) * P::POLINOMIAL_SIZE ==> #[trigger] if_false@[i] <= ADD_MODULUS,
    ensures
        r@ == cmux_result(
            cond@,
            if_true@,
            if_false@,
            P::MASK_SIZE as nat,
            P::POLINOMIAL_SIZE as nat,
            S::GLWE_Q as nat,
            S::GLEV_L as nat,
            S::GLEV_B as nat,
        ),
{
    let diff = if_true.sub(if_false);
    let mut mul = cond.mul(&diff);
    proof {
        lemma_external_product_len::<S, P>(cond@, diff@);
    }
    mul.add_assign(if_false);
    mul
}

/// The external product has `(MASK_SIZE + 1) * POLINOMIAL_SIZE` coefficients.
proof fn lemma_external_product_len<S: TFHESchema, P: LWE_CT_Params<S>>(cond: Seq<u64>, glwe: Seq<u64>)
    ensures
        external_product(
            cond,
            glwe,
            P::MASK_SIZE as nat,
            P::POLINOMIAL_SIZE as nat,
            S::GLWE_Q as nat,
            S::GLEV_L as nat,
            S::GLEV_B as nat,
        ).len() == (P::MASK_SIZE + 1) * P::POLINOMIAL_SIZE,
{
    let k = P::MASK_SIZE as nat;
    let n = P::POLINOMIAL_SIZE as nat;
    let ps = crate::tfhe::gadget::gadget_product(
        cond,
        crate::tfhe::layout::polys(glwe, k + 1, n),
        k,
        n,
        S::GLWE_Q as nat,
        S::GLEV_L as nat,
        S::GLEV_B as nat,
    );
    assert(crate::tfhe::layout::uniform(ps, n));
    crate::tfhe::layout::lemma_join_uniform(ps, n);
}

/// `cmux_result` keeps the length of `cmux`'s inputs: `(k + 1) * n`.
pub proof fn lemma_cmux_result_len(
    cond: Seq<u64>,
    if_true: Seq<u64>,
    if_false: Seq<u64>,
    k: nat,
    n: nat,
    glwe_q: nat,
    glev_l: nat,
    glev_b: nat,
)
    ensures
        cmux_result(cond, if_true, if_false, k, n, glwe_q, glev_l, glev_b).len() == (k + 1) * n,
{
    let ps = crate::tfhe::gadget::gadget_product(
        cond,
        crate::tfhe::layout::polys(glwe_sub(if_true, if_false, (k + 1) * n), k + 1, n),
        k,
        n,
        glwe_q,
        glev_l,
        glev_b,
    );
    assert(crate::tfhe::layout::uniform(ps, n));
    crate::tfhe::layout::lemma_join_uniform(ps, n);
}

/// Every coefficient of an external product is below `ADD_MODULUS`: each
/// polynomial of it is reduced modulo `ADD_MODULUS`.
proof fn lemma_external_product_reduced(
    cond: Seq<u64>,
    glwe: Seq<u64>,
    k: nat,
    n: nat,
    glwe_q: nat,
    glev_l: nat,
    glev_b: nat,
)
    requires
        n > 0,
    ensures
        external_product(cond, glwe, k, n, glwe_q, glev_l, glev_b).len() == (k + 1) * n,
        forall|i: int| 0 <= i < (k + 1) * n ==> #[trigger] external_product(cond, glwe, k, n, glwe_q, glev_l, glev_b)[i] < ADD_MODULUS,
{
    let ps = crate::tfhe::gadget::gadget_product(
        cond,
        crate::tfhe::layout::polys(glwe, k + 1, n),
        k,
        n,
        glwe_q,
        glev_l,
        glev_b,
    );
    assert(crate::tfhe::layout::uniform(ps, n));
    crate::tfhe::layout::lemma_join_uniform(ps, n);
    let e = crate::tfhe::layout::join(ps);
    assert forall|i: int| 0 <= i < (k + 1) * n implies #[trigger] e[i] < ADD_MODULUS by {
        let p = i / (n as int);
        let c = i % (n as int);
        vstd::arithmetic::div_mod::lemma_fundamental_div_mod(i, n as int);
        vstd::arithmetic::div_mod::lemma_div_pos_is_pos(i, n as int);
        vstd::arithmetic::div_mod::lemma_mod_pos_bound(i, n as int);
        assert(p * (n as int) + c == i && 0 <= p < k + 1) by (nonlinear_arith)
            requires
                i == (n as int) * p + c,
                0 <= c < n,
                0 <= p,
                i < (k + 1) * n,
        ;
        assert(ps[p].len() == n);
        assert(e[p * (n as int) + c] == ps[p][c]);
    }
}

/// Every coefficient of `cmux_result` is below `ADD_MODULUS` when those of
/// `if_false` are at most `ADD_MODULUS`: the external product is reduced
/// modulo `ADD_MODULUS`, and `mod_sum` keeps the sum below it.
pub proof fn lemma_cmux_result_reduced(
    cond: Seq<u64>,
    if_true: Seq<u64>,
    if_false: Seq<u64>,
    k: nat,
    n: nat,
    glwe_q: nat,
    glev_l: nat,
    glev_b: nat,
)
    requires
        n > 0,
        forall|i: int| 0 <= i < (k + 1) * n ==> #[trigger] if_false[i] <= ADD_MODULUS,
    ensures
        forall|i: int| 0 <= i < (k + 1) * n ==> #[trigger] cmux_result(cond, if_true, if_false, k, n, glwe_q, glev_l, glev_b)[i] < ADD_MODULUS,
{
    let e = external_product(cond, glwe_sub(if_true, if_false, (k + 1) * n), k, n, glwe_q, glev_l, glev_b);
    lemma_external_product_reduced(cond, glwe_sub(if_true, if_false, (k + 1) * n), k, n, glwe_q, glev_l, glev_b);
    assert forall|i: int| 0 <= i < (k + 1) * n implies #[trigger] cmux_result(cond, if_true, if_false, k, n, glwe_q, glev_l, glev_b)[i] < ADD_MODULUS by {
        assert(e[i] < ADD_MODULUS);
    }
}

/// On an `if_false` whose coefficients are reduced, `cmux` and `cmux_` give
/// the same ciphertext: adding `if_false` back by `mod_sum` is then the sum
/// modulo `Q + 1`.
pub proof fn cmux_agrees_with_traced_cmux(
    cond: Seq<u64>,
    if_true: Seq<u64>,
    if_false: Seq<u64>,
    k: nat,
    n: nat,
    glwe_q: nat,
    glev_l: nat,
    glev_b: nat,
)
    requires
        n > 0,
        forall|i: int| 0 <= i < (k + 1) * n ==> #[trigger] if_false[i] < ADD_MODULUS,
    ensures
        cmux_result(cond, if_true, if_false, k, n, glwe_q, glev_l, glev_b) == glwe_add(
            external_product(cond, glwe_sub(if_true, if_false, (k + 1) * n), k, n, glwe_q, glev_l, glev_b),
            if_false,
            (k + 1) * n,
        ),
{
    let len = (k + 1) * n;
    let e = external_product(cond, glwe_sub(if_true, if_false, len), k, n, glwe_q, glev_l, glev_b);
    lemma_external_product_reduced(cond, glwe_sub(if_true, if_false, len), k, n, glwe_q, glev_l, glev_b);
    let r = cmux_result(cond, if_true, if_false, k, n, glwe_q, glev_l, glev_b);
    let s = glwe_add(e, if_false, len);
    assert forall|i: int| 0 <= i < len implies #[trigger] r[i] == s[i] by {
        lemma_mod_sum_props(e[i], if_false[i], ADD_MODULUS);
    }
    assert(r =~= s);
}

/// `cmux` that also returns the intermediate ciphertexts, each with its name:
/// `if_true`, `if_false`, their difference, the external product and the
/// result; the final sum is taken modulo the prime `Q + 1`.
pub fn cmux_<S: TFHESchema, P: LWE_CT_Params<S>>(
    cond: &GGSWCiphertext<S, P>,
    if_true: &GLWECiphertext<S, P>,
    if_false: &GLWECiphertext<S, P>,
) -> (r: (GLWECiphertext<S, P>, Vec<(String, GLWECiphertext<S, P>)>))
    requires
        cmux_ready::<S, P>(cond@, if_true@, if_false@),
    ensures
        r.0@ == glwe_add(
            external_product(
                cond@,
                glwe_sub(if_true@, if_false@, ((P::MASK_SIZE + 1) * P::POLINOMIAL_SIZE) as nat),
                P::MASK_SIZE as nat,
                P::POLINOMIAL_SIZE as nat,
                S::GLWE_Q as nat,
                S::GLEV_L as nat,
                S::GLEV_B as nat,
            ),
            if_false@,
            ((P::MASK_SIZE + 1) * P::POLINOMIAL_SIZE) as nat,
        ),
        r.1@.len() == 5,
        r.1@[0].0@ == "if_true"@ && r.1@[0].1@ == if_true@,
        r.1@[1].0@ == "if_false"@ && r.1@[1].1@ == if_false@,
        r.1@[2].0@ == "diff"@ && r.1@[2].1@ == glwe_sub(if_true@, if_false@, ((P::MASK_SIZE + 1) * P::POLINOMIAL_SIZE) as nat),
        r.1@[3].0@ == "mul"@ && r.1@[3].1@ == external_product(
            cond@,
            glwe_sub(if_true@, if_false@, ((P::MASK_SIZE + 1) * P::POLINOMIAL_SIZE) as nat),
            P::MASK_SIZE as nat,
            P::POLINOMIAL_SIZE as nat,
            S::GLWE_Q as nat,
            S::GLEV_L as nat,
            S::GLEV_B as nat,
        ),
        r.1@[4].0@ == "res"@ && r.1@[4].1@ == r.0@,
{
    let mut cts: Vec<(String, GLWECiphertext<S, P>)> = Vec::new();
    cts.push(("if_true".to_owned(), if_true.clone()));
    cts.push(("if_false".to_owned(), if_false.clone()));
    let diff = if_true.sub(if_false);
    cts.push(("diff".to_owned(), diff.clone()));
    let mul = cond.mul(&diff);
    proof {
        lemma_external_product_len::<S, P>(cond@, diff@);
    }
    cts.push(("mul".to_owned(), mul.clone()));
    let res = mul.add(if_false);
    cts.push(("res".to_owned(), res.clone()));
    (res, cts)
}

/// `cmux` adds `if_false` back to the external product: the result
/// decrypts to what the external product of the condition with
/// `if_true - if_false` decrypts to, plus what `if_false` decrypts to, modulo
/// the prime `Q + 1` (`external_product_phase` says what the first term is).
pub proof fn cmux_phase(
    cond: Seq<u64>,
    if_true: Seq<u64>,
    if_false: Seq<u64>,
    key: Seq<u64>,
    k: nat,
    n: nat,
    glwe_q: nat,
    glev_l: nat,
    glev_b: nat,
)
    requires
        n > 0,
        (k + 1) * n <= if_true.len(),
        (k + 1) * n <= if_false.len(),
        k * n <= key.len(),
        forall|i: int| 0 <= i < (k + 1) * n ==> #[trigger] if_false[i] <= ADD_MODULUS,
    ensures
        glwe_phase(cmux_result(cond, if_true, if_false, k, n, glwe_q, glev_l, glev_b), key, k, n) == poly_add_q(
            glwe_phase(external_product(cond, glwe_sub(if_true, if_false, (k + 1) * n), k, n, glwe_q, glev_l, glev_b), key, k, n),
            glwe_phase(if_false, key, k, n),
        ),
{
    let len = (k + 1) * n;
    let e = external_product(cond, glwe_sub(if_true, if_false, len), k, n, glwe_q, glev_l, glev_b);
    lemma_cmux_result_len(cond, if_true, if_false, k, n, glwe_q, glev_l, glev_b);
    let ps = crate::tfhe::gadget::gadget_product(
        cond,
        crate::tfhe::layout::polys(glwe_sub(if_true, if_false, len), k + 1, n),
        k,
        n,
        glwe_q,
        glev_l,
        glev_b,
    );
    assert(crate::tfhe::layout::uniform(ps, n));
    crate::tfhe::layout::lemma_join_uniform(ps, n);
    assert(e.len() == len);
    let r = cmux_result(cond, if_true, if_false, k, n, glwe_q, glev_l, glev_b);
    let s = glwe_add(e, if_false, len);
    assert forall|i: int| 0 <= i < len implies (#[trigger] r[i] as int) % (Q + 1) == (s[i] as int) % (Q + 1) by {
        lemma_mod_sum_props(e[i], if_false[i], ADD_MODULUS);
        vstd::arithmetic::div_mod::lemma_mod_twice(e[i] + if_false[i], Q + 1);
    }
    phase_of_congruent(r, s, key, k, n);
    phase_of_sum(e, if_false, key, k, n);
}

} // verus!
