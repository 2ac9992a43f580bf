//! Addition, subtraction and multiplication of residues modulo `q`.
use vstd::prelude::*;

verus! {

/// What `mod_sum` returns: `a + b`, minus `q` when `a` reaches `q - b`.
pub open spec fn spec_mod_sum(a: u64, b: u64, q: u64) -> int {
    if a >= q - b {
        a + b - q
    } else {
        a + b
    }
}

/// What `mod_sub` returns: `a - b`, plus `q` when `a` is below `b`.
pub open spec fn spec_mod_sub(a: u64, b: u64, q: u64) -> int {
    if a >= b {
        a - b
    } else {
        a + (q - b)
    }
}

/// Sum of `a` and `b` modulo `q`.
///
/// On reduced inputs (`a, b < q`) the result is `(a + b) % q`; on any input it
/// is congruent to `a + b` modulo `q`.
pub fn mod_sum(a: u64, b: u64, q: u64) -> (r: u64)
    requires
        b <= q,
    ensures
        r == spec_mod_sum(a, b, q),
        q > 0 ==> (r as int) % (q as int) == (a + b) % (q as int),
        a < q && b < q ==> r == (a + b) % (q as int),
{
    let neg_b = q - b;
    proof {
        lemma_mod_sum_props(a, b, q);
    }
    if a >= neg_b {
        a - neg_b
    } else {
        a + b
    }
}

/// Difference of `a` and `b` modulo `q`.
///
/// On reduced inputs the result is `(a - b) mod q` in `[0, q)`; on any input it
/// is congruent to `a - b` modulo `q`.
pub fn mod_sub(a: u64, b: u64, q: u64) -> (r: u64)
    requires
        b <= q,
    ensures
        r == spec_mod_sub(a, b, q),
        q > 0 ==> (r as int) % (q as int) == (a - b) % (q as int),
        a < q && b < q ==> r == (a - b) % (q as int),
{
    let neg_b = q - b;
    proof {
        lemma_mod_sub_props(a, b, q);
    }
    if a >= b {
        a - b
    } else {
        a + neg_b
    }
}

/// Product of `a` and `b` modulo `m`, computed in 128 bits.
pub fn mod_mul(a: u64, b: u64, m: u64) -> (r: u64)
    requires
        m > 0,
    ensures
        r == (a * b) % (m as int),
        r < m,
{
    proof {
        vstd::arithmetic::mul::lemma_mul_upper_bound(a as int, u64::MAX as int, b as int, u64::MAX as int);
    }
    let c: u128 = (a as u128 * b as u128) % m as u128;
    c as u64
}

/// `spec_mod_sum` is a machine word congruent to `a + b` modulo `q`, and
/// the reduced sum when both operands are below `q`.
pub proof fn lemma_mod_sum_props(a: u64, b: u64, q: u64)
    requires
        b <= q,
    ensures
        spec_mod_sum(a, b, q) >= 0,
        spec_mod_sum(a, b, q) <= u64::MAX,
        q > 0 ==> spec_mod_sum(a, b, q) % (q as int) == (a + b) % (q as int),
        a < q && b < q ==> spec_mod_sum(a, b, q) == (a + b) % (q as int),
{
    if q > 0 {
        if a >= q - b {
            vstd::arithmetic::div_mod::lemma_mod_sub_multiples_vanish((a + b) as int, q as int);
        }
        if a < q && b < q {
            if a >= q - b {
                vstd::arithmetic::div_mod::lemma_small_mod((a + b - q) as nat, q as nat);
            } else {
                vstd::arithmetic::div_mod::lemma_small_mod((a + b) as nat, q as nat);
            }
        }
    }
}

proof fn lemma_mod_sub_props(a: u64, b: u64, q: u64)
    requires
        b <= q,
    ensures
        spec_mod_sub(a, b, q) >= 0,
        spec_mod_sub(a, b, q) <= u64::MAX,
        q > 0 ==> spec_mod_sub(a, b, q) % (q as int) == (a - b) % (q as int),
        a < q && b < q ==> spec_mod_sub(a, b, q) == (a - b) % (q as int),
{
    if q > 0 {
        if a < b {
            vstd::arithmetic::div_mod::lemma_mod_add_multiples_vanish((a - b) as int, q as int);
        }
        if a < q && b < q {
            if a >= b {
                vstd::arithmetic::div_mod::lemma_small_mod((a - b) as nat, q as nat);
            } else {
                vstd::arithmetic::div_mod::lemma_small_mod((a + q - b) as nat, q as nat);
            }
        }
    }
}

} // verus!
