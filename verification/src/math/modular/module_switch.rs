//! Rounding division and switching a residue from one modulus to another.
use vstd::prelude::*;
use vstd::arithmetic::div_mod::*;

verus! {

/// `dividend + divisor / 2` as `wrapping_add` computes it in 128 bits.
pub open spec fn wrapped_half_up(dividend: u128, divisor: u128) -> int {
    if dividend + divisor / 2 > u128::MAX {
        dividend + divisor / 2 - 0x1_0000_0000_0000_0000_0000_0000_0000_0000
    } else {
        dividend + divisor / 2
    }
}

/// Division rounded to the nearest integer: `(dividend + divisor / 2) / divisor`,
/// with the addition wrapping around at `2^128`.
pub fn rounded_div(dividend: u128, divisor: u128) -> (r: u128)
    requires
        divisor > 0,
    ensures
        r == wrapped_half_up(dividend, divisor) / (divisor as int),
{
    let s = dividend.wrapping_add(divisor / 2);
    proof {
        assert(s == wrapped_half_up(dividend, divisor));
    }
    s / divisor
}

/// The value that `mod_switch` computes before the final cast to `u64`:
/// `a` scaled from `old_q` to `new_q`, rounded down.
pub open spec fn switched(a: u64, old_q: u128, new_q: u128) -> int {
    (a * new_q) / (old_q as int)
}

/// Switches `a` from modulus `old_q` to modulus `new_q`: `a * new_q / old_q`,
/// truncated to its low 64 bits.
pub fn mod_switch(a: u64, old_q: u128, new_q: u128) -> (r: u64)
    requires
        old_q > 0,
        a * new_q <= u128::MAX,
    ensures
        r == switched(a, old_q, new_q) % 0x1_0000_0000_0000_0000,
{
    let nv: u128 = a as u128 * new_q / old_q;
    proof {
        assert(nv as u64 == nv % 0x1_0000_0000_0000_0000) by (bit_vector);
    }
    nv as u64
}

/// Switching to a smaller modulus and back loses little: for
/// `0 < new_q <= old_q <= 2^64`, the value `back` obtained by switching `a`
/// from `old_q` to `new_q` and the result back to `old_q` is at most `a`, and
/// `(a - back) * new_q < old_q + new_q`.
pub proof fn switch_round_trip(a: u64, old_q: u128, new_q: u128)
    requires
        0 < new_q <= old_q,
        old_q <= 0x1_0000_0000_0000_0000,
    ensures
        ({
            let down = switched(a, old_q, new_q) % 0x1_0000_0000_0000_0000;
            let back = switched(down as u64, new_q, old_q) % 0x1_0000_0000_0000_0000;
            back <= a && (a - back) * new_q < old_q + new_q
        }),
{
    let w: int = 0x1_0000_0000_0000_0000;
    let hi = old_q as int;
    let lo = new_q as int;
    let s = (a * lo) / hi;
    lemma_fundamental_div_mod(a * lo, hi);
    lemma_mod_bound(a * lo, hi);
    let r1 = (a * lo) % hi;
    assert(0 <= a * lo) by (nonlinear_arith)
        requires
            a >= 0,
            lo > 0,
    ;
    lemma_div_pos_is_pos(a * lo, hi);
    // s <= a, so s is below 2^64 and the first switch does not wrap
    assert(s <= a) by (nonlinear_arith)
        requires
            a * lo == hi * s + r1,
            0 <= r1,
            0 < lo <= hi,
            0 <= s,
            a >= 0,
    ;
    lemma_small_mod(s as nat, w as nat);
    let down = switched(a, old_q, new_q) % w;
    assert(down == s);
    let back = (s * hi) / lo;
    lemma_fundamental_div_mod(s * hi, lo);
    lemma_mod_bound(s * hi, lo);
    let r2 = (s * hi) % lo;
    assert(0 <= s * hi) by (nonlinear_arith)
        requires
            s >= 0,
            hi > 0,
    ;
    lemma_div_pos_is_pos(s * hi, lo);
    assert(lo * back + r2 + r1 == lo * a) by (nonlinear_arith)
        requires
            a * lo == hi * s + r1,
            s * hi == lo * back + r2,
    ;
    assert(back <= a && (a - back) * lo < hi + lo) by (nonlinear_arith)
        requires
            lo * back + r2 + r1 == lo * a,
            0 <= r1 < hi,
            0 <= r2 < lo,
            lo > 0,
    ;
    lemma_small_mod(back as nat, w as nat);
}

} // verus!
