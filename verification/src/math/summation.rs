//! Finite sums over integers and the facts about them that the transforms use.
use vstd::prelude::*;
use vstd::arithmetic::div_mod::*;
use vstd::arithmetic::mul::*;

verus! {

/// `f(0) + f(1) + ... + f(n - 1)`.
pub open spec fn sum(f: spec_fn(int) -> int, n: nat) -> int
    decreases n,
{
    if n == 0 {
        0
    } else {
        sum(f, (n - 1) as nat) + f(n - 1)
    }
}

/// Sums of functions that agree on `[0, n)` are equal.
pub proof fn lemma_sum_ext(f: spec_fn(int) -> int, g: spec_fn(int) -> int, n: nat)
    requires
        forall|i: int| 0 <= i < n ==> #[trigger] f(i) == g(i),
    ensures
        sum(f, n) == sum(g, n),
    decreases n,
{
    if n > 0 {
        lemma_sum_ext(f, g, (n - 1) as nat);
    }
}

/// Sums of functions that agree modulo `q` on `[0, n)` agree modulo `q`.
pub proof fn lemma_sum_congruent(f: spec_fn(int) -> int, g: spec_fn(int) -> int, n: nat, q: int)
    requires
        q > 0,
        forall|i: int| 0 <= i < n ==> #[trigger] f(i) % q == g(i) % q,
    ensures
        sum(f, n) % q == sum(g, n) % q,
    decreases n,
{
    if n > 0 {
        lemma_sum_congruent(f, g, (n - 1) as nat, q);
        lemma_add_mod_noop(sum(f, (n - 1) as nat), f(n - 1), q);
        lemma_add_mod_noop(sum(g, (n - 1) as nat), g(n - 1), q);
    }
}

/// A constant factor moves out of a sum.
pub proof fn lemma_sum_scale(f: spec_fn(int) -> int, c: int, n: nat)
    ensures
        sum(|i: int| c * f(i), n) == c * sum(f, n),
    decreases n,
{
    if n > 0 {
        lemma_sum_scale(f, c, (n - 1) as nat);
        lemma_mul_is_distributive_add(c, sum(f, (n - 1) as nat), f(n - 1));
    }
}

/// The sum of a pointwise sum is the sum of the sums.
pub proof fn lemma_sum_add(f: spec_fn(int) -> int, g: spec_fn(int) -> int, n: nat)
    ensures
        sum(|i: int| f(i) + g(i), n) == sum(f, n) + sum(g, n),
    decreases n,
{
    if n > 0 {
        lemma_sum_add(f, g, (n - 1) as nat);
    }
}

/// A sum of zeros is zero.
pub proof fn lemma_sum_zero(f: spec_fn(int) -> int, n: nat)
    requires
        forall|i: int| 0 <= i < n ==> #[trigger] f(i) == 0,
    ensures
        sum(f, n) == 0,
    decreases n,
{
    if n > 0 {
        lemma_sum_zero(f, (n - 1) as nat);
    }
}

/// A sum whose terms vanish everywhere except at `j` equals its `j`-th term.
pub proof fn lemma_sum_single(f: spec_fn(int) -> int, n: nat, j: int)
    requires
        0 <= j < n,
        forall|i: int| 0 <= i < n && i != j ==> #[trigger] f(i) == 0,
    ensures
        sum(f, n) == f(j),
    decreases n,
{
    if j == n - 1 {
        lemma_sum_zero(f, (n - 1) as nat);
    } else {
        lemma_sum_single(f, (n - 1) as nat, j);
    }
}

/// A sum over `[0, 2m)` splits into its even-indexed and odd-indexed terms.
pub proof fn lemma_sum_even_odd(f: spec_fn(int) -> int, m: nat)
    ensures
        sum(f, 2 * m) == sum(|u: int| f(2 * u), m) + sum(|u: int| f(2 * u + 1), m),
    decreases m,
{
    if m > 0 {
        lemma_sum_even_odd(f, (m - 1) as nat);
        let n2 = (2 * m) as nat;
        assert(sum(f, n2) == sum(f, (n2 - 1) as nat) + f(n2 - 1));
        assert(sum(f, (n2 - 1) as nat) == sum(f, (n2 - 2) as nat) + f(n2 - 2));
        assert((n2 - 2) as nat == 2 * ((m - 1) as nat));
    }
}

/// Sums over `[0, a + b)` split at `a`.
pub proof fn lemma_sum_concat(f: spec_fn(int) -> int, a: nat, b: nat)
    ensures
        sum(f, a + b) == sum(f, a) + sum(|i: int| f(a + i), b),
    decreases b,
{
    if b > 0 {
        lemma_sum_concat(f, a, (b - 1) as nat);
        assert((a + b - 1) as nat == a + ((b - 1) as nat));
    }
}

/// The order of summation in a double sum can be exchanged.
pub proof fn lemma_sum_swap(g: spec_fn(int, int) -> int, n1: nat, n2: nat)
    ensures
        sum(|i: int| sum(|k: int| g(i, k), n2), n1) == sum(|k: int| sum(|i: int| g(i, k), n1), n2),
    decreases n1,
{
    if n1 > 0 {
        let m1 = (n1 - 1) as nat;
        lemma_sum_swap(g, m1, n2);
        let outer = |i: int| sum(|k: int| g(i, k), n2);
        let row = |k: int| g(n1 - 1, k);
        let inner_prev = |k: int| sum(|i: int| g(i, k), m1);
        let inner = |k: int| sum(|i: int| g(i, k), n1);
        assert(sum(outer, n1) == sum(outer, m1) + outer(n1 - 1));
        assert(sum(outer, m1) == sum(inner_prev, n2));
        lemma_sum_ext(|k: int| g(n1 - 1, k), row, n2);
        assert(outer(n1 - 1) == sum(row, n2));
        assert forall|k: int| 0 <= k < n2 implies #[trigger] inner(k) == inner_prev(k) + row(k) by {}
        lemma_sum_ext(inner, |k: int| inner_prev(k) + row(k), n2);
        lemma_sum_add(inner_prev, row, n2);
        assert(sum(inner, n2) == sum(inner_prev, n2) + sum(row, n2));
    } else {
        let inner = |k: int| sum(|i: int| g(i, k), n1);
        assert forall|k: int| 0 <= k < n2 implies #[trigger] inner(k) == 0 by {}
        lemma_sum_zero(inner, n2);
    }
}

/// A sum of non-negative terms grows with the number of terms.
pub proof fn lemma_sum_monotone(f: spec_fn(int) -> int, m: nat, n: nat)
    requires
        m <= n,
        forall|i: int| 0 <= i < n ==> #[trigger] f(i) >= 0,
    ensures
        sum(f, m) <= sum(f, n),
    decreases n,
{
    if m < n {
        lemma_sum_monotone(f, m, (n - 1) as nat);
    }
}

/// A sum of `n` terms, each at most `c`, is at most `n * c`.
pub proof fn lemma_sum_upper(f: spec_fn(int) -> int, n: nat, c: int)
    requires
        forall|i: int| 0 <= i < n ==> #[trigger] f(i) <= c,
    ensures
        sum(f, n) <= n * c,
    decreases n,
{
    if n > 0 {
        lemma_sum_upper(f, (n - 1) as nat, c);
        assert(f(n - 1) <= c);
        assert((n - 1) * c + c == n * c) by (nonlinear_arith)
            requires
                n > 0,
        ;
    } else {
        assert(n * c == 0) by (nonlinear_arith)
            requires
                n == 0,
        ;
    }
}

/// A sum of non-negative terms is non-negative.
pub proof fn lemma_sum_nonneg(f: spec_fn(int) -> int, n: nat)
    requires
        forall|i: int| 0 <= i < n ==> #[trigger] f(i) >= 0,
    ensures
        sum(f, n) >= 0,
{
    lemma_sum_monotone(f, 0, n);
}

/// A sum read backwards: `sum_{i < n} f(i) == sum_{i < n} f(n - 1 - i)`.
pub proof fn lemma_sum_reverse(f: spec_fn(int) -> int, n: nat)
    ensures
        sum(f, n) == sum(|i: int| f(n - 1 - i), n),
    decreases n,
{
    if n > 0 {
        let m = (n - 1) as nat;
        let g = |i: int| f(n - 1 - i);
        lemma_sum_reverse(f, m);
        lemma_sum_concat(g, 1, m);
        assert(sum(g, 1) == sum(g, 0) + g(0));
        lemma_sum_ext(|i: int| g(1 + i), |i: int| f(m - 1 - i), m);
        assert(sum(g, n) == sum(g, 1 + m));
    }
}

/// Rotating the indices of a sum over `[0, n)` by `t` leaves it unchanged:
/// `sum_{j < n} f((j + t) mod n) == sum_{j < n} f(j)`.
pub proof fn lemma_sum_rotate(f: spec_fn(int) -> int, n: nat, t: int)
    requires
        0 <= t < n,
    ensures
        sum(|j: int| f((j + t) % (n as int)), n) == sum(f, n),
{
    let g = |j: int| f((j + t) % (n as int));
    let head = (n - t) as nat;
    let tail = t as nat;
    lemma_sum_concat(g, head, tail);
    assert(head + tail == n);
    assert forall|j: int| 0 <= j < head implies #[trigger] g(j) == f(t + j) by {
        lemma_small_mod((j + t) as nat, n);
    }
    lemma_sum_ext(g, |j: int| f(t + j), head);
    assert forall|i: int| 0 <= i < tail implies #[trigger] g(head + i) == f(i) by {
        lemma_mod_add_multiples_vanish(i, n as int);
        assert(head + i + t == i + n);
        lemma_small_mod(i as nat, n);
    }
    lemma_sum_ext(|i: int| g(head + i), f, tail);
    lemma_sum_concat(f, tail, head);
    assert(tail + head == n);
}

/// A sum over `k * n` indices taken block by block: `k` blocks of `n`.
pub proof fn lemma_sum_blocks(f: spec_fn(int) -> int, k: nat, n: nat)
    ensures
        sum(f, k * n) == sum(|i: int| sum(|j: int| f(i * n + j), n), k),
    decreases k,
{
    let g = |i: int| sum(|j: int| f(i * n + j), n);
    if k > 0 {
        let m = (k - 1) as nat;
        lemma_sum_blocks(f, m, n);
        assert(m * n + n == k * n) by (nonlinear_arith)
            requires
                m == k - 1,
        ;
        let a = m * n;
        lemma_sum_concat(f, a, n);
        assert((a + n) as nat == k * n);
        assert(sum(f, k * n) == sum(f, a) + sum(|i: int| f(a + i), n));
        lemma_sum_ext(|i: int| f(a + i), |j: int| f(m * n + j), n);
        assert(g(m as int) == sum(|j: int| f(m * n + j), n));
        assert(sum(g, k) == sum(g, m) + g(m as int));
        assert(sum(f, k * n) == sum(g, k));
    } else {
        assert(k * n == 0) by (nonlinear_arith)
            requires
                k == 0,
        ;
        assert(sum(f, k * n) == 0);
        assert(sum(g, k) == 0);
    }
    assert(sum(f, k * n) == sum(g, k));
}

} // verus!
