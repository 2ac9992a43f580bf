//! How ciphertexts and keys lay their polynomials out in one flat list of
//! coefficients.
use vstd::prelude::*;
use crate::math::polynomial::polynomial::Polynomial;

verus! {

/// Polynomial `ind` of order `n` in the flat list `data`.
pub open spec fn poly_at(data: Seq<u64>, ind: int, n: nat) -> Seq<u64> {
    data.subrange(ind * n, ind * n + n)
}

/// The first `count` polynomials of order `n` in the flat list `data`.
pub open spec fn polys(data: Seq<u64>, count: nat, n: nat) -> Seq<Seq<u64>> {
    Seq::new(count, |i: int| poly_at(data, i, n))
}

/// The polynomials of `ps` written one after another.
pub open spec fn join(ps: Seq<Seq<u64>>) -> Seq<u64>
    decreases ps.len(),
{
    if ps.len() == 0 {
        Seq::empty()
    } else {
        join(ps.drop_last()) + ps.last()
    }
}

/// Every polynomial of `ps` has order `n`.
pub open spec fn uniform(ps: Seq<Seq<u64>>, n: nat) -> bool {
    forall|i: int| 0 <= i < ps.len() ==> (#[trigger] ps[i]).len() == n
}

/// Polynomial `ind` of order `n` read out of the flat list `data`.
pub fn read_poly(data: &Vec<u64>, ind: usize, n: usize) -> (r: Polynomial)
    requires
        ind * n + n <= data@.len(),
    ensures
        r@ == poly_at(data@, ind as int, n as nat),
{
    let total = data.len();
    let mut v = Polynomial::new_zero(n);
    let mut i: usize = 0;
    while i < n
        invariant
            i <= n,
            total == data@.len(),
            ind * n + n <= data@.len(),
            v@.len() == n,
            forall|j: int| 0 <= j < i ==> #[trigger] v@[j] == data@[ind * n + j],
        decreases n - i,
    {
        v.set(i, data[ind * n + i]);
        i = i + 1;
    }
    proof {
        assert(v@ =~= poly_at(data@, ind as int, n as nat));
    }
    v
}

/// `i * n + j` lies before `(i + 1) * n`, and the blocks are ordered.
pub proof fn lemma_block_index(i: int, j: int, n: int, m: int)
    requires
        0 <= i < m,
        0 <= j < n,
    ensures
        0 <= i * n + j < m * n,
        i * n + n <= m * n,
        i < m - 1 ==> i * n + j < (m - 1) * n,
        i == m - 1 ==> i * n + j - (m - 1) * n == j,
{
    assert(0 <= i * n + j < m * n) by (nonlinear_arith)
        requires
            0 <= i < m,
            0 <= j < n,
    ;
    assert(i * n + n <= m * n) by (nonlinear_arith)
        requires
            0 <= i < m,
            0 <= j < n,
    ;
    assert(i < m - 1 ==> i * n + j < (m - 1) * n) by (nonlinear_arith)
        requires
            0 <= i,
            0 <= j < n,
    ;
}

/// Block `i` of size `n` ends within `m` blocks.
pub proof fn lemma_block_end(i: int, n: int, m: int)
    requires
        0 <= i < m,
        0 <= n,
    ensures
        0 <= i * n,
        i * n + n <= m * n,
{
    assert(0 <= i * n && i * n + n <= m * n) by (nonlinear_arith)
        requires
            0 <= i < m,
            0 <= n,
    ;
}

/// Joining polynomials of one order `n` puts coefficient `j` of polynomial
/// `i` at `i * n + j`.
pub proof fn lemma_join_uniform(ps: Seq<Seq<u64>>, n: nat)
    requires
        uniform(ps, n),
    ensures
        join(ps).len() == ps.len() * n,
        forall|i: int, j: int| 0 <= i < ps.len() && 0 <= j < n ==> #[trigger] join(ps)[i * n + j] == ps[i][j],
    decreases ps.len(),
{
    if ps.len() > 0 {
        let m = ps.len() as int;
        let init = ps.drop_last();
        assert(uniform(init, n));
        lemma_join_uniform(init, n);
        assert(join(ps) == join(init) + ps.last());
        assert((m - 1) * n + n == m * n) by (nonlinear_arith);
        assert forall|i: int, j: int| 0 <= i < ps.len() && 0 <= j < n implies #[trigger] join(ps)[i * n + j] == ps[i][j] by {
            lemma_block_index(i, j, n as int, m);
            if i < m - 1 {
                assert(init[i] == ps[i]);
            }
        }
    }
}

/// The polynomials read back from a join of polynomials of order `n` are the
/// polynomials that were joined.
pub proof fn lemma_polys_of_join(ps: Seq<Seq<u64>>, n: nat)
    requires
        uniform(ps, n),
    ensures
        join(ps).len() == ps.len() * n,
        polys(join(ps), ps.len(), n) == ps,
{
    lemma_join_uniform(ps, n);
    assert forall|i: int| 0 <= i < ps.len() implies #[trigger] polys(join(ps), ps.len(), n)[i] == ps[i] by {
        lemma_block_end(i, n as int, ps.len() as int);
        assert forall|j: int| 0 <= j < n implies #[trigger] poly_at(join(ps), i, n)[j] == ps[i][j] by {
            lemma_block_index(i, j, n as int, ps.len() as int);
        }
        assert(poly_at(join(ps), i, n) =~= ps[i]);
    }
    assert(polys(join(ps), ps.len(), n) =~= ps);
}

/// Joining one more polynomial appends its coefficients.
pub proof fn lemma_join_push(ps: Seq<Seq<u64>>, p: Seq<u64>)
    ensures
        join(ps.push(p)) == join(ps) + p,
{
    assert(ps.push(p).drop_last() =~= ps);
}

} // verus!
