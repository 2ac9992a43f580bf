//! GLWE ciphertexts: `MASK_SIZE + 1` polynomials stored one after another.
use vstd::prelude::*;
use core::marker::PhantomData;
use crate::encoding::{json_list, json_list_text, parse_json_list, parsed_json_list};
use crate::math::modular::mod_arith::{mod_sum, spec_mod_sum};
use crate::math::polynomial::polynomial::{poly_add_q, poly_mul, poly_sub_q, reduce, views, Polynomial};
use crate::tfhe::layout::{join, lemma_join_uniform, poly_at, uniform};
use crate::tfhe::schemas::{from_poly_list, from_u64, LWE_CT_Params, TFHESchema};

verus! {

/// The prime modulus of `add_assign`.
pub const ADD_MODULUS: u64 = 18446744073709550593;

/// Coefficientwise sum of the first `len` coefficients, modulo the prime
/// `Q + 1`.
pub open spec fn glwe_add(a: Seq<u64>, b: Seq<u64>, len: nat) -> Seq<u64> {
    Seq::new(len, |i: int| reduce(a[i] + b[i]))
}

/// Coefficientwise difference of the first `len` coefficients, modulo the
/// prime `Q + 1`.
pub open spec fn glwe_sub(a: Seq<u64>, b: Seq<u64>, len: nat) -> Seq<u64> {
    Seq::new(len, |i: int| reduce(a[i] - b[i]))
}

/// `mod_sum` modulo `ADD_MODULUS` on each of the first `len` coefficients; the
/// others are kept.
pub open spec fn glwe_add_mod(a: Seq<u64>, b: Seq<u64>, len: nat) -> Seq<u64> {
    Seq::new(a.len(), |i: int| if i < len { spec_mod_sum(a[i], b[i], ADD_MODULUS) as u64 } else { a[i] })
}

/// Each of the first `k + 1` polynomials of order `n` multiplied by `p`.
pub open spec fn glwe_mul_poly(a: Seq<u64>, p: Seq<u64>, k: nat, n: nat) -> Seq<u64> {
    join(Seq::new(k + 1, |i: int| poly_mul(poly_at(a, i, n), p)))
}

/// A GLWE ciphertext: its coefficients, polynomial after polynomial, the
/// mask polynomials first and the body last.
#[derive(Debug, PartialEq)]
pub struct GLWECiphertext<S: TFHESchema, P: LWE_CT_Params<S>>(pub Vec<u64>, pub PhantomData<S>, pub PhantomData<P>);

impl<S: TFHESchema, P: LWE_CT_Params<S>> View for GLWECiphertext<S, P> {
    type V = Seq<u64>;

    open spec fn view(&self) -> Seq<u64> {
        self.0@
    }
}

impl<S: TFHESchema, P: LWE_CT_Params<S>> Clone for GLWECiphertext<S, P> {
    fn clone(&self) -> (r: Self)
        ensures
            r@ == self@,
    {
        let data = self.0.clone();
        proof {
            assert(data@ =~= self.0@);
        }
        GLWECiphertext(data, PhantomData, PhantomData)
    }
}

impl<S: TFHESchema, P: LWE_CT_Params<S>> core::str::FromStr for GLWECiphertext<S, P> {
    type Err = &'static str;

    fn from_str(s: &str) -> (r: Result<GLWECiphertext<S, P>, &'static str>)
        ensures
            r is Err <==> parsed_json_list(s@) is None,
            r matches Ok(ct) ==> parsed_json_list(s@) == Some(ct@),
    {
        GLWECiphertext::from_str(s)
    }
}

impl<S: TFHESchema, P: LWE_CT_Params<S>> GLWECiphertext<S, P> {
    /// The ciphertext with the given coefficients.
    pub fn from_polynomial_list(data: Vec<u64>) -> (r: Self)
        ensures
            r@ == data@,
    {
        GLWECiphertext(data, PhantomData, PhantomData)
    }

    /// Polynomial `ind`.
    pub fn get_poly_by_index(&self, ind: usize) -> (r: Polynomial)
        requires
            ind * P::POLINOMIAL_SIZE + P::POLINOMIAL_SIZE <= self@.len(),
        ensures
            r@ == poly_at(self@, ind as int, P::POLINOMIAL_SIZE as nat),
    {
        let n = P::POLINOMIAL_SIZE;
        let total = self.0.len();
        let mut v = Polynomial::new_zero(n);
        let mut i: usize = 0;
        while i < n
            invariant
                i <= n,
                n == P::POLINOMIAL_SIZE,
                total == self@.len(),
                ind * n + n <= self@.len(),
                v@.len() == n,
                forall|j: int| 0 <= j < i ==> #[trigger] v@[j] == self@[ind * n + j],
            decreases n - i,
        {
            v.set(i, <u64 as from_u64>::to(self.0[ind * n + i]));
            i = i + 1;
        }
        proof {
            assert(v@ =~= poly_at(self@, ind as int, n as nat));
        }
        v
    }

    /// Coefficient `i`.
    pub fn index(&self, i: usize) -> (r: u64)
        requires
            i < self@.len(),
        ensures
            r == self@[i as int],
    {
        self.0[i]
    }

    /// Sets coefficient `i` to `value`.
    pub fn set(&mut self, i: usize, value: u64)
        requires
            i < old(self)@.len(),
        ensures
            final(self)@ == old(self)@.update(i as int, value),
    {
        self.0.set(i, value);
    }

    /// The coefficients as a JSON array.
    pub fn to_string(&self) -> (r: String)
        ensures
            r@ == json_list(self@),
            parsed_json_list(r@) == Some(self@),
    {
        json_list_text(&self.0)
    }

    /// Reads a ciphertext from a JSON array of coefficients; `Err` when the
    /// text is not such an array.
    pub fn from_str(s: &str) -> (r: Result<Self, &'static str>)
        ensures
            r is Err <==> parsed_json_list(s@) is None,
            r matches Ok(ct) ==> parsed_json_list(s@) == Some(ct@),
    {
        match parse_json_list(s) {
            Some(data) => Ok(GLWECiphertext::from_polynomial_list(data)),
            None => Err("not a JSON list of coefficients"),
        }
    }

    /// Polynomialwise sum, modulo the prime `Q + 1`.
    pub fn add(&self, rhs: &GLWECiphertext<S, P>) -> (r: GLWECiphertext<S, P>)
        requires
            P::MASK_SIZE < usize::MAX,
            (P::MASK_SIZE + 1) * P::POLINOMIAL_SIZE <= self@.len(),
            (P::MASK_SIZE + 1) * P::POLINOMIAL_SIZE <= rhs@.len(),
        ensures
            r@ == glwe_add(self@, rhs@, ((P::MASK_SIZE + 1) * P::POLINOMIAL_SIZE) as nat),
    {
        let count = P::MASK_SIZE + 1;
        let ghost n = P::POLINOMIAL_SIZE as nat;
        let mut sums: Vec<Polynomial> = Vec::with_capacity(count);
        let mut i: usize = 0;
        while i < count
            invariant
                i <= count,
                count == P::MASK_SIZE + 1,
                n == P::POLINOMIAL_SIZE,
                count * n <= self@.len(),
                count * n <= rhs@.len(),
                sums@.len() == i,
                forall|j: int| 0 <= j < i ==> (#[trigger] sums@[j])@ == poly_add_q(poly_at(self@, j, n), poly_at(rhs@, j, n)),
            decreases count - i,
        {
            proof {
                crate::tfhe::layout::lemma_block_end(i as int, n as int, count as int);
            }
            let p = self.get_poly_by_index(i).add_mod_q(&rhs.get_poly_by_index(i));
            sums.push(p);
            i = i + 1;
        }
        let data = <Vec<u64> as from_poly_list>::from(sums);
        proof {
            lemma_sum_layout(views(sums@), self@, rhs@, count as nat, n, true);
        }
        GLWECiphertext::from_polynomial_list(data)
    }

    /// Polynomialwise difference, modulo the prime `Q + 1`.
    pub fn sub(&self, rhs: &GLWECiphertext<S, P>) -> (r: GLWECiphertext<S, P>)
        requires
            P::MASK_SIZE < usize::MAX,
            (P::MASK_SIZE + 1) * P::POLINOMIAL_SIZE <= self@.len(),
            (P::MASK_SIZE + 1) * P::POLINOMIAL_SIZE <= rhs@.len(),
        ensures
            r@ == glwe_sub(self@, rhs@, ((P::MASK_SIZE + 1) * P::POLINOMIAL_SIZE) as nat),
    {
        let count = P::MASK_SIZE + 1;
        let ghost n = P::POLINOMIAL_SIZE as nat;
        let mut diffs: Vec<Polynomial> = Vec::with_capacity(count);
        let mut i: usize = 0;
        while i < count
            invariant
                i <= count,
                count == P::MASK_SIZE + 1,
                n == P::POLINOMIAL_SIZE,
                count * n <= self@.len(),
                count * n <= rhs@.len(),
                diffs@.len() == i,
                forall|j: int| 0 <= j < i ==> (#[trigger] diffs@[j])@ == poly_sub_q(poly_at(self@, j, n), poly_at(rhs@, j, n)),
            decreases count - i,
        {
            proof {
                crate::tfhe::layout::lemma_block_end(i as int, n as int, count as int);
            }
            let p = self.get_poly_by_index(i).sub_mod_q(&rhs.get_poly_by_index(i));
            diffs.push(p);
            i = i + 1;
        }
        let data = <Vec<u64> as from_poly_list>::from(diffs);
        proof {
            lemma_sum_layout(views(diffs@), self@, rhs@, count as nat, n, false);
        }
        GLWECiphertext::from_polynomial_list(data)
    }

    /// Adds `rhs` coefficientwise with `mod_sum` modulo `ADD_MODULUS`; every
    /// added coefficient of `rhs` must be at most that modulus.
    pub fn add_assign(&mut self, rhs: &GLWECiphertext<S, P>)
        requires
            P::MASK_SIZE < usize::MAX,
            (P::MASK_SIZE + 1) * P::POLINOMIAL_SIZE <= old(self)@.len(),
            (P::MASK_SIZE + 1) * P::POLINOMIAL_SIZE <= rhs@.len(),
            forall|i: int| 0 <= i < (P::MASK_SIZE + 1) * P::POLINOMIAL_SIZE ==> #[trigger] rhs@[i] <= ADD_MODULUS,
        ensures
            final(self)@ == glwe_add_mod(old(self)@, rhs@, ((P::MASK_SIZE + 1) * P::POLINOMIAL_SIZE) as nat),
    {
        let total = self.0.len();
        let len = (P::MASK_SIZE + 1) * P::POLINOMIAL_SIZE;
        let ghost start = self@;
        let mut i: usize = 0;
        while i < len
            invariant
                i <= len,
                len == (P::MASK_SIZE + 1) * P::POLINOMIAL_SIZE,
                len <= start.len(),
                len <= rhs@.len(),
                forall|k: int| 0 <= k < len ==> #[trigger] rhs@[k] <= ADD_MODULUS,
                self@.len() == start.len(),
                forall|k: int| 0 <= k < i ==> #[trigger] self@[k] == spec_mod_sum(start[k], rhs@[k], ADD_MODULUS) as u64,
                forall|k: int| i <= k < start.len() ==> #[trigger] self@[k] == start[k],
            decreases len - i,
        {
            let a = <u64 as from_u64>::to(self.index(i));
            let b = <u64 as from_u64>::to(rhs.index(i));
            let s = mod_sum(a, b, ADD_MODULUS);
            self.set(i, <u64 as from_u64>::from(s));
            i = i + 1;
        }
        proof {
            assert(self@ =~= glwe_add_mod(start, rhs@, len as nat));
        }
    }

    /// Each polynomial multiplied by `rhs` (see `Polynomial::mul`).
    pub fn mul(&self, rhs: &Polynomial) -> (r: GLWECiphertext<S, P>)
        requires
            P::MASK_SIZE < usize::MAX,
            P::POLINOMIAL_SIZE == 1 || P::POLINOMIAL_SIZE == 256,
            rhs@.len() == P::POLINOMIAL_SIZE,
            (P::MASK_SIZE + 1) * P::POLINOMIAL_SIZE <= self@.len(),
        ensures
            r@ == glwe_mul_poly(self@, rhs@, P::MASK_SIZE as nat, P::POLINOMIAL_SIZE as nat),
    {
        let count = P::MASK_SIZE + 1;
        let ghost n = P::POLINOMIAL_SIZE as nat;
        let mut prods: Vec<Polynomial> = Vec::with_capacity(count);
        let mut i: usize = 0;
        while i < count
            invariant
                i <= count,
                count == P::MASK_SIZE + 1,
                n == P::POLINOMIAL_SIZE,
                n == 1 || n == 256,
                rhs@.len() == n,
                count * n <= self@.len(),
                prods@.len() == i,
                forall|j: int| 0 <= j < i ==> (#[trigger] prods@[j])@ == poly_mul(poly_at(self@, j, n), rhs@),
            decreases count - i,
        {
            proof {
                crate::tfhe::layout::lemma_block_end(i as int, n as int, count as int);
            }
            let p = self.get_poly_by_index(i).mul(rhs);
            prods.push(p);
            i = i + 1;
        }
        let data = <Vec<u64> as from_poly_list>::from(prods);
        proof {
            assert(views(prods@) =~= Seq::new(count as nat, |j: int| poly_mul(poly_at(self@, j, n), rhs@)));
        }
        GLWECiphertext::from_polynomial_list(data)
    }
}

/// Ciphertext addition is commutative.
pub proof fn glwe_add_commutative(a: Seq<u64>, b: Seq<u64>, len: nat)
    ensures
        glwe_add(a, b, len) == glwe_add(b, a, len),
{
    assert(glwe_add(a, b, len) =~= glwe_add(b, a, len));
}

/// Joining the polynomialwise sums (or differences) of two flat lists gives
/// their coefficientwise sum (or difference).
proof fn lemma_sum_layout(ps: Seq<Seq<u64>>, a: Seq<u64>, b: Seq<u64>, count: nat, n: nat, adding: bool)
    requires
        ps.len() == count,
        count * n <= a.len(),
        count * n <= b.len(),
        forall|j: int| 0 <= j < count ==> #[trigger] ps[j] == (if adding {
            poly_add_q(poly_at(a, j, n), poly_at(b, j, n))
        } else {
            poly_sub_q(poly_at(a, j, n), poly_at(b, j, n))
        }),
    ensures
        adding ==> join(ps) == glwe_add(a, b, count * n),
        !adding ==> join(ps) == glwe_sub(a, b, count * n),
{
    assert forall|j: int| 0 <= j < count implies (#[trigger] ps[j]).len() == n by {
        crate::tfhe::layout::lemma_block_end(j, n as int, count as int);
    }
    assert(uniform(ps, n));
    lemma_join_uniform(ps, n);
    assert forall|k: int| 0 <= k < count * n implies #[trigger] join(ps)[k] == (if adding {
        reduce(a[k] + b[k])
    } else {
        reduce(a[k] - b[k])
    }) by {
        let j = k / (n as int);
        let c = k % (n as int);
        assert(n > 0) by (nonlinear_arith)
            requires
                0 <= k < count * n,
        ;
        vstd::arithmetic::div_mod::lemma_fundamental_div_mod(k, n as int);
        assert(0 <= j < count) by (nonlinear_arith)
            requires
                0 <= k < count * n,
                n > 0,
                j == k / (n as int),
                k == (n as int) * j + c,
                0 <= c < n,
        ;
        vstd::arithmetic::div_mod::lemma_mod_bound(k, n as int);
        assert(j * n + c == k) by (nonlinear_arith)
            requires
                k == (n as int) * j + c,
        ;
        crate::tfhe::layout::lemma_block_end(j, n as int, count as int);
    }
    if adding {
        assert(join(ps) =~= glwe_add(a, b, count * n));
    } else {
        assert(join(ps) =~= glwe_sub(a, b, count * n));
    }
}

} // verus!
