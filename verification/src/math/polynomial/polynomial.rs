//! Polynomials with `u64` coefficients.
//!
//! Coefficientwise sums and differences wrap around at `2^64`; products of
//! polynomials are cyclic (positively wrapped) convolutions whose coefficients
//! are reduced modulo the prime `Q + 1`.
use vstd::prelude::*;
use vstd::arithmetic::div_mod::*;
use vstd::arithmetic::power2::*;
use vstd::bits::*;
use vstd::arithmetic::power::*;
use vstd::arithmetic::mul::*;
use crate::math::polynomial::ct_ntt::{ct_intt, ct_ntt};
use crate::math::polynomial::ntt_theory::{
    convolution_theorem, cyclic_convolution, dft_sum, is_half_turn_root, is_power_of_two,
    lemma_cong_mul, lemma_inverse_half_turn,
};
use crate::encoding::{debug_list, debug_list_text, parse_json_list, parsed_json_list};
use crate::math::summation::{lemma_sum_congruent, lemma_sum_ext, lemma_sum_monotone, lemma_sum_scale, sum};

verus! {

/// One less than the prime modulus of coefficient products.
pub const Q: u64 = 18446744073709550592;

/// `x` reduced to a machine word: the value that wrapping arithmetic leaves.
pub open spec fn wrap(x: int) -> u64 {
    (x % 0x1_0000_0000_0000_0000) as u64
}

/// Coefficientwise sum, wrapping at `2^64`.
pub open spec fn poly_add(a: Seq<u64>, b: Seq<u64>) -> Seq<u64> {
    Seq::new(a.len(), |i: int| wrap(a[i] + b[i]))
}

/// Coefficientwise difference, wrapping at `2^64`.
pub open spec fn poly_sub(a: Seq<u64>, b: Seq<u64>) -> Seq<u64> {
    Seq::new(a.len(), |i: int| wrap(a[i] - b[i]))
}

/// `x` reduced modulo the prime `Q + 1`.
pub open spec fn reduce(x: int) -> u64 {
    (x % (Q + 1)) as u64
}

/// Coefficientwise sum modulo the prime `Q + 1`.
pub open spec fn poly_add_q(a: Seq<u64>, b: Seq<u64>) -> Seq<u64> {
    Seq::new(a.len(), |i: int| reduce(a[i] + b[i]))
}

/// Coefficientwise difference modulo the prime `Q + 1`.
pub open spec fn poly_sub_q(a: Seq<u64>, b: Seq<u64>) -> Seq<u64> {
    Seq::new(a.len(), |i: int| reduce(a[i] - b[i]))
}

/// The product of `a` and `b` as polynomials modulo `X^n - 1` (with
/// `n = a.len()`), each coefficient reduced modulo `Q + 1`.
pub open spec fn poly_mul(a: Seq<u64>, b: Seq<u64>) -> Seq<u64> {
    Seq::new(a.len(), |l: int| (cyclic_convolution(a, b, a.len(), l) % (Q + 1)) as u64)
}

/// The polynomial of order `n` that is `value` at `position mod n` and `0`
/// elsewhere.
pub open spec fn monomial(n: nat, value: u64, position: nat) -> Seq<u64> {
    Seq::new(n, |i: int| if i == position % n { value } else { 0 })
}

/// The zero polynomial of order `n`.
pub open spec fn zero_poly(n: nat) -> Seq<u64> {
    Seq::new(n, |i: int| 0u64)
}

/// A polynomial; its order is the number of its coefficients.
#[derive(Debug, PartialEq, Eq)]
pub struct Polynomial(Vec<u64>);

impl View for Polynomial {
    type V = Seq<u64>;

    closed spec fn view(&self) -> Seq<u64> {
        self.0@
    }
}

impl Clone for Polynomial {
    fn clone(&self) -> (r: Self)
        ensures
            r@ == self@,
    {
        let c = self.0.clone();
        proof {
            assert(c@ =~= self.0@);
        }
        Polynomial(c)
    }
}

impl core::str::FromStr for Polynomial {
    type Err = &'static str;

    fn from_str(s: &str) -> (r: Result<Polynomial, &'static str>)
        ensures
            r is Err <==> parsed_json_list(s@) is None,
            r matches Ok(p) ==> parsed_json_list(s@) == Some(p@),
    {
        Polynomial::from_str(s)
    }
}

impl Polynomial {
    /// The polynomial with the given coefficients.
    pub fn new(data: Vec<u64>) -> (r: Self)
        ensures
            r@ == data@,
    {
        Polynomial(data)
    }

    /// The number of coefficients.
    pub fn len(&self) -> (r: usize)
        ensures
            r == self@.len(),
    {
        self.0.len()
    }

    /// The monomial `value * X^(position mod order)`.
    pub fn new_monomial(order: usize, value: u64, position: usize) -> (r: Self)
        requires
            order > 0,
        ensures
            r@ == monomial(order as nat, value, position as nat),
    {
        let mut p = Polynomial::new_zero(order);
        if position >= order {
            p.set(position % order, value);
        } else {
            p.set(position, value);
        }
        proof {
            if position < order {
                lemma_small_mod(position as nat, order as nat);
            }
            assert(p@ =~= monomial(order as nat, value, position as nat));
        }
        p
    }

    /// A copy of the coefficients.
    pub fn coeffs(&self) -> (r: Vec<u64>)
        ensures
            r@ == self@,
    {
        let c = self.0.clone();
        proof {
            assert(c@ =~= self.0@);
        }
        c
    }

    /// The zero polynomial of the given order.
    pub fn new_zero(order: usize) -> (r: Self)
        ensures
            r@ == zero_poly(order as nat),
    {
        let mut d: Vec<u64> = Vec::with_capacity(order);
        let mut i: usize = 0;
        while i < order
            invariant
                i <= order,
                d@ == zero_poly(i as nat),
            decreases order - i,
        {
            d.push(0);
            i = i + 1;
            proof {
                assert(d@ =~= zero_poly(i as nat));
            }
        }
        Polynomial::new(d)
    }

    /// Coefficient `i`.
    pub fn index(&self, i: usize) -> (r: u64)
        requires
            i < self@.len(),
        ensures
            r == self@[i as int],
    {
        self.0[i]
    }

    /// Sets coefficient `i` to `value`.
    pub fn set(&mut self, i: usize, value: u64)
        requires
            i < old(self)@.len(),
        ensures
            final(self)@ == old(self)@.update(i as int, value),
    {
        self.0.set(i, value);
    }

    /// Every coefficient shifted right by `steps` bits.
    pub fn shr(&self, steps: usize) -> (r: Self)
        requires
            steps < 64,
        ensures
            r@.len() == self@.len(),
            forall|i: int| 0 <= i < self@.len() ==> #[trigger] r@[i] == self@[i] as nat / pow2(steps as nat),
    {
        let n = self.0.len();
        let mut d: Vec<u64> = Vec::with_capacity(n);
        let mut i: usize = 0;
        while i < n
            invariant
                i <= n,
                n == self@.len(),
                steps < 64,
                d@.len() == i,
                forall|j: int| 0 <= j < i ==> #[trigger] d@[j] == self@[j] as nat / pow2(steps as nat),
            decreases n - i,
        {
            let v = self.0[i];
            let s = v >> steps;
            proof {
                lemma_u64_shr_is_div(v, steps as u64);
            }
            d.push(s);
            i = i + 1;
        }
        Polynomial::new(d)
    }

    /// Every coefficient multiplied by `2^steps` (in 128 bits, dropping what
    /// overflows) and reduced modulo `Q + 1`.
    pub fn shl(&self, steps: usize) -> (r: Self)
        requires
            steps < 128,
        ensures
            r@.len() == self@.len(),
            forall|i: int| 0 <= i < self@.len() ==> #[trigger] r@[i]
                == ((self@[i] * pow2(steps as nat)) % (pow2(128) as int)) % (Q + 1),
    {
        let n = self.0.len();
        let mut d: Vec<u64> = Vec::with_capacity(n);
        let mut i: usize = 0;
        while i < n
            invariant
                i <= n,
                n == self@.len(),
                steps < 128,
                d@.len() == i,
                forall|j: int| 0 <= j < i ==> #[trigger] d@[j]
                    == ((self@[j] * pow2(steps as nat)) % (pow2(128) as int)) % (Q + 1),
            decreases n - i,
        {
            let v = self.0[i];
            let shifted: u128 = (v as u128) << steps;
            proof {
                lemma_shl_u128(v as u128, steps as u128);
            }
            let c = (shifted % (Q as u128 + 1)) as u64;
            d.push(c);
            i = i + 1;
        }
        Polynomial::new(d)
    }

    /// Every coefficient reduced modulo `Q + 1` after adding half the divisor,
    /// then divided by `divisor`.
    pub fn round(&self, divisor: u64) -> (r: Self)
        requires
            divisor > 0,
        ensures
            r@.len() == self@.len(),
            forall|i: int| 0 <= i < self@.len() ==> #[trigger] r@[i]
                == ((self@[i] + divisor / 2) % (Q + 1)) / (divisor as int),
    {
        let n = self.0.len();
        let mut d: Vec<u64> = Vec::with_capacity(n);
        let mut i: usize = 0;
        let half = divisor >> 1;
        proof {
            lemma_u64_shr_is_div(divisor, 1);
            lemma2_to64();
        }
        while i < n
            invariant
                i <= n,
                n == self@.len(),
                divisor > 0,
                half == divisor / 2,
                d@.len() == i,
                forall|j: int| 0 <= j < i ==> #[trigger] d@[j]
                    == ((self@[j] + divisor / 2) % (Q + 1)) / (divisor as int),
            decreases n - i,
        {
            let v = self.0[i];
            let c = (((v as u128 + half as u128) % (Q as u128 + 1)) / divisor as u128) as u64;
            d.push(c);
            i = i + 1;
        }
        Polynomial::new(d)
    }

    /// Every coefficient reduced modulo `divisor`.
    pub fn rem(&self, divisor: u64) -> (r: Self)
        requires
            divisor > 0,
        ensures
            r@.len() == self@.len(),
            forall|i: int| 0 <= i < self@.len() ==> #[trigger] r@[i] == self@[i] % divisor,
    {
        let n = self.0.len();
        let mut d: Vec<u64> = Vec::with_capacity(n);
        let mut i: usize = 0;
        while i < n
            invariant
                i <= n,
                n == self@.len(),
                divisor > 0,
                d@.len() == i,
                forall|j: int| 0 <= j < i ==> #[trigger] d@[j] == self@[j] % divisor,
            decreases n - i,
        {
            d.push(self.0[i] % divisor);
            i = i + 1;
        }
        Polynomial::new(d)
    }

    /// The same coefficients, as a polynomial of order `new_order`, which must
    /// be the current order.
    pub fn swicth_order(&self, new_order: usize) -> (r: Self)
        requires
            new_order == self@.len(),
        ensures
            r@ == self@,
    {
        Polynomial::new(self.coeffs())
    }

    /// Coefficientwise sum, wrapping at `2^64`.
    pub fn add(&self, rhs: &Polynomial) -> (r: Polynomial)
        requires
            self@.len() == rhs@.len(),
        ensures
            r@ == poly_add(self@, rhs@),
    {
        let n = self.0.len();
        let mut sums: Vec<u64> = Vec::with_capacity(n);
        let mut i: usize = 0;
        while i < n
            invariant
                i <= n,
                n == self@.len(),
                n == rhs@.len(),
                sums@ == poly_add(self@, rhs@).take(i as int),
            decreases n - i,
        {
            let s = self.0[i].wrapping_add(rhs.0[i]);
            sums.push(s);
            i = i + 1;
            proof {
                assert(sums@ =~= poly_add(self@, rhs@).take(i as int));
            }
        }
        proof {
            assert(sums@ =~= poly_add(self@, rhs@));
        }
        Polynomial::new(sums)
    }

    /// Coefficientwise difference, wrapping at `2^64`.
    pub fn sub(&self, rhs: &Polynomial) -> (r: Polynomial)
        requires
            self@.len() == rhs@.len(),
        ensures
            r@ == poly_sub(self@, rhs@),
    {
        let n = self.0.len();
        let mut diffs: Vec<u64> = Vec::with_capacity(n);
        let mut i: usize = 0;
        while i < n
            invariant
                i <= n,
                n == self@.len(),
                n == rhs@.len(),
                diffs@ == poly_sub(self@, rhs@).take(i as int),
            decreases n - i,
        {
            let s = self.0[i].wrapping_sub(rhs.0[i]);
            diffs.push(s);
            i = i + 1;
            proof {
                assert(diffs@ =~= poly_sub(self@, rhs@).take(i as int));
            }
        }
        proof {
            assert(diffs@ =~= poly_sub(self@, rhs@));
        }
        Polynomial::new(diffs)
    }
    /// Coefficientwise sum modulo the prime `Q + 1`.
    pub fn add_mod_q(&self, rhs: &Polynomial) -> (r: Polynomial)
        requires
            self@.len() == rhs@.len(),
        ensures
            r@ == poly_add_q(self@, rhs@),
    {
        let n = self.0.len();
        let mut sums: Vec<u64> = Vec::with_capacity(n);
        let mut i: usize = 0;
        while i < n
            invariant
                i <= n,
                n == self@.len(),
                n == rhs@.len(),
                sums@ == poly_add_q(self@, rhs@).take(i as int),
            decreases n - i,
        {
            let s = ((self.0[i] as u128 + rhs.0[i] as u128) % (Q as u128 + 1)) as u64;
            sums.push(s);
            i = i + 1;
            proof {
                assert(sums@ =~= poly_add_q(self@, rhs@).take(i as int));
            }
        }
        proof {
            assert(sums@ =~= poly_add_q(self@, rhs@));
        }
        Polynomial::new(sums)
    }

    /// Coefficientwise difference modulo the prime `Q + 1`.
    pub fn sub_mod_q(&self, rhs: &Polynomial) -> (r: Polynomial)
        requires
            self@.len() == rhs@.len(),
        ensures
            r@ == poly_sub_q(self@, rhs@),
    {
        let n = self.0.len();
        let mut diffs: Vec<u64> = Vec::with_capacity(n);
        let mut i: usize = 0;
        while i < n
            invariant
                i <= n,
                n == self@.len(),
                n == rhs@.len(),
                diffs@ == poly_sub_q(self@, rhs@).take(i as int),
            decreases n - i,
        {
            let x = self.0[i] % (Q + 1);
            let y = rhs.0[i] % (Q + 1);
            let d = if x >= y { x - y } else { (Q + 1) - (y - x) };
            proof {
                lemma_reduce_sub(self@[i as int] as int, rhs@[i as int] as int, x as int, y as int, d as int);
            }
            diffs.push(d);
            i = i + 1;
            proof {
                assert(diffs@ =~= poly_sub_q(self@, rhs@).take(i as int));
            }
        }
        proof {
            assert(diffs@ =~= poly_sub_q(self@, rhs@));
        }
        Polynomial::new(diffs)
    }

    /// The coefficients in std's `Debug` list form, such as `[1, 2, 3]`;
    /// `from_str` reads the text back as the same coefficients.
    pub fn to_string(&self) -> (r: String)
        ensures
            r@ == debug_list(self@),
            parsed_json_list(r@) == Some(self@),
    {
        debug_list_text(&self.0)
    }

    /// Reads a polynomial from a JSON array of coefficients; `Err` when the
    /// text is not such an array.
    pub fn from_str(s: &str) -> (r: Result<Polynomial, &'static str>)
        ensures
            r is Err <==> parsed_json_list(s@) is None,
            r matches Ok(p) ==> parsed_json_list(s@) == Some(p@),
    {
        match parse_json_list(s) {
            Some(data) => Ok(Polynomial::new(data)),
            None => Err("not a JSON list of coefficients"),
        }
    }

    /// The product modulo `X^n - 1`, coefficients reduced modulo `Q + 1`: a
    /// single product for order 1, the transform for orders 32 and 256.
    pub fn mul(&self, rhs: &Polynomial) -> (r: Polynomial)
        requires
            self@.len() == rhs@.len(),
            self@.len() == 1 || self@.len() == 32 || self@.len() == 256,
        ensures
            r@ == poly_mul(self@, rhs@),
    {
        if self.0.len() == 1 {
            let x = self.0[0];
            let y = rhs.0[0];
            proof {
                assert(x * y <= u128::MAX) by (nonlinear_arith)
                    requires
                        x <= u64::MAX,
                        y <= u64::MAX,
                ;
            }
            let p = ((x as u128 * y as u128) % (Q as u128 + 1)) as u64;
            let r = Polynomial::new_monomial(1, p, 0);
            proof {
                let f = |i: int| self@[i] * rhs@[(0 - i) % 1];
                assert(sum(f, 1) == sum(f, 0) + f(0));
                assert(cyclic_convolution(self@, rhs@, 1, 0) == x * y);
                assert(r@ =~= poly_mul(self@, rhs@));
            }
            return r;
        }
        polymul_pwc(self, rhs)
    }
}

/// Multiplication through the transform of order 32 or 256 modulo the prime
/// `Q + 1`.
///
/// Both operands are transformed, multiplied pointwise and transformed back,
/// which computes their cyclic convolution modulo `Q + 1`.
pub fn polymul_pwc(a: &Polynomial, b: &Polynomial) -> (r: Polynomial)
    requires
        a@.len() == 32 || a@.len() == 256,
        b@.len() == a@.len(),
    ensures
        r@ == poly_mul(a@, b@),
{
    let q: u64 = 18446744073709550593;
    let n: usize = a.len();
    let w: u64 = if n == 32 { 13709748631181643000 } else { 12400524647368804660 };
    let w_inv: u64 = if n == 32 { 15941171536453849061 } else { 14137232041405300922 };
    let n_inv: u64 = if n == 32 { 17870283321406127137 } else { 18374686479671622661 };
    proof {
        if n == 32 {
            lemma_pwc32_constants();
        } else {
            lemma_pwc_constants();
        }
    }
    let mut a_regular_form = a.coeffs();
    let mut b_regular_form = b.coeffs();
    let mut a_ntt_form: Vec<u64> = Vec::new();
    let mut b_ntt_form: Vec<u64> = Vec::new();
    ct_ntt(&mut a_regular_form, n, q, w, &mut a_ntt_form).unwrap();
    ct_ntt(&mut b_regular_form, n, q, w, &mut b_ntt_form).unwrap();

    let mut c_ntt_form: Vec<u64> = Vec::with_capacity(n);
    let mut i: usize = 0;
    while i < n
        invariant
            i <= n,
            n == 32 || n == 256,
            q == Q + 1,
            a_ntt_form@.len() == n,
            b_ntt_form@.len() == n,
            c_ntt_form@.len() == i,
            forall|k: int| 0 <= k < n ==> (#[trigger] a_ntt_form@[k] as int) % (q as int) == dft_sum(a@, w as int, n as nat, k) % (q as int),
            forall|k: int| 0 <= k < n ==> (#[trigger] b_ntt_form@[k] as int) % (q as int) == dft_sum(b@, w as int, n as nat, k) % (q as int),
            forall|k: int| 0 <= k < i ==> (#[trigger] c_ntt_form@[k] as int) % (q as int)
                == (dft_sum(a@, w as int, n as nat, k) * dft_sum(b@, w as int, n as nat, k)) % (q as int),
        decreases n - i,
    {
        let x = a_ntt_form[i];
        let y = b_ntt_form[i];
        proof {
            assert(x * y <= u128::MAX) by (nonlinear_arith)
                requires
                    x <= u64::MAX,
                    y <= u64::MAX,
            ;
        }
        let c = ((x as u128 * y as u128) % q as u128) as u64;
        proof {
            let k = i as int;
            lemma_cong_mul(
                a_ntt_form@[k] as int,
                b_ntt_form@[k] as int,
                dft_sum(a@, w as int, n as nat, k),
                dft_sum(b@, w as int, n as nat, k),
                q as int,
            );
            lemma_mod_twice((a_ntt_form@[k] * b_ntt_form@[k]) as int, q as int);
        }
        c_ntt_form.push(c);
        i = i + 1;
    }
    let mut c_regular_form: Vec<u64> = Vec::new();
    proof {
        lemma_inverse_half_turn(w as int, w_inv as int, n as nat, q as int);
    }
    ct_intt(&mut c_ntt_form, n, q, w_inv, n_inv, &mut c_regular_form).unwrap();
    proof {
        convolution_theorem(a@, b@, c_ntt_form@, n as nat, q as int, w as int, w_inv as int, n_inv as int);
        assert(c_regular_form@ =~= poly_mul(a@, b@));
    }
    Polynomial::new(c_regular_form)
}

/// Position `l` of the negacyclic product (modulo `X^n + 1`) of `a[0..n]` and
/// `b[0..n]` over the integers:
/// `sum_{i <= l} a[i] b[l - i] - sum_{i > l} a[i] b[l + n - i]`.
pub open spec fn negacyclic_convolution(a: Seq<u64>, b: Seq<u64>, n: nat, l: int) -> int {
    sum(|i: int| if i <= l { a[i] * b[l - i] } else { -(a[i] * b[l + n - i]) }, n)
}

/// What `polymul_nwc` computes: the negacyclic product, each coefficient
/// wrapped to a machine word.
pub open spec fn poly_mul_nwc(a: Seq<u64>, b: Seq<u64>) -> Seq<u64> {
    Seq::new(a.len(), |l: int| wrap(negacyclic_convolution(a, b, a.len(), l)))
}

/// Term `i` of position `l` of the negacyclic product of order `n`.
pub open spec fn negacyclic_term(a: Seq<u64>, b: Seq<u64>, n: nat, l: int, i: int) -> int {
    if i <= l {
        a[i] * b[l - i]
    } else {
        -(a[i] * b[l + n - i])
    }
}

/// `wrap` of a sum depends only on the wrapped terms.
proof fn lemma_wrap_step(x: int, y: int, p: u64, adding: bool)
    requires
        p == wrap(y),
    ensures
        adding ==> wrap(wrap(x) + p) == wrap(x + y),
        !adding ==> wrap(wrap(x) - p) == wrap(x - y),
{
    let w: int = 0x1_0000_0000_0000_0000;
    lemma_mod_bound(x, w);
    lemma_mod_bound(y, w);
    if adding {
        lemma_add_mod_noop(x, y, w);
        lemma_add_mod_noop(x % w, p as int, w);
        lemma_mod_twice(x, w);
        lemma_small_mod(p as nat, w as nat);
    } else {
        lemma_sub_mod_noop(x, y, w);
        lemma_sub_mod_noop(x % w, p as int, w);
        lemma_mod_twice(x, w);
        lemma_small_mod(p as nat, w as nat);
    }
}

/// Multiplication modulo `X^n + 1` with coefficients modulo `2^64`: position
/// `l` of the result is `sum_{i <= l} a[i] b[l - i] - sum_{i > l} a[i] b[l + n - i]`,
/// computed in wrapping arithmetic.
pub fn polymul_nwc(a: &Polynomial, b: &Polynomial) -> (r: Polynomial)
    requires
        a@.len() == b@.len(),
    ensures
        r@ == poly_mul_nwc(a@, b@),
{
    let n: usize = a.len();
    let ghost nn = n as nat;
    let mut c: Vec<u64> = Vec::with_capacity(n);
    let mut l: usize = 0;
    while l < n
        invariant
            l <= n,
            n == a@.len(),
            n == b@.len(),
            nn == n,
            c@ == poly_mul_nwc(a@, b@).take(l as int),
        decreases n - l,
    {
        let ghost f = |i: int| negacyclic_term(a@, b@, nn, l as int, i);
        let mut acc: u64 = 0;
        let mut i: usize = 0;
        proof {
            lemma_small_mod(0, 0x1_0000_0000_0000_0000);
        }
        while i < n
            invariant
                i <= n,
                l < n,
                n == a@.len(),
                n == b@.len(),
                nn == n,
                f == (|i: int| negacyclic_term(a@, b@, nn, l as int, i)),
                acc == wrap(sum(f, i as nat)),
            decreases n - i,
        {
            let ghost before = sum(f, i as nat);
            if i <= l {
                let p = a.index(i).wrapping_mul(b.index(l - i));
                proof {
                    lemma_wrap_step(before, a@[i as int] * b@[l - i], p, true);
                }
                acc = acc.wrapping_add(p);
            } else {
                let p = a.index(i).wrapping_mul(b.index(l + (n - i)));
                proof {
                    lemma_wrap_step(before, a@[i as int] * b@[l + (n - i)], p, false);
                }
                acc = acc.wrapping_sub(p);
            }
            proof {
                assert(sum(f, (i + 1) as nat) == before + f(i as int));
            }
            i = i + 1;
        }
        proof {
            lemma_sum_ext(f, |i: int| if i <= l { a@[i] * b@[l - i] } else { -(a@[i] * b@[l + nn - i]) }, nn);
        }
        c.push(acc);
        l = l + 1;
        proof {
            assert(c@ =~= poly_mul_nwc(a@, b@).take(l as int));
        }
    }
    proof {
        assert(c@ =~= poly_mul_nwc(a@, b@));
    }
    Polynomial::new(c)
}

/// Row `i` of the schoolbook product at position `s`: `a[i] * b[s - i]`
/// reduced modulo `Q + 1`, or `0` when `s - i` lies outside `0..n`.
pub open spec fn schoolbook_term(a: Seq<u64>, b: Seq<u64>, n: nat, i: int, s: int) -> int {
    if 0 <= s - i < n {
        (a[i] * b[s - i]) % (Q + 1)
    } else {
        0
    }
}

/// The reduced products that land on position `s` of the schoolbook product.
pub open spec fn schoolbook_sum(a: Seq<u64>, b: Seq<u64>, n: nat, s: int) -> int {
    sum(|i: int| schoolbook_term(a, b, n, i, s), n)
}

/// What `polymul_pwc_naive` computes: the schoolbook product, each position
/// accumulated with wrapping at `2^64`, folded modulo `X^n - 1` and reduced
/// modulo `Q + 1`.
pub open spec fn poly_mul_naive(a: Seq<u64>, b: Seq<u64>) -> Seq<u64> {
    Seq::new(
        a.len(),
        |l: int|
            ((wrap(schoolbook_sum(a, b, a.len(), l)) + wrap(schoolbook_sum(a, b, a.len(), l + a.len())))
                % (Q + 1)) as u64,
    )
}

/// The schoolbook accumulator after rows `0..i` and the first `j` entries of
/// row `i`, at position `s`.
spec fn schoolbook_partial(a: Seq<u64>, b: Seq<u64>, n: nat, i: int, j: int, s: int) -> int {
    sum(|k: int| schoolbook_term(a, b, n, k, s), i as nat) + (if 0 <= s - i < j {
        schoolbook_term(a, b, n, i, s)
    } else {
        0
    })
}

/// Schoolbook multiplication: every product `a[i] * b[j]` reduced modulo
/// `Q + 1` is added, wrapping at `2^64`, at position `i + j`; positions `l`
/// and `l + n` are then added and reduced modulo `Q + 1`.
pub fn polymul_pwc_naive(a: &Polynomial, b: &Polynomial) -> (r: Polynomial)
    requires
        a@.len() == b@.len(),
        2 * a@.len() <= usize::MAX,
    ensures
        r@ == poly_mul_naive(a@, b@),
{
    let order = a.len();
    let ghost n = order as nat;
    let mut c: Vec<u64> = Vec::with_capacity(2 * order);
    let mut k: usize = 0;
    while k < 2 * order
        invariant
            k <= 2 * order,
            2 * order <= usize::MAX,
            c@.len() == k,
            forall|t: int| 0 <= t < k ==> #[trigger] c@[t] == 0,
        decreases 2 * order - k,
    {
        c.push(0);
        k = k + 1;
    }
    let mut i: usize = 0;
    while i < order
        invariant
            i <= order,
            n == order,
            order == a@.len(),
            order == b@.len(),
            2 * order <= usize::MAX,
            c@.len() == 2 * order,
            forall|t: int| 0 <= t < 2 * order ==> #[trigger] c@[t] == wrap(schoolbook_partial(a@, b@, n, i as int, 0, t)),
        decreases order - i,
    {
        let mut j: usize = 0;
        while j < order
            invariant
                i < order,
                j <= order,
                n == order,
                order == a@.len(),
                order == b@.len(),
                2 * order <= usize::MAX,
                c@.len() == 2 * order,
                forall|t: int| 0 <= t < 2 * order ==> #[trigger] c@[t] == wrap(schoolbook_partial(a@, b@, n, i as int, j as int, t)),
            decreases order - j,
        {
            let x = a.index(i);
            let y = b.index(j);
            proof {
                assert(x * y <= u128::MAX) by (nonlinear_arith)
                    requires
                        x <= u64::MAX,
                        y <= u64::MAX,
                ;
            }
            let p = ((x as u128 * y as u128) % (Q as u128 + 1)) % (Q as u128 + 1);
            let old_c = c[i + j];
            let total: u128 = old_c as u128 + p;
            let new_c = total as u64;
            proof {
                lemma_mod_twice((x * y) as int, Q + 1);
                assert(total as u64 == total % 0x1_0000_0000_0000_0000) by (bit_vector);
                let ghost_s = (i + j) as int;
                lemma_add_mod_noop(schoolbook_partial(a@, b@, n, i as int, j as int, ghost_s), p as int, 0x1_0000_0000_0000_0000);
                lemma_small_mod(p as nat, 0x1_0000_0000_0000_0000);
                lemma_mod_twice(schoolbook_partial(a@, b@, n, i as int, j as int, ghost_s), 0x1_0000_0000_0000_0000);
                assert(schoolbook_term(a@, b@, n, i as int, ghost_s) == p);
            }
            c.set(i + j, new_c);
            proof {
                assert forall|t: int| 0 <= t < 2 * order implies #[trigger] c@[t] == wrap(schoolbook_partial(a@, b@, n, i as int, (j + 1) as int, t)) by {
                    if t != i + j {
                        assert(schoolbook_partial(a@, b@, n, i as int, (j + 1) as int, t) == schoolbook_partial(a@, b@, n, i as int, j as int, t));
                    }
                }
            }
            j = j + 1;
        }
        proof {
            assert forall|t: int| 0 <= t < 2 * order implies #[trigger] c@[t] == wrap(schoolbook_partial(a@, b@, n, (i + 1) as int, 0, t)) by {
                let f = |k: int| schoolbook_term(a@, b@, n, k, t);
                assert(sum(f, (i + 1) as nat) == sum(f, i as nat) + f(i as int));
                assert(schoolbook_partial(a@, b@, n, i as int, order as int, t) == schoolbook_partial(a@, b@, n, (i + 1) as int, 0, t));
            }
        }
        i = i + 1;
    }
    let mut d: Vec<u64> = Vec::with_capacity(order);
    let mut l: usize = 0;
    while l < order
        invariant
            l <= order,
            n == order,
            order == a@.len(),
            2 * order <= usize::MAX,
            c@.len() == 2 * order,
            forall|t: int| 0 <= t < 2 * order ==> #[trigger] c@[t] == wrap(schoolbook_partial(a@, b@, n, order as int, 0, t)),
            d@ == poly_mul_naive(a@, b@).take(l as int),
        decreases order - l,
    {
        let v = ((c[l] as u128 + c[l + order] as u128) % (Q as u128 + 1)) as u64;
        d.push(v);
        l = l + 1;
        proof {
            assert(d@ =~= poly_mul_naive(a@, b@).take(l as int));
        }
    }
    proof {
        assert(d@ =~= poly_mul_naive(a@, b@));
    }
    Polynomial::new(d)
}

/// `sum_{i < n, 0 <= s - i < n} a[i] * b[s - i]`: position `s` of the schoolbook
/// product over the integers.
pub open spec fn plain_product_sum(a: Seq<u64>, b: Seq<u64>, n: nat, s: int) -> int {
    sum(|i: int| if 0 <= s - i < n { a[i] * b[s - i] } else { 0 }, n)
}

/// Order of the negacyclic schoolbook product.
pub const NWC_N: usize = 32;

/// Negacyclic schoolbook multiplication of order 32 in exact `u64` arithmetic:
/// position `l` of the result is position `l` of the product minus position
/// `l + 32`. The sums must not overflow and each difference must not go
/// below zero.
pub fn polymul_nwc_naive(a: &Polynomial, b: &Polynomial) -> (r: Polynomial)
    requires
        a@.len() == NWC_N,
        b@.len() == NWC_N,
        forall|s: int| 0 <= s < 2 * NWC_N ==> #[trigger] plain_product_sum(a@, b@, NWC_N as nat, s) <= u64::MAX,
        forall|l: int| 0 <= l < NWC_N ==> #[trigger] plain_product_sum(a@, b@, NWC_N as nat, l) >= plain_product_sum(a@, b@, NWC_N as nat, l + NWC_N),
    ensures
        r@.len() == NWC_N,
        forall|l: int| 0 <= l < NWC_N ==> #[trigger] r@[l]
            == plain_product_sum(a@, b@, NWC_N as nat, l) - plain_product_sum(a@, b@, NWC_N as nat, l + NWC_N),
{
    let n = NWC_N;
    let ghost nn = n as nat;
    let mut c: Vec<u64> = Vec::with_capacity(2 * n);
    let mut k: usize = 0;
    while k < 2 * n
        invariant
            k <= 2 * n,
            n == NWC_N,
            c@.len() == k,
            forall|t: int| 0 <= t < k ==> #[trigger] c@[t] == 0,
        decreases 2 * n - k,
    {
        c.push(0);
        k = k + 1;
    }
    let mut i: usize = 0;
    while i < n
        invariant
            i <= n,
            n == NWC_N,
            nn == n,
            a@.len() == n,
            b@.len() == n,
            forall|s: int| 0 <= s < 2 * NWC_N ==> #[trigger] plain_product_sum(a@, b@, NWC_N as nat, s) <= u64::MAX,
            c@.len() == 2 * n,
            forall|t: int| 0 <= t < 2 * n ==> #[trigger] c@[t] == plain_partial(a@, b@, nn, i as int, 0, t),
        decreases n - i,
    {
        let mut j: usize = 0;
        while j < n
            invariant
                i < n,
                j <= n,
                n == NWC_N,
                nn == n,
                a@.len() == n,
                b@.len() == n,
                forall|s: int| 0 <= s < 2 * NWC_N ==> #[trigger] plain_product_sum(a@, b@, NWC_N as nat, s) <= u64::MAX,
                c@.len() == 2 * n,
                forall|t: int| 0 <= t < 2 * n ==> #[trigger] c@[t] == plain_partial(a@, b@, nn, i as int, j as int, t),
            decreases n - j,
        {
            let x = a.index(i);
            let y = b.index(j);
            proof {
                let t = (i + j) as int;
                lemma_plain_partial_bound(a@, b@, nn, i as int, (j + 1) as int, t);
                assert(plain_product_sum(a@, b@, NWC_N as nat, t) <= u64::MAX);
                assert(plain_partial(a@, b@, nn, i as int, (j + 1) as int, t)
                    == plain_partial(a@, b@, nn, i as int, j as int, t) + x * y);
                lemma_plain_partial_bound(a@, b@, nn, i as int, j as int, t);
                assert(0 <= x * y) by (nonlinear_arith);
            }
            let new_c = c[i + j] + x * y;
            c.set(i + j, new_c);
            proof {
                assert forall|t: int| 0 <= t < 2 * n implies #[trigger] c@[t] == plain_partial(a@, b@, nn, i as int, (j + 1) as int, t) by {
                    if t != i + j {
                        assert(plain_partial(a@, b@, nn, i as int, (j + 1) as int, t) == plain_partial(a@, b@, nn, i as int, j as int, t));
                    }
                }
            }
            j = j + 1;
        }
        proof {
            assert forall|t: int| 0 <= t < 2 * n implies #[trigger] c@[t] == plain_partial(a@, b@, nn, (i + 1) as int, 0, t) by {
                let f = |k: int| if 0 <= t - k < nn { a@[k] * b@[t - k] } else { 0 };
                assert(sum(f, (i + 1) as nat) == sum(f, i as nat) + f(i as int));
                assert(plain_partial(a@, b@, nn, i as int, n as int, t) == plain_partial(a@, b@, nn, (i + 1) as int, 0, t));
            }
        }
        i = i + 1;
    }
    let mut d: Vec<u64> = Vec::with_capacity(n);
    let mut l: usize = 0;
    while l < n
        invariant
            l <= n,
            n == NWC_N,
            nn == n,
            c@.len() == 2 * n,
            forall|t: int| 0 <= t < 2 * n ==> #[trigger] c@[t] == plain_partial(a@, b@, nn, n as int, 0, t),
            forall|l: int| 0 <= l < NWC_N ==> #[trigger] plain_product_sum(a@, b@, NWC_N as nat, l) >= plain_product_sum(a@, b@, NWC_N as nat, l + NWC_N),
            d@.len() == l,
            forall|k: int| 0 <= k < l ==> #[trigger] d@[k]
                == plain_product_sum(a@, b@, NWC_N as nat, k) - plain_product_sum(a@, b@, NWC_N as nat, k + NWC_N),
        decreases n - l,
    {
        proof {
            assert(plain_product_sum(a@, b@, NWC_N as nat, l as int) >= plain_product_sum(a@, b@, NWC_N as nat, l + NWC_N));
        }
        d.push(c[l] - c[l + n]);
        l = l + 1;
    }
    Polynomial::new(d)
}

/// The exact schoolbook accumulator after rows `0..i` and the first `j`
/// entries of row `i`, at position `s`.
spec fn plain_partial(a: Seq<u64>, b: Seq<u64>, n: nat, i: int, j: int, s: int) -> int {
    sum(|k: int| if 0 <= s - k < n { a[k] * b[s - k] } else { 0 }, i as nat) + (if 0 <= s - i < j {
        a[i] * b[s - i]
    } else {
        0
    })
}

/// A partial schoolbook accumulator is bounded by the full position sum.
proof fn lemma_plain_partial_bound(a: Seq<u64>, b: Seq<u64>, n: nat, i: int, j: int, s: int)
    requires
        0 <= i < n,
        0 <= j <= n,
    ensures
        0 <= plain_partial(a, b, n, i, j, s) <= plain_product_sum(a, b, n, s),
{
    let f = |k: int| if 0 <= s - k < n { a[k] * b[s - k] } else { 0 };
    assert forall|k: int| 0 <= k < n implies #[trigger] f(k) >= 0 by {
        if 0 <= s - k < n {
            assert(a[k] * b[s - k] >= 0) by (nonlinear_arith)
                requires
                    a[k] >= 0,
                    b[s - k] >= 0,
            ;
        }
    }
    lemma_sum_monotone(f, i as nat, (i + 1) as nat);
    lemma_sum_monotone(f, (i + 1) as nat, n);
    lemma_sum_monotone(f, 0, i as nat);
    assert(sum(f, 0) == 0);
    assert(sum(f, (i + 1) as nat) == sum(f, i as nat) + f(i));
}

/// `true` when every coefficient of `b` lies within `delta` of the
/// coefficient of `a` at the same position (the bounds saturate at `0` and
/// `u64::MAX`).
pub fn poly_approximately_equial(a: &Polynomial, b: &Polynomial, delta: u64) -> (r: bool)
    requires
        a@.len() == b@.len(),
    ensures
        r == (forall|i: int| 0 <= i < a@.len() ==> #[trigger] a@[i] - delta <= b@[i] && b@[i] <= a@[i] + delta),
{
    let n = a.len();
    let mut res = true;
    let mut i: usize = 0;
    while i < n
        invariant_except_break
            i <= n,
            n == a@.len(),
            n == b@.len(),
            res,
            forall|k: int| 0 <= k < i ==> #[trigger] a@[k] - delta <= b@[k] && b@[k] <= a@[k] + delta,
        ensures
            res == (forall|k: int| 0 <= k < a@.len() ==> #[trigger] a@[k] - delta <= b@[k] && b@[k] <= a@[k] + delta),
        decreases n - i,
    {
        let x = a.index(i);
        let y = b.index(i);
        let lo = if x.wrapping_sub(delta) > x { 0 } else { x.wrapping_sub(delta) };
        let hi = if x.wrapping_add(delta) < x { u64::MAX } else { x.wrapping_add(delta) };
        if y < lo || y > hi {
            res = false;
            break;
        }
        i = i + 1;
    }
    res
}

/// Digit `i` of the decomposition of `x`: `x` shifted left by `b i` bits
/// (dropping what overflows 64 bits), then right by `q - b` bits.
pub open spec fn digit(glwe_q: nat, glev_b: nat, x: u64, i: nat) -> nat {
    (wrap(x * pow2(glev_b * i)) as nat) / pow2((glwe_q - glev_b) as nat)
}

/// The parameters for which `decomp_int` computes all its shifts without
/// overflow.
pub open spec fn decomposable(glwe_q: usize, glev_l: usize, glev_b: usize) -> bool {
    &&& glev_l * glev_b <= usize::MAX
    &&& (glev_l * glev_b) as u32 == 64 || ((glwe_q as u32) >= ((glev_l * glev_b) as u32) + 1
        && (glwe_q as u32) - ((glev_l * glev_b) as u32) - 1 < 64)
    &&& glev_l > 0 ==> glev_b <= glwe_q
    &&& glev_l > 0 ==> glwe_q - glev_b < 64
    &&& glev_l > 0 ==> glev_b * (glev_l - 1) < 64
}

/// Splits `n` into `glev_l` digits of `glev_b` bits, most significant first:
/// digit `i` is `(n << (glev_b * i)) >> (glwe_q - glev_b)`.
pub fn decomp_int(glwe_q: usize, glev_l: usize, glev_b: usize, n: u64) -> (r: Vec<u64>)
    requires
        decomposable(glwe_q, glev_l, glev_b),
    ensures
        r@.len() == glev_l,
        forall|i: int| 0 <= i < glev_l ==> #[trigger] r@[i] == digit(glwe_q as nat, glev_b as nat, n, i as nat),
{
    #[verifier::truncate]
    let pos = (glev_l * glev_b) as u32;
    #[verifier::truncate]
    let q32 = glwe_q as u32;
    let bit = if pos == 64 {
        0
    } else {
        n & (1u64 << (q32 - pos - 1))
    };
    let new_n = if bit > 0 && pos < 64 {
        n
    } else {
        n
    };
    let mut res: Vec<u64> = Vec::with_capacity(glev_l);
    let mut i: usize = 0;
    while i < glev_l
        invariant
            i <= glev_l,
            new_n == n,
            decomposable(glwe_q, glev_l, glev_b),
            res@.len() == i,
            forall|k: int| 0 <= k < i ==> #[trigger] res@[k] == digit(glwe_q as nat, glev_b as nat, n, k as nat),
        decreases glev_l - i,
    {
        proof {
            assert(glev_b * i <= glev_b * (glev_l - 1)) by (nonlinear_arith)
                requires
                    i < glev_l,
            ;
        }
        let steps = glev_b * i;
        let l_shift = new_n << steps;
        let r_shift = l_shift >> (glwe_q - glev_b);
        proof {
            lemma_shl_u64(new_n, steps as u64);
            lemma_u64_shr_is_div(l_shift, (glwe_q - glev_b) as u64);
        }
        res.push(r_shift);
        i = i + 1;
    }
    res
}

/// The decomposition of every coefficient of `p`: polynomial `j` holds digit
/// `j` of each coefficient.
pub open spec fn decomposition(glwe_q: nat, glev_l: nat, glev_b: nat, p: Seq<u64>) -> Seq<Seq<u64>> {
    Seq::new(glev_l, |j: int| Seq::new(p.len(), |i: int| digit(glwe_q, glev_b, p[i], j as nat) as u64))
}

/// The views of a sequence of polynomials.
pub open spec fn views(ps: Seq<Polynomial>) -> Seq<Seq<u64>> {
    ps.map_values(|p: Polynomial| p@)
}

/// Decomposes every coefficient of `p` with `decomp_int` and gathers digit `j`
/// of all coefficients into polynomial `j`.
pub fn decompose_polynomial(glwe_q: usize, glev_l: usize, glev_b: usize, p: Polynomial) -> (r: Vec<Polynomial>)
    requires
        decomposable(glwe_q, glev_l, glev_b),
    ensures
        views(r@) == decomposition(glwe_q as nat, glev_l as nat, glev_b as nat, p@),
{
    let order = p.len();
    let mut decs: Vec<Vec<u64>> = Vec::with_capacity(order);
    let mut i: usize = 0;
    while i < order
        invariant
            i <= order,
            order == p@.len(),
            decomposable(glwe_q, glev_l, glev_b),
            decs@.len() == i,
            forall|k: int| 0 <= k < i ==> (#[trigger] decs@[k])@.len() == glev_l,
            forall|k: int, j: int| 0 <= k < i && 0 <= j < glev_l ==> #[trigger] decs@[k]@[j]
                == digit(glwe_q as nat, glev_b as nat, p@[k], j as nat),
        decreases order - i,
    {
        let d = decomp_int(glwe_q, glev_l, glev_b, p.index(i));
        decs.push(d);
        i = i + 1;
    }
    let mut res: Vec<Polynomial> = Vec::with_capacity(glev_l);
    let mut j: usize = 0;
    while j < glev_l
        invariant
            j <= glev_l,
            order == p@.len(),
            decs@.len() == order,
            forall|k: int| 0 <= k < order ==> (#[trigger] decs@[k])@.len() == glev_l,
            forall|k: int, t: int| 0 <= k < order && 0 <= t < glev_l ==> #[trigger] decs@[k]@[t]
                == digit(glwe_q as nat, glev_b as nat, p@[k], t as nat),
            res@.len() == j,
            forall|t: int| 0 <= t < j ==> (#[trigger] res@[t])@ == decomposition(glwe_q as nat, glev_l as nat, glev_b as nat, p@)[t],
        decreases glev_l - j,
    {
        let mut row: Vec<u64> = Vec::with_capacity(order);
        let mut k: usize = 0;
        while k < order
            invariant
                k <= order,
                j < glev_l,
                order == p@.len(),
                decs@.len() == order,
                forall|m: int| 0 <= m < order ==> (#[trigger] decs@[m])@.len() == glev_l,
                forall|m: int, t: int| 0 <= m < order && 0 <= t < glev_l ==> #[trigger] decs@[m]@[t]
                    == digit(glwe_q as nat, glev_b as nat, p@[m], t as nat),
                row@.len() == k,
                forall|m: int| 0 <= m < k ==> #[trigger] row@[m] == decomposition(glwe_q as nat, glev_l as nat, glev_b as nat, p@)[j as int][m],
            decreases order - k,
        {
            row.push(decs[k][j]);
            k = k + 1;
        }
        proof {
            assert(row@ =~= decomposition(glwe_q as nat, glev_l as nat, glev_b as nat, p@)[j as int]);
        }
        res.push(Polynomial::new(row));
        j = j + 1;
    }
    proof {
        assert(views(res@) =~= decomposition(glwe_q as nat, glev_l as nat, glev_b as nat, p@));
    }
    res
}

/// The difference of two residues modulo `Q + 1`, corrected into
/// `0..Q + 1`, is the residue of the difference.
proof fn lemma_reduce_sub(a: int, b: int, x: int, y: int, d: int)
    requires
        x == a % (Q + 1),
        y == b % (Q + 1),
        x >= y ==> d == x - y,
        x < y ==> d == (Q + 1) - (y - x),
    ensures
        d == (a - b) % (Q + 1),
        0 <= d < Q + 1,
{
    let q: int = Q + 1;
    lemma_mod_bound(a, q);
    lemma_mod_bound(b, q);
    lemma_sub_mod_noop(a, b, q);
    if x >= y {
        lemma_small_mod((x - y) as nat, q as nat);
    } else {
        lemma_mod_add_multiples_vanish(x - y, q);
        lemma_small_mod((q + (x - y)) as nat, q as nat);
    }
}

/// `pow(x, 2 e)` modulo `q` from `pow(x, e)` modulo `q`.
proof fn lemma_square_step(x: int, e: nat, q: int, r: int, r2: int)
    requires
        q > 0,
        pow(x, e) % q == r,
        (r * r) % q == r2,
    ensures
        pow(x, 2 * e) % q == r2,
{
    lemma_pow_adds(x, e, e);
    lemma_mul_mod_noop_general(pow(x, e), pow(x, e), q);
}

/// The root, its inverse and the inverse of the order used by `polymul_pwc`.
proof fn lemma_pwc32_constants()
    ensures
        is_power_of_two(32),
        is_half_turn_root(13709748631181643000, 32, 18446744073709550593),
        (13709748631181643000int * 15941171536453849061int) % 18446744073709550593int == 1,
        (32int * 17870283321406127137int) % 18446744073709550593int == 1,
{
    reveal_with_fuel(is_power_of_two, 7);
    let q: int = 18446744073709550593;
    let w: int = 13709748631181643000;
    lemma_pow1(w);
    lemma_small_mod(w as nat, q as nat);
    assert((13709748631181643000int * 13709748631181643000int) % q == 3283737738293026591);
    lemma_square_step(w, 1, q, 13709748631181643000, 3283737738293026591);
    assert((3283737738293026591int * 3283737738293026591int) % q == 7226030608689538294);
    lemma_square_step(w, 2, q, 3283737738293026591, 7226030608689538294);
    assert((7226030608689538294int * 7226030608689538294int) % q == 10266574496307826000);
    lemma_square_step(w, 4, q, 7226030608689538294, 10266574496307826000);
    assert((10266574496307826000int * 10266574496307826000int) % q == 18446744073709550592);
    lemma_square_step(w, 8, q, 10266574496307826000, 18446744073709550592);
}

proof fn lemma_pwc_constants()
    ensures
        is_power_of_two(256),
        is_half_turn_root(12400524647368804660, 256, 18446744073709550593),
        (12400524647368804660int * 14137232041405300922int) % 18446744073709550593int == 1,
        (256int * 18374686479671622661int) % 18446744073709550593int == 1,
{
    reveal_with_fuel(is_power_of_two, 10);
    let q: int = 18446744073709550593;
    let w: int = 12400524647368804660;
    lemma_pow1(w);
    lemma_small_mod(w as nat, q as nat);
    assert((12400524647368804660int * 12400524647368804660int) % q == 3358279107782284043);
    lemma_square_step(w, 1, q, 12400524647368804660, 3358279107782284043);
    assert((3358279107782284043int * 3358279107782284043int) % q == 9059689486234189519);
    lemma_square_step(w, 2, q, 3358279107782284043, 9059689486234189519);
    assert((9059689486234189519int * 9059689486234189519int) % q == 13709748631181643000);
    lemma_square_step(w, 4, q, 9059689486234189519, 13709748631181643000);
    assert((13709748631181643000int * 13709748631181643000int) % q == 3283737738293026591);
    lemma_square_step(w, 8, q, 13709748631181643000, 3283737738293026591);
    assert((3283737738293026591int * 3283737738293026591int) % q == 7226030608689538294);
    lemma_square_step(w, 16, q, 3283737738293026591, 7226030608689538294);
    assert((7226030608689538294int * 7226030608689538294int) % q == 10266574496307826000);
    lemma_square_step(w, 32, q, 7226030608689538294, 10266574496307826000);
    assert((10266574496307826000int * 10266574496307826000int) % q == 18446744073709550592);
    lemma_square_step(w, 64, q, 10266574496307826000, 18446744073709550592);
}

/// `x << s` in 128 bits is `x * 2^s` with what overflows dropped.
pub proof fn lemma_shl_u128(x: u128, s: u128)
    requires
        s < 128,
    ensures
        x << s == (x * pow2(s as nat)) % (pow2(128) as int),
    decreases s,
{
    let w: int = pow2(128) as int;
    assert(w == 0x8000_0000_0000_0000_0000_0000_0000_0000 * 2) by {
        lemma_pow2_adds(127, 1);
        lemma2_to64();
        lemma2_to64_rest();
        lemma_pow2_adds(64, 63);
    }
    if s == 0 {
        assert(x << 0u128 == x) by (bit_vector);
        lemma2_to64();
        lemma_small_mod(x as nat, w as nat);
    } else {
        lemma_shl_u128(x, (s - 1) as u128);
        let y = x << ((s - 1) as u128);
        assert(x << s == (y << 1u128)) by (bit_vector)
            requires
                0 < s < 128,
                y == x << ((s - 1) as u128),
        ;
        assert(y < 0x8000_0000_0000_0000_0000_0000_0000_0000 ==> (y << 1u128) == 2 * y) by (bit_vector);
        assert(y >= 0x8000_0000_0000_0000_0000_0000_0000_0000 ==> (y << 1u128) == 2 * (y - 0x8000_0000_0000_0000_0000_0000_0000_0000)) by (bit_vector);
        assert((y << 1u128) == (2 * y) % w) by {
            if y < 0x8000_0000_0000_0000_0000_0000_0000_0000 {
                lemma_small_mod((2 * y) as nat, w as nat);
            } else {
                lemma_mod_add_multiples_vanish((2 * y - w) as int, w);
                lemma_small_mod((2 * y - w) as nat, w as nat);
            }
        }
        lemma_pow2_adds((s - 1) as nat, 1);
        lemma2_to64();
        lemma_mul_mod_noop_right(2, x * pow2((s - 1) as nat), w);
        assert(2 * (x * pow2((s - 1) as nat)) == x * pow2(s as nat)) by (nonlinear_arith)
            requires
                pow2(s as nat) == pow2((s - 1) as nat) * 2,
        ;
    }
}

/// `x << s` in 64 bits is `x * 2^s` with what overflows dropped.
pub proof fn lemma_shl_u64(x: u64, s: u64)
    requires
        s < 64,
    ensures
        x << s == wrap(x * pow2(s as nat)),
    decreases s,
{
    let w: int = 0x1_0000_0000_0000_0000;
    if s == 0 {
        assert(x << 0u64 == x) by (bit_vector);
        lemma2_to64();
        lemma_small_mod(x as nat, w as nat);
    } else {
        lemma_shl_u64(x, (s - 1) as u64);
        let y = x << ((s - 1) as u64);
        assert(x << s == (y << 1u64)) by (bit_vector)
            requires
                0 < s < 64,
                y == x << ((s - 1) as u64),
        ;
        assert((y << 1u64) == (2 * y) % 0x1_0000_0000_0000_0000) by (bit_vector);
        lemma_pow2_adds((s - 1) as nat, 1);
        lemma2_to64();
        lemma_mul_mod_noop_right(2, x * pow2((s - 1) as nat), w);
        assert(2 * (x * pow2((s - 1) as nat)) == x * pow2(s as nat)) by (nonlinear_arith)
            requires
                pow2(s as nat) == pow2((s - 1) as nat) * 2,
        ;
    }
}

} // verus!
