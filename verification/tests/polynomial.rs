use std::str::FromStr;
use tfhela::math::polynomial::polynomial::{
    decomp_int, decompose_polynomial, poly_approximately_equial, polymul_nwc, polymul_nwc_naive,
    polymul_pwc, polymul_pwc_naive, Polynomial, Q,
};

#[test]
fn polynomial_str_serialization() {
    let a = [1, 2, 3, 4, 5, 6, 7, 8, 9, 0].to_vec();
    let poly: Polynomial = Polynomial::new(a);

    let serialized = (&poly).to_string();
    let deserialized: Polynomial = FromStr::from_str(&serialized).unwrap();
    assert_eq!(poly, deserialized);
}

#[test]
fn test_add_polynomial() {
    let a = [u64::MAX, 2, 3, 4, 5, 6, 7, 8, 9, 0].to_vec();
    let b = [1, 2, 3, 4, 5, 6, 7, 8, 9, 0].to_vec();
    let sum = a
        .iter()
        .zip(b.iter())
        .map(|(ai, bi)| ai.wrapping_add(*bi))
        .collect::<Vec<u64>>();

    let poly_a: Polynomial = Polynomial::new(a);
    let poly_b: Polynomial = Polynomial::new(b);
    let poly_sum = poly_a.add(&poly_b);

    assert_eq!(sum, poly_sum.coeffs());
}

#[test]
fn polynomial_debug_text() {
    let p = Polynomial::new(vec![1, 20, 300]);
    assert_eq!(p.to_string(), "[1, 20, 300]");
}

#[test]
fn polynomial_from_bad_text_is_err() {
    assert!(Polynomial::from_str("[1, 2,").is_err());
    assert!(Polynomial::from_str("not a list").is_err());
}

#[test]
fn sub_wraps_below_zero() {
    let a = Polynomial::new(vec![0, 5, 7]);
    let b = Polynomial::new(vec![1, 5, 2]);
    assert_eq!(a.sub(&b).coeffs(), vec![u64::MAX, 0, 5]);
}

#[test]
fn sub_undoes_add_on_values() {
    let a = Polynomial::new(vec![u64::MAX, 3, 1 << 63]);
    let b = Polynomial::new(vec![2, u64::MAX, 1 << 63]);
    assert_eq!(a.add(&b).sub(&b), a);
}

#[test]
fn add_is_commutative_on_values() {
    let a = Polynomial::new(vec![u64::MAX, 17, 0]);
    let b = Polynomial::new(vec![9, u64::MAX - 1, 4]);
    assert_eq!(a.add(&b), b.add(&a));
}

#[test]
fn monomials_and_zero() {
    assert_eq!(Polynomial::new_monomial(4, 9, 1).coeffs(), vec![0, 9, 0, 0]);
    assert_eq!(Polynomial::new_monomial(4, 9, 6).coeffs(), vec![0, 0, 9, 0]);
    assert_eq!(Polynomial::new_zero(3).coeffs(), vec![0, 0, 0]);
}

#[test]
fn coefficientwise_shifts_round_and_rem() {
    let p = Polynomial::new(vec![1, 1 << 63, 255]);
    assert_eq!(p.shr(4).coeffs(), vec![0, 1 << 59, 15]);
    // shl multiplies by 2^steps in 128 bits and reduces modulo Q + 1
    assert_eq!(p.shl(1).coeffs(), vec![2, 1023, 510]);
    assert_eq!(Polynomial::new(vec![7, 8, 9]).round(4).coeffs(), vec![2, 2, 2]);
    assert_eq!(Polynomial::new(vec![Q, Q + 1, 10]).round(1).coeffs(), vec![Q, 0, 10]);
    assert_eq!(Polynomial::new(vec![7, 8, 9]).rem(4).coeffs(), vec![3, 0, 1]);
    assert_eq!(p.swicth_order(3), p);
}

fn spread(seed: u64, n: usize) -> Polynomial {
    Polynomial::new((0..n as u64).map(|i| (i + seed).wrapping_mul(0x9E37_79B9_7F4A_7C15)).collect())
}

#[test]
fn product_of_order_one() {
    let a = Polynomial::new(vec![u64::MAX]);
    let b = Polynomial::new(vec![u64::MAX]);
    // (2^64 - 1)^2 modulo Q + 1, with 2^64 = 1023 modulo Q + 1
    let expected = ((u64::MAX as u128 * u64::MAX as u128) % (Q as u128 + 1)) as u64;
    assert_eq!(a.mul(&b).coeffs(), vec![expected]);
    assert_eq!(expected, 1022 * 1022);
}

#[test]
fn product_is_cyclic_convolution() {
    let mut a = vec![0u64; 256];
    let mut b = vec![0u64; 256];
    a[255] = 3;
    b[2] = 5;
    a[1] = 2;
    b[0] = 7;
    // (3 X^255 + 2 X)(5 X^2 + 7) = 15 X^257 + 21 X^255 + 10 X^3 + 14 X, and X^256 = 1
    let c = Polynomial::new(a).mul(&Polynomial::new(b));
    let mut expected = vec![0u64; 256];
    expected[1] = 15 + 14;
    expected[255] = 21;
    expected[3] = 10;
    assert_eq!(c.coeffs(), expected);
}

#[test]
fn product_is_commutative_on_values() {
    let a = spread(1, 256);
    let b = spread(2, 256);
    assert_eq!(a.mul(&b), b.mul(&a));
}

#[test]
fn zero_absorbs_and_one_is_neutral() {
    let a = spread(3, 256);
    let zero = Polynomial::new_zero(256);
    assert_eq!(a.mul(&zero), zero);
    let one = Polynomial::new_monomial(256, 1, 0);
    let reduced: Vec<u64> = a.coeffs().iter().map(|v| v % (Q + 1)).collect();
    assert_eq!(a.mul(&one).coeffs(), reduced);
}

#[test]
fn transform_product_matches_schoolbook_on_small_values() {
    let a = Polynomial::new((0..256u64).map(|i| (i * 37) % 65536).collect());
    let b = Polynomial::new((0..256u64).map(|i| (i * 101 + 5) % 65536).collect());
    assert_eq!(polymul_pwc(&a, &b), polymul_pwc_naive(&a, &b));
}

#[test]
fn schoolbook_wraps_its_accumulator() {
    // position 1 receives two products Q and wraps at 2^64 before the reduction
    let a = Polynomial::new(vec![1, 1]);
    let b = Polynomial::new(vec![Q, Q]);
    let c = polymul_pwc_naive(&a, &b);
    let d0 = ((Q as u128 + Q as u128) % (Q as u128 + 1)) as u64;
    let d1 = (Q.wrapping_add(Q) as u128 % (Q as u128 + 1)) as u64;
    assert_eq!(c.coeffs(), vec![d0, d1]);
    assert_ne!(d0, d1);
}

#[test]
fn negacyclic_schoolbook_product() {
    let mut a = vec![0u64; 32];
    let mut b = vec![0u64; 32];
    a[0] = 5;
    a[1] = 3;
    b[0] = 2;
    // (3 X + 5) * 2 = 6 X + 10
    let c = polymul_nwc_naive(&Polynomial::new(a), &Polynomial::new(b));
    let mut expected = vec![0u64; 32];
    expected[0] = 10;
    expected[1] = 6;
    assert_eq!(c.coeffs(), expected);
}

#[test]
fn approximate_equality_saturates() {
    let a = Polynomial::new(vec![0, u64::MAX, 100]);
    let b = Polynomial::new(vec![3, u64::MAX - 3, 97]);
    assert!(poly_approximately_equial(&a, &b, 3));
    assert!(!poly_approximately_equial(&a, &b, 2));
}

#[test]
fn decomposition_into_digits() {
    let n: u64 = 0xAB00_0000_0000_0000;
    // digits of 4 bits, most significant first
    assert_eq!(decomp_int(64, 3, 4, n), vec![0xA, 0xB, 0]);
    let p = Polynomial::new(vec![n, 0x1200_0000_0000_0000]);
    let d = decompose_polynomial(64, 2, 4, p);
    assert_eq!(d.len(), 2);
    assert_eq!(d[0].coeffs(), vec![0xA, 0x1]);
    assert_eq!(d[1].coeffs(), vec![0xB, 0x2]);
}

#[test]
fn transform_product_of_order_32() {
    let a = Polynomial::new((0..32u64).map(|i| (i * 37 + 11) % 65536).collect());
    let b = Polynomial::new((0..32u64).map(|i| (i * 101 + 5) % 65536).collect());
    assert_eq!(polymul_pwc(&a, &b), polymul_pwc_naive(&a, &b));
    assert!(poly_approximately_equial(&polymul_pwc(&a, &b), &polymul_pwc_naive(&a, &b), 10000000));
    let big_a = spread(5, 32);
    let big_b = spread(6, 32);
    assert_eq!(polymul_pwc(&big_a, &big_b), polymul_pwc(&big_b, &big_a));
    let zero = Polynomial::new_zero(32);
    assert_eq!(polymul_pwc(&big_a, &zero), zero);
    assert_eq!(big_a.mul(&big_b), polymul_pwc(&big_a, &big_b));
}

#[test]
fn negacyclic_product_of_order_32() {
    let a = spread(7, 32);
    let b = spread(8, 32);
    let c = spread(9, 32);
    let zero = Polynomial::new_zero(32);
    assert_eq!(polymul_nwc(&a, &zero), zero);
    assert_eq!(polymul_nwc(&a, &b), polymul_nwc(&b, &a));
    let one = Polynomial::new_monomial(32, 1, 0);
    assert_eq!(polymul_nwc(&a, &one), a);
    // distributivity over wrapping addition
    assert_eq!(polymul_nwc(&a.add(&b), &c), polymul_nwc(&a, &c).add(&polymul_nwc(&b, &c)));
    // associativity
    assert_eq!(polymul_nwc(&polymul_nwc(&a, &b), &c), polymul_nwc(&a, &polymul_nwc(&b, &c)));
    // a + a wraps to 0 at coefficient 0: both sides give 0
    let mut h = vec![0u64; 32];
    h[0] = 1 << 63;
    let h = Polynomial::new(h);
    assert_eq!(polymul_nwc(&h.add(&h), &one), polymul_nwc(&h, &one).add(&polymul_nwc(&h, &one)));
    assert_eq!(polymul_nwc(&h.add(&h), &one), zero);
    // X * X^31 = X^32 = -1 modulo X^32 + 1
    let x = Polynomial::new_monomial(32, 1, 1);
    let x31 = Polynomial::new_monomial(32, 1, 31);
    let mut minus_one = vec![0u64; 32];
    minus_one[0] = u64::MAX;
    assert_eq!(polymul_nwc(&x, &x31).coeffs(), minus_one);
}

#[test]
fn negacyclic_product_matches_the_schoolbook_product() {
    let a = Polynomial::new((0..32u64).map(|i| 5000 - i * 37).collect());
    let b = Polynomial::new((0..32u64).map(|i| 2000 - i * 11).collect());
    let mut small_b = vec![0u64; 32];
    small_b[0] = 3;
    small_b[1] = 2;
    let small_b = Polynomial::new(small_b);
    // the schoolbook version needs each difference to stay non-negative:
    // position 0 is 5000 * 3 - (5000 - 31 * 37) * 2 > 0
    let c = polymul_nwc_naive(&a, &small_b);
    assert_eq!(polymul_nwc(&a, &small_b), c);
    assert_eq!(polymul_nwc(&a, &b), polymul_nwc(&b, &a));
}

#[test]
fn negacyclic_product_of_order_2048() {
    let a = spread(3, 2048);
    let one = Polynomial::new_monomial(2048, 1, 0);
    assert_eq!(polymul_nwc(&a, &one), a);
    let x = Polynomial::new_monomial(2048, 1, 1);
    let shifted = polymul_nwc(&a, &x);
    assert_eq!(shifted.coeffs()[1], a.coeffs()[0]);
    assert_eq!(shifted.coeffs()[0], a.coeffs()[2047].wrapping_neg());
}

#[test]
fn decomposition_with_no_digits() {
    assert_eq!(decomp_int(64, 0, 100, 12345), Vec::<u64>::new());
    assert_eq!(decompose_polynomial(64, 0, 100, Polynomial::new(vec![1, 2])).len(), 0);
}

#[test]
fn text_reads_back_as_the_same_polynomial() {
    let p = spread(9, 5);
    assert_eq!(Polynomial::from_str(&p.to_string()), Ok(p.clone()));
    let empty = Polynomial::new(vec![]);
    assert_eq!(Polynomial::from_str(&empty.to_string()), Ok(empty));
}
