use tfhela::math::polynomial::ct_ntt::{ct_intt, ct_ntt, egcd, iter_dit_ntt, modinv, pow};

#[test]
fn test_ntt_ones() {
    let n: usize = 32;
    let q: u64 = 18446744073709551521;
    let w: u64 = 2250779155537587393;
    let mut regular_form = [1; 32].to_vec();
    let mut ntt_form = [0; 32].to_vec();
    let mut expected_ntt_form = [0; 32].to_vec();
    expected_ntt_form[0] = n as u64;

    ct_ntt(&mut regular_form, n, q, w, &mut ntt_form).unwrap();
    assert_eq!(ntt_form, expected_ntt_form)
}

#[test]
fn test_intt_ones() {
    let n: usize = 32;
    let q: u64 = 18446744073709551521;
    let w_inv: u64 = 18006900733222636570;
    let n_inv: u64 = 17870283321406128036;
    let mut regular_form = [0; 32].to_vec();
    let mut ntt_form = [0; 32].to_vec();
    ntt_form[0] = n as u64;
    let expected_regular_form = [1; 32].to_vec();

    ct_intt(&mut ntt_form, n, q, w_inv, n_inv, &mut regular_form).unwrap();
    assert_eq!(regular_form, expected_regular_form)
}

#[test]
fn test_nc_ntt_ones() {
    let n: usize = 32;
    let q: u64 = 18446744073709550593;
    let w: u64 = 13709748631181643000;
    let mut regular_form = [1; 32].to_vec();
    let mut ntt_form = [0; 32].to_vec();
    let mut expected_ntt_form = [0; 32].to_vec();
    expected_ntt_form[0] = n as u64;

    ct_ntt(&mut regular_form, n, q, w, &mut ntt_form).unwrap();
    assert_eq!(ntt_form, expected_ntt_form)
}

#[test]
fn test_nc_intt_ones() {
    let n: usize = 32;
    let q: u64 = 18446744073709550593;
    let w_inv: u64 = 15941171536453849061;
    let n_inv: u64 = 17870283321406127137;
    let mut regular_form = [0; 32].to_vec();
    let mut ntt_form = [0; 32].to_vec();
    ntt_form[0] = n as u64;
    let expected_regular_form = [1; 32].to_vec();

    ct_intt(&mut ntt_form, n, q, w_inv, n_inv, &mut regular_form).unwrap();
    assert_eq!(regular_form, expected_regular_form)
}

#[test]
fn ntt_of_two_points() {
    // w = 4 is -1 modulo 5: the transform of [1, 2] is [1 + 2, 1 - 2] = [3, 4]
    let mut regular_form = vec![1, 2];
    let mut ntt_form = Vec::new();
    iter_dit_ntt(&mut regular_form, 2, 5, 4, &mut ntt_form).unwrap();
    assert_eq!(ntt_form, vec![3, 4]);
    assert_eq!(regular_form, vec![1, 2]);
}

#[test]
fn ntt_then_intt_gives_back_reduced_input() {
    let n: usize = 32;
    let q: u64 = 18446744073709550593;
    let w: u64 = 13709748631181643000;
    let w_inv: u64 = 15941171536453849061;
    let n_inv: u64 = 17870283321406127137;
    let input: Vec<u64> = (0..32u64).map(|i| i * 0x9E37_79B9_7F4A_7C15 + 7).collect();
    let mut regular_form = input.clone();
    let mut ntt_form = vec![0; 32];
    ct_ntt(&mut regular_form, n, q, w, &mut ntt_form).unwrap();
    let mut back = vec![0; 32];
    ct_intt(&mut ntt_form, n, q, w_inv, n_inv, &mut back).unwrap();
    let expected: Vec<u64> = input.iter().map(|v| v % q).collect();
    assert_eq!(back, expected);
}

#[test]
fn pow_reduces_each_step() {
    assert_eq!(pow(3, 4, 7), 4);
    assert_eq!(pow(10, 0, 7), 1);
    assert_eq!(pow(u64::MAX, 2, 1000), 225);
}

#[test]
fn egcd_with_a_zero_argument() {
    assert_eq!(egcd(0, 9), (9, 0, 1));
    assert_eq!(egcd(5, 0), (5, 0, 1));
}

#[test]
fn modinv_of_zero_and_of_one() {
    assert_eq!(modinv(0, 7), Ok(0));
    assert_eq!(modinv(1, 0), Err("Modular inverse does not exist".to_string()));
}

#[test]
fn transform_with_any_root_runs_and_keeps_its_input() {
    let q: u64 = 97;
    let input: Vec<u64> = (0..8u64).map(|i| i * 11 % 97).collect();
    let mut regular_form = input.clone();
    let mut ntt_form = Vec::new();
    // 2 is not a half-turn root of order 8 modulo 97
    assert_eq!(iter_dit_ntt(&mut regular_form, 8, q, 2, &mut ntt_form), Ok(()));
    assert_eq!(regular_form, input);
    assert_eq!(ntt_form.len(), 8);
    assert!(ntt_form.iter().all(|v| *v < q));
    let mut back = Vec::new();
    assert_eq!(ct_intt(&mut ntt_form.clone(), 8, q, 2, 3, &mut back), Ok(()));
    assert!(back.iter().all(|v| *v < q));
}
