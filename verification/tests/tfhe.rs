use tfhela::math::polynomial::polynomial::{decompose_polynomial, Polynomial, Q};
use tfhela::tfhe::ggsw::ggsw::GGSWCiphertext;
use tfhela::tfhe::glwe::glwe::GLWECiphertext;
use tfhela::tfhe::schemas::{
    from_poly_list, GLWE_Params, LWE_CT_Params, LWE_Params, LWE_Params_after_extraction,
    TFHESchema, TFHE_test_small_u64,
};
use tfhela::tfhe::secret_key::secret_key::GLWE_secret_key;
use tfhela::tfhe::server_key::cmux::{cmux, cmux_};
use tfhela::tfhe::server_key::extract_sample::extract_sample;
use tfhela::tfhe::server_key::server_key::{EvaluatingKey, KeyswitchingKey};

#[derive(Debug, PartialEq, Clone, Copy)]
struct Tiny;

impl TFHESchema for Tiny {
    const LWE_K: usize = 2;
    const GLWE_N: usize = 256;
    const GLWE_K: usize = 1;
    const GLWE_Q: usize = 64;
    const GLEV_B: usize = 4;
    const GLEV_L: usize = 2;
    const CT_MODULUS: u64 = u64::MAX;
}

type Small = TFHE_test_small_u64;

fn spread(seed: u64, n: usize) -> Polynomial {
    Polynomial::new((0..n as u64).map(|i| (i + seed).wrapping_mul(0x9E37_79B9_7F4A_7C15)).collect())
}

fn small(seed: u64, n: usize) -> Polynomial {
    Polynomial::new((0..n as u64).map(|i| (i * 7 + seed) % 5).collect())
}

#[test]
fn decryption_undoes_encryption_with_given_masks() {
    let key = Polynomial::new((0..256u64).map(|i| i % 2).collect());
    let sk: GLWE_secret_key<Small, GLWE_Params<Small>> = GLWE_secret_key::from_scalar_vector(key.coeffs());
    let m = spread(1, 256);
    let e = small(3, 256);
    let masks = vec![spread(9, 256)];
    let ct = sk.encrypt_with(&m, &masks, &e);
    assert_eq!(ct.0.len(), 512);
    assert_eq!(ct.get_poly_by_index(0), masks[0]);
    assert_eq!(sk.decrypt(&ct), m.add_mod_q(&e));
}

#[test]
fn decryption_undoes_encryption_with_drawn_masks() {
    let sk: GLWE_secret_key<Small, GLWE_Params<Small>> = GLWE_secret_key::new_random();
    let m = spread(4, 256);
    let e = small(1, 256);
    let ct = sk.encrypt(&m, &e);
    assert_eq!(sk.decrypt(&ct), m.add_mod_q(&e));
    let zero = Polynomial::new_zero(256);
    let ct0 = sk.encrypt(&m, &zero);
    assert_eq!(sk.decrypt(&ct0), m.add_mod_q(&zero));
    let small_m = small(2, 256);
    let ct1 = sk.encrypt(&small_m, &zero);
    assert_eq!(sk.decrypt(&ct1), small_m);
}

#[test]
fn lwe_decryption_undoes_encryption() {
    let sk: GLWE_secret_key<Small, LWE_Params<Small>> = GLWE_secret_key::new_random();
    let m = Polynomial::new(vec![5u64 << 58]);
    let e = Polynomial::new(vec![3]);
    let ct = sk.encrypt(&m, &e);
    assert_eq!(ct.0.len(), 501);
    assert_eq!(sk.decrypt(&ct).coeffs(), vec![(5u64 << 58) + 3]);
}

#[test]
fn fresh_keys_repeat_one_bit_per_polynomial() {
    let glwe: GLWE_secret_key<Small, GLWE_Params<Small>> = GLWE_secret_key::new_random();
    for i in 0..3 {
        assert_eq!(glwe.get_poly_by_index(i).coeffs(), vec![1u64; 256]);
    }
    let lwe: GLWE_secret_key<Small, LWE_Params<Small>> = GLWE_secret_key::new_random();
    for i in 0..500 {
        assert!(lwe.get_poly_by_index(i).coeffs()[0] < 2);
    }
    let extracted: GLWE_secret_key<Small, LWE_Params_after_extraction<Small>> = glwe.extract_key();
    assert_eq!(extracted.get_poly_by_index(300).coeffs(), vec![1]);
}

#[test]
fn ciphertext_sum_difference_and_product() {
    type Ct = GLWECiphertext<Tiny, GLWE_Params<Tiny>>;
    let a: Vec<u64> = (0..512u64).map(|i| u64::MAX - i).collect();
    let b: Vec<u64> = (0..512u64).map(|i| i * 3).collect();
    let ca = Ct::from_polynomial_list(a.clone());
    let cb = Ct::from_polynomial_list(b.clone());
    let p = Q as i128 + 1;
    let sum: Vec<u64> = a.iter().zip(b.iter()).map(|(x, y)| ((*x as i128 + *y as i128).rem_euclid(p)) as u64).collect();
    let diff: Vec<u64> = a.iter().zip(b.iter()).map(|(x, y)| ((*x as i128 - *y as i128).rem_euclid(p)) as u64).collect();
    assert_eq!(ca.add(&cb).0, sum);
    assert_eq!(ca.add(&cb).0, cb.add(&ca).0);
    assert_eq!(ca.sub(&cb).0, diff);
    let x = Polynomial::new_monomial(256, 1, 1);
    let rotated = cb.mul(&x);
    // multiplying by X moves each coefficient up by one, the last one wrapping to the front
    assert_eq!(rotated.get_poly_by_index(0).coeffs()[0], b[255]);
    assert_eq!(rotated.get_poly_by_index(0).coeffs()[1], b[0]);
    assert_eq!(rotated.get_poly_by_index(1).coeffs()[0], b[511]);
    let mut cc = Ct::from_polynomial_list(vec![Q; 512]);
    cc.add_assign(&Ct::from_polynomial_list(vec![2; 512]));
    assert_eq!(cc.0, vec![1; 512]);
}

#[test]
fn cmux_with_a_zero_condition_keeps_if_false() {
    type Ct = GLWECiphertext<Tiny, GLWE_Params<Tiny>>;
    let cond: GGSWCiphertext<Tiny, GLWE_Params<Tiny>> = GGSWCiphertext::from_polynomial_list(vec![0; 2 * 2 * 2 * 256]);
    let t = Ct::from_polynomial_list((0..512u64).map(|i| i * 11).collect());
    let f = Ct::from_polynomial_list((0..512u64).map(|i| i + 1000).collect());
    assert_eq!(cmux(&cond, &t, &f).0, f.0);
    let (res, log) = cmux_(&cond, &t, &f);
    assert_eq!(res.0, f.0);
    let names: Vec<&str> = log.iter().map(|(s, _)| s.as_str()).collect();
    assert_eq!(names, vec!["if_true", "if_false", "diff", "mul", "res"]);
    assert_eq!(log[3].1 .0, vec![0; 512]);
}

#[test]
fn external_product_with_a_unit_row() {
    // a GGSW whose only nonzero polynomial is the constant 1 at row 1, digit 0,
    // output 1 picks digit 0 of the body of the GLWE ciphertext
    let mut data = vec![0u64; 2 * 2 * 2 * 256];
    let index = 1 * (2 * 2) + 0 * 2 + 1;
    data[index * 256] = 1;
    let ggsw: GGSWCiphertext<Tiny, GLWE_Params<Tiny>> = GGSWCiphertext::from_polynomial_list(data);
    let mut glwe_data = vec![0u64; 512];
    glwe_data[256] = 0xA300_0000_0000_0000;
    glwe_data[257] = 0x5000_0000_0000_0000;
    let glwe: GLWECiphertext<Tiny, GLWE_Params<Tiny>> = GLWECiphertext::from_polynomial_list(glwe_data);
    let out = ggsw.mul(&glwe);
    assert_eq!(out.get_poly_by_index(0).coeffs(), vec![0; 256]);
    let body = out.get_poly_by_index(1).coeffs();
    assert_eq!(body[0], 0xA);
    assert_eq!(body[1], 0x5);
    assert_eq!(body[2], 0);
}

#[test]
fn extracting_one_coefficient() {
    let ct: GLWECiphertext<Small, GLWE_Params<Small>> = GLWECiphertext::from_polynomial_list((0..512u64).collect());
    let lwe: GLWECiphertext<Small, LWE_Params_after_extraction<Small>> = extract_sample(&ct, 7);
    assert_eq!(lwe.0.len(), 257);
    assert_eq!(lwe.0[0], 7);
    assert_eq!(lwe.0[7], 0);
    assert_eq!(lwe.0[8], 255);
    assert_eq!(lwe.0[255], 8);
    assert_eq!(lwe.0[256], 256 + 7);
}

#[test]
fn key_switch_with_a_zero_key_keeps_the_body() {
    let ksk: KeyswitchingKey<Tiny, LWE_Params<Tiny>, LWE_Params<Tiny>> =
        KeyswitchingKey::from_polynomial_list(vec![0; 2 * 2 * 3]);
    let ct: GLWECiphertext<Tiny, LWE_Params<Tiny>> = GLWECiphertext::from_polynomial_list(vec![9, 8, 77]);
    assert_eq!(ksk.switch_key(&ct).0, vec![0, 0, 77]);
    assert_eq!(ksk.get_poly_by_index(5).coeffs(), vec![0]);
}

#[test]
fn glev_levels_decrypt_to_shifted_messages() {
    let sk: GLWE_secret_key<Tiny, GLWE_Params<Tiny>> = GLWE_secret_key::new_random();
    let m = Polynomial::new_monomial(256, 3, 0);
    let noise = vec![small(1, 256), small(2, 256)];
    let mut acc: Vec<Polynomial> = Vec::new();
    assert_eq!(sk.encrypt_glev(&m, &noise, 0, &mut acc), Ok(()));
    assert_eq!(acc.len(), 4);
    for level in 0..2usize {
        let ct: GLWECiphertext<Tiny, GLWE_Params<Tiny>> = GLWECiphertext::from_polynomial_list(
            <Vec<u64> as from_poly_list>::from(acc[2 * level..2 * level + 2].to_vec()),
        );
        let shift = 64 - 4 * (level + 1);
        let shifted = Polynomial::new(m.coeffs().iter().map(|v| v << shift).collect());
        assert_eq!(sk.decrypt(&ct), shifted.add_mod_q(&noise[level]));
    }
}

#[test]
fn ggsw_and_server_keys_have_their_sizes() {
    let sk: GLWE_secret_key<Tiny, GLWE_Params<Tiny>> = GLWE_secret_key::new_random();
    let noise: Vec<Polynomial> = (0..4).map(|i| small(i, 256)).collect();
    let m = Polynomial::new_monomial(256, 1, 0);
    let g = sk.encrypt_ggsw(&m, &noise);
    assert_eq!(g.0.len(), 2 * 2 * 2 * 256);
    // row 1, level 0 encrypts m << 60 with noise[2]
    let row: GLWECiphertext<Tiny, GLWE_Params<Tiny>> =
        GLWECiphertext::from_polynomial_list(g.0[4 * 256..6 * 256].to_vec());
    let expected = Polynomial::new(m.coeffs().iter().map(|v| v << 60).collect()).add_mod_q(&noise[2]);
    assert_eq!(sk.decrypt(&row), expected);

    let old: GLWE_secret_key<Tiny, LWE_Params<Tiny>> = GLWE_secret_key::new_random();
    let bsk_noise: Vec<Vec<Polynomial>> = (0..2).map(|_| noise.clone()).collect();
    let bsk = sk.create_bootstrapping_key(&old, &bsk_noise);
    assert_eq!(bsk.key.len(), 2);
    assert_eq!(bsk.key[1].0.len(), 2 * 2 * 2 * 256);

    let lwe_new: GLWE_secret_key<Tiny, LWE_Params<Tiny>> = GLWE_secret_key::new_random();
    let ks_noise: Vec<Polynomial> = (0..4).map(|i| Polynomial::new(vec![i])).collect();
    let ksk = lwe_new.create_keyswitching_key(&old, &ks_noise);
    assert_eq!(ksk.key.len(), 2 * 2 * 3);
}

#[test]
fn bootstrap_with_a_zero_key_rotates_the_test_polynomial() {
    let zero_ggsw = || GGSWCiphertext::<Tiny, GLWE_Params<Tiny>>::from_polynomial_list(vec![0; 2 * 2 * 2 * 256]);
    let sk: GLWE_secret_key<Tiny, GLWE_Params<Tiny>> = GLWE_secret_key::new_random();
    let old: GLWE_secret_key<Tiny, LWE_Params<Tiny>> = GLWE_secret_key::new_random();
    let bsk_noise: Vec<Vec<Polynomial>> = (0..2).map(|_| vec![Polynomial::new_zero(256); 4]).collect();
    let mut bsk = sk.create_bootstrapping_key(&old, &bsk_noise);
    bsk.key = vec![zero_ggsw(), zero_ggsw()];
    let ct: GLWECiphertext<Tiny, LWE_Params<Tiny>> = GLWECiphertext::from_polynomial_list(vec![1 << 62, 1 << 63, 0]);
    let (lut, log) = bsk.bootstrap(&ct);
    assert!(log.is_empty());
    // the body switches to 0, so the test polynomial is multiplied by X^255
    let body = lut.get_poly_by_index(1).coeffs();
    for c in 0..256usize {
        let k = (c + 1) % 256;
        assert_eq!(body[c], ((k / 16) as u64) << 60);
    }
    assert_eq!(lut.get_poly_by_index(0).coeffs(), vec![0; 256]);

    let ksk: KeyswitchingKey<Tiny, LWE_Params_after_extraction<Tiny>, LWE_Params<Tiny>> =
        KeyswitchingKey::from_polynomial_list(vec![0; 256 * 2 * 3]);
    let ek = EvaluatingKey::new(bsk, ksk);
    assert_eq!(ek.eval(&ct).0, vec![0, 0, body[0]]);
    assert_eq!(<LWE_Params_after_extraction<Tiny> as LWE_CT_Params<Tiny>>::MASK_SIZE, 256);
}

#[test]
fn adding_encryptions_adds_the_messages() {
    let sk: GLWE_secret_key<Small, GLWE_Params<Small>> = GLWE_secret_key::new_random();
    let a = small(1, 256);
    let b = small(3, 256);
    let zero = Polynomial::new_zero(256);
    let ca = sk.encrypt(&a, &zero);
    let cb = sk.encrypt(&b, &zero);
    assert_eq!(sk.decrypt(&ca.add(&cb)), a.add_mod_q(&b));
    assert_eq!(sk.decrypt(&ca.sub(&cb)), a.sub_mod_q(&b));
    let ea = small(4, 256);
    let eb = small(2, 256);
    let na = sk.encrypt(&a, &ea);
    let nb = sk.encrypt(&b, &eb);
    assert_eq!(sk.decrypt(&na.add(&nb)), a.add_mod_q(&ea).add_mod_q(&b.add_mod_q(&eb)));
}

#[test]
fn adding_encryptions_with_extreme_masks() {
    let sk: GLWE_secret_key<Small, LWE_Params<Small>> =
        GLWE_secret_key::from_scalar_vector(vec![1; 500]);
    let masks: Vec<Polynomial> = (0..500).map(|_| Polynomial::new(vec![u64::MAX])).collect();
    let zero = Polynomial::new(vec![0]);
    let c3 = sk.encrypt_with(&Polynomial::new(vec![3]), &masks, &zero);
    let c4 = sk.encrypt_with(&Polynomial::new(vec![4]), &masks, &zero);
    assert_eq!(sk.decrypt(&c3.add(&c4)).coeffs(), vec![7]);
    assert_eq!(sk.decrypt(&c4.sub(&c3)).coeffs(), vec![1]);
    assert_eq!(sk.decrypt(&c3.sub(&c4)).coeffs(), vec![Q]);
}

#[test]
fn extraction_keeps_what_a_coefficient_decrypts_to() {
    let key = Polynomial::new((0..256u64).map(|i| (i * 7 / 3) % 2).collect());
    let sk: GLWE_secret_key<Small, GLWE_Params<Small>> = GLWE_secret_key::from_scalar_vector(key.coeffs());
    let m = spread(11, 256);
    let e = small(5, 256);
    let ct = sk.encrypt(&m, &e);
    let phase = sk.decrypt(&ct);
    let lwe_key: GLWE_secret_key<Small, LWE_Params_after_extraction<Small>> = sk.extract_key();
    for pos in [0usize, 7, 200, 255] {
        let lwe: GLWECiphertext<Small, LWE_Params_after_extraction<Small>> = extract_sample(&ct, pos);
        assert_eq!(lwe_key.decrypt(&lwe).coeffs(), vec![phase.coeffs()[pos]]);
    }
}

#[test]
fn bootstrap_with_a_lookup_table() {
    let zero_ggsw = || GGSWCiphertext::<Tiny, GLWE_Params<Tiny>>::from_polynomial_list(vec![0; 2 * 2 * 2 * 256]);
    let sk: GLWE_secret_key<Tiny, GLWE_Params<Tiny>> = GLWE_secret_key::new_random();
    let old: GLWE_secret_key<Tiny, LWE_Params<Tiny>> = GLWE_secret_key::new_random();
    let bsk_noise: Vec<Vec<Polynomial>> = (0..2).map(|_| vec![Polynomial::new_zero(256); 4]).collect();
    let mut bsk = sk.create_bootstrapping_key(&old, &bsk_noise);
    bsk.key = vec![zero_ggsw(), zero_ggsw()];
    // f(e) = 15 - e on 4-bit messages
    let table: Vec<u64> = (0..16u64).map(|e| 15 - e).collect();
    let ct: GLWECiphertext<Tiny, LWE_Params<Tiny>> = GLWECiphertext::from_polynomial_list(vec![1 << 62, 1 << 63, 0]);
    let (lut, log) = bsk.bootstrap_with(&ct, &table);
    assert!(log.is_empty());
    let body = lut.get_poly_by_index(1).coeffs();
    for c in 0..256usize {
        let k = (c + 1) % 256;
        assert_eq!(body[c], (15 - (k / 16) as u64) << 60);
    }
    let identity = tfhela::tfhe::server_key::server_key::BootstrappingKey::<Tiny, LWE_Params<Tiny>, GLWE_Params<Tiny>>::identity_lookup_table();
    assert_eq!(identity, (0..16u64).collect::<Vec<u64>>());
    assert_eq!(bsk.bootstrap_with(&ct, &identity).0, bsk.bootstrap(&ct).0);

    let ksk: KeyswitchingKey<Tiny, LWE_Params_after_extraction<Tiny>, LWE_Params<Tiny>> =
        KeyswitchingKey::from_polynomial_list(vec![0; 256 * 2 * 3]);
    let ek = EvaluatingKey::new(bsk, ksk);
    assert_eq!(ek.eval_with(&ct, &table).0, vec![0, 0, body[0]]);
}

#[test]
fn key_switch_moves_a_message_to_the_new_key() {
    for seed in 0..4u64 {
        let old: GLWE_secret_key<Tiny, LWE_Params<Tiny>> =
            GLWE_secret_key::from_scalar_vector(vec![seed % 2, (seed / 2) % 2]);
        let new: GLWE_secret_key<Tiny, LWE_Params<Tiny>> = GLWE_secret_key::from_scalar_vector(vec![1, 0]);
        let ks_noise: Vec<Polynomial> = (0..4).map(|i| Polynomial::new(vec![i % 2])).collect();
        let ksk: KeyswitchingKey<Tiny, LWE_Params<Tiny>, LWE_Params<Tiny>> =
            new.create_keyswitching_key(&old, &ks_noise);
        // the message sits in the middle of its top-bits window
        let m = Polynomial::new(vec![(5u64 << 60) + (1u64 << 59)]);
        let ct = old.encrypt(&m, &Polynomial::new(vec![2]));
        let switched = ksk.switch_key(&ct);
        let v = new.decrypt(&switched).coeffs()[0];
        // the message survives in the top bits; the rest is noise and the
        // low bits of the masks that the digits leave out
        assert_eq!(v >> 60, 5);
    }
}

#[test]
fn external_product_decrypts_to_digits_times_row_phases() {
    let sk: GLWE_secret_key<Tiny, GLWE_Params<Tiny>> =
        GLWE_secret_key::from_scalar_vector((0..256u64).map(|i| (i / 3) % 2).collect());
    let m = Polynomial::new_monomial(256, 1, 3);
    let noise: Vec<Polynomial> = (0..4).map(|i| small(i, 256)).collect();
    let ggsw = sk.encrypt_ggsw(&m, &noise);
    let glwe = sk.encrypt(&spread(2, 256), &small(7, 256));
    let out = ggsw.mul(&glwe);
    let mut expected = Polynomial::new_zero(256);
    for g in 0..2usize {
        let digits = decompose_polynomial(64, 2, 4, glwe.get_poly_by_index(g));
        for t in 0..2usize {
            let base = g * 4 + t * 2;
            let row: GLWECiphertext<Tiny, GLWE_Params<Tiny>> =
                GLWECiphertext::from_polynomial_list(ggsw.0[base * 256..(base + 2) * 256].to_vec());
            expected = expected.add_mod_q(&digits[t].mul(&sk.decrypt(&row)));
        }
    }
    assert_eq!(sk.decrypt(&out), expected);
}

#[test]
fn cmux_decrypts_to_the_product_plus_if_false() {
    let sk: GLWE_secret_key<Tiny, GLWE_Params<Tiny>> =
        GLWE_secret_key::from_scalar_vector((0..256u64).map(|i| (i / 5) % 2).collect());
    let noise: Vec<Polynomial> = (0..4).map(|i| small(i + 3, 256)).collect();
    let cond = sk.encrypt_ggsw(&Polynomial::new_monomial(256, 1, 0), &noise);
    let if_true = sk.encrypt(&spread(4, 256), &small(1, 256));
    let if_false = sk.encrypt(&spread(5, 256), &small(2, 256));
    let result = cmux(&cond, &if_true, &if_false);
    let product = cond.mul(&if_true.sub(&if_false));
    assert_eq!(sk.decrypt(&result), sk.decrypt(&product).add_mod_q(&sk.decrypt(&if_false)));
}

#[test]
fn cmux_and_traced_cmux_agree_on_reduced_inputs() {
    let sk: GLWE_secret_key<Tiny, GLWE_Params<Tiny>> =
        GLWE_secret_key::from_scalar_vector((0..256u64).map(|i| (i / 3) % 2).collect());
    let noise: Vec<Polynomial> = (0..4).map(|i| small(i + 7, 256)).collect();
    let cond = sk.encrypt_ggsw(&Polynomial::new_monomial(256, 1, 0), &noise);
    let if_true = sk.encrypt(&spread(6, 256), &small(3, 256));
    let if_false = sk.encrypt(&spread(2, 256), &small(4, 256));
    let (traced, log) = cmux_(&cond, &if_true, &if_false);
    assert_eq!(cmux(&cond, &if_true, &if_false).0, traced.0);
    assert_eq!(log[4].1 .0, traced.0);
}

#[test]
fn decryption_keeps_the_top_bits_under_small_noise() {
    let sk: GLWE_secret_key<Small, GLWE_Params<Small>> = GLWE_secret_key::new_random();
    let m = Polynomial::new((0..256u64).map(|i| ((i * 37) % 64) << 58).collect());
    // noise as the Gaussian sampler hands it over: small values and their
    // negatives wrapped to 2^64
    let e = Polynomial::new((0..256u64).map(|i| if i % 3 == 0 { (i % 7).wrapping_neg() } else { i % 5 }).collect());
    let ct = sk.encrypt(&m, &e);
    let d = sk.decrypt(&ct);
    for i in 0..256 {
        assert_eq!(d.coeffs()[i] >> 58, m.coeffs()[i] >> 58);
    }
}

#[test]
fn extracted_sample_keeps_the_top_bits_under_small_noise() {
    let sk: GLWE_secret_key<Small, GLWE_Params<Small>> = GLWE_secret_key::new_random();
    let m = Polynomial::new((0..256u64).map(|i| (((i * 91) % 256) >> 6) << 62).collect());
    let e = Polynomial::new((0..256u64).map(|i| if i % 2 == 0 { (i % 4).wrapping_neg() } else { i % 3 }).collect());
    let ct = sk.encrypt(&m, &e);
    let sk_lwe: GLWE_secret_key<Small, LWE_Params_after_extraction<Small>> = sk.extract_key();
    for pos in [0usize, 7, 100, 255] {
        let lwe: GLWECiphertext<Small, LWE_Params_after_extraction<Small>> = extract_sample(&ct, pos);
        assert_eq!(sk_lwe.decrypt(&lwe).coeffs()[0] >> 62, m.coeffs()[pos] >> 62);
    }
}
