use std::str::FromStr;
use tfhela::tfhe::ggsw::ggsw::GGSWCiphertext;
use tfhela::tfhe::glwe::glwe::GLWECiphertext;
use tfhela::tfhe::lwe::lwe::LWECiphertext;
use tfhela::tfhe::schemas::{LWE_Params, TFHE_test_small_u64};

#[test]
fn test_glwe_to_str_serialization() {
    let a = [0; 96].to_vec();
    let ct: GLWECiphertext<TFHE_test_small_u64, LWE_Params<TFHE_test_small_u64>> =
        GLWECiphertext::from_polynomial_list(a);

    let serialized = ct.to_string();
    let deserialized: GLWECiphertext<TFHE_test_small_u64, LWE_Params<TFHE_test_small_u64>> =
        FromStr::from_str(&serialized).unwrap();
    assert_eq!(ct.0, deserialized.0);
}

#[test]
fn test_ggsw_to_str_serialization() {
    let a = [0; 96].to_vec();
    let ct: GGSWCiphertext<TFHE_test_small_u64, LWE_Params<TFHE_test_small_u64>> =
        GGSWCiphertext::from_polynomial_list(a);

    let serialized = ct.to_string();
    let deserialized: GGSWCiphertext<TFHE_test_small_u64, LWE_Params<TFHE_test_small_u64>> =
        FromStr::from_str(&serialized).unwrap();
    assert_eq!(ct.0, deserialized.0);
}

#[test]
fn test_lwe_to_str_serialization() {
    let a = [5; 96].to_vec();
    let ct: LWECiphertext<TFHE_test_small_u64> = LWECiphertext::from_polynomial_list(a);

    let serialized = ct.to_string();
    let deserialized: LWECiphertext<TFHE_test_small_u64> = FromStr::from_str(&serialized).unwrap();
    assert_eq!(ct.0, deserialized.0);
}

#[test]
fn glwe_text_is_compact_json() {
    let ct: GLWECiphertext<TFHE_test_small_u64, LWE_Params<TFHE_test_small_u64>> =
        GLWECiphertext::from_polynomial_list(vec![1, 22, u64::MAX]);
    assert_eq!(ct.to_string(), "[1,22,18446744073709551615]");
    let back: GLWECiphertext<TFHE_test_small_u64, LWE_Params<TFHE_test_small_u64>> =
        GLWECiphertext::from_str(&ct.to_string()).unwrap();
    assert_eq!(back.0, ct.0);
}

#[test]
fn ciphertext_from_bad_text_is_err() {
    let r: Result<LWECiphertext<TFHE_test_small_u64>, &'static str> = LWECiphertext::from_str("[1,-2]");
    assert!(r.is_err());
    let g: Result<GGSWCiphertext<TFHE_test_small_u64, LWE_Params<TFHE_test_small_u64>>, &'static str> =
        GGSWCiphertext::from_str("{}");
    assert!(g.is_err());
}
