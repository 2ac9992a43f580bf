use tfhela::math::modular::mod_arith::{mod_mul, mod_sub, mod_sum};
use tfhela::math::modular::module_switch::{mod_switch, rounded_div};
use tfhela::random::random::{rnd_u64_uniform, rnd_u64_uniform_binary, rnd_u64_uniform_bounded};

#[test]
fn modular_sum_difference_and_product() {
    assert_eq!(mod_sum(5, 4, 7), 2);
    assert_eq!(mod_sum(3, 2, 7), 5);
    assert_eq!(mod_sub(2, 5, 7), 4);
    assert_eq!(mod_sub(6, 1, 7), 5);
    assert_eq!(mod_mul(u64::MAX, u64::MAX, 1000), 225);
    // an unreduced first operand of mod_sum is only brought back by q
    assert_eq!(mod_sum(20, 3, 7), 16);
}

#[test]
fn rounding_division() {
    assert_eq!(rounded_div(7, 2), 4);
    assert_eq!(rounded_div(6, 4), 2);
    assert_eq!(rounded_div(5, 4), 1);
    // the addition of half the divisor wraps at 2^128
    assert_eq!(rounded_div(u128::MAX, 4), 0);
}

#[test]
fn switching_moduli() {
    assert_eq!(mod_switch(1 << 63, 1 << 64, 256), 128);
    assert_eq!(mod_switch(u64::MAX, 1 << 64, 256), 255);
    assert_eq!(mod_switch(100, 7, 14), 200);
}

#[test]
fn switching_down_and_back_stays_close() {
    let higher: u128 = 18446744073709551614;
    let lower: u128 = 18435485074641125377;
    for source in [1u64, 12345, 1 << 40, u64::MAX - 7, u64::MAX] {
        let down = mod_switch(source, higher, lower);
        let back = mod_switch(down, lower, higher);
        assert!(back <= source);
        assert!((source - back) as u128 * lower < higher + lower);
        assert!(source - back < 5);
    }
}

#[test]
fn random_draws_stay_in_range() {
    for _ in 0..100 {
        assert!(rnd_u64_uniform_binary() < 2);
        assert!(rnd_u64_uniform_bounded(10) < 10);
    }
    let a = rnd_u64_uniform();
    let b = rnd_u64_uniform();
    let c = rnd_u64_uniform();
    assert!(a != b || b != c);
}
