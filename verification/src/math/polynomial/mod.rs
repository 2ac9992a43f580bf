pub mod ct_ntt;
pub mod ntt_theory;
pub mod polynomial;
pub mod polynomial_ntt_form;
pub mod product_laws;
