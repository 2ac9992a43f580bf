pub mod ggsw;
pub mod product_phase;
