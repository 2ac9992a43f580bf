pub mod modular;
pub mod polynomial;
pub mod summation;
