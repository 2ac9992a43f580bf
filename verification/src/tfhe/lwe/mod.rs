pub mod lwe;
