pub mod glwe;
