pub mod cmux;
pub mod extract_sample;
pub mod server_key;
pub mod switch_phase;
