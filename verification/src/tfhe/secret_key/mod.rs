pub mod secret_key;
