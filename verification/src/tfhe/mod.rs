pub mod gadget;
pub mod ggsw;
pub mod glwe;
pub mod layout;
pub mod lwe;
pub mod schemas;
pub mod secret_key;
pub mod server_key;
