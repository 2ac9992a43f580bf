pub mod mod_arith;
pub mod module_switch;
