pub mod dictionary;
pub mod dimension;
pub mod hierarchy;
pub mod tree_laws;
pub mod type_laws;
pub mod laws;
pub mod order_laws;
pub mod weight_laws;
pub mod edit_laws;
pub mod removal_laws;
