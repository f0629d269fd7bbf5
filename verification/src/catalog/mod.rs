pub mod catalog;
pub mod persist;
pub mod laws;
pub mod name_laws;
