pub mod sql;
pub mod syntax;
pub mod laws;
pub mod join_laws;
pub mod insert_laws;
pub mod select_laws;
pub mod create_laws;
