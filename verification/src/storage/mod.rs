pub mod id_map;
pub mod name_map;
pub mod sparse_store;
