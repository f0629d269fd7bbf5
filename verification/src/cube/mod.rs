pub mod node;
pub mod cube;
pub mod slice;
pub mod import;
pub mod laws;
pub mod splash_laws;
pub mod share_laws;
pub mod sum_laws;
pub mod import_laws;
pub mod slice_laws;
pub mod row_laws;
