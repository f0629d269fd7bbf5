//! An in-memory multidimensional OLAP engine: sparse cubes over dimensions with
//! ragged, weighted hierarchies, queried through SQL.

pub mod catalog;
pub mod cube;
pub mod dimension;
pub mod engine;
pub mod number;
pub mod shell;
pub mod storage;
pub mod text;
pub mod text_laws;
