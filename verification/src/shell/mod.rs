pub mod args;
pub mod batch;
pub mod words;
pub mod command;
pub mod files;
pub mod laws;
