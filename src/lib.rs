pub mod batch;
pub mod catalog;
pub mod config;
pub mod laws;
pub mod path;
pub mod sync;
