//! What the operations of the library are for, stated of texts and lists that are put together
//! from their parts, and of the results that those must have.

pub mod cache;
pub mod clusters;
pub mod config;
pub mod cpus;
pub mod decimal;
pub mod document;
pub mod packages;
pub mod rules;
pub mod run;
pub mod scan;
pub mod text;
