//! Exploration of schema-described tabular datasets: loading records against a
//! declared schema, indexing every attribute, and binning or cross-tabulating
//! the indexed values.

pub mod arff;
pub mod config;
pub mod data;
pub mod divider;
pub mod error;
pub mod index;
pub mod loader;
pub mod number;
pub mod query;
pub mod range;
pub mod sort;
pub mod text;
pub mod visu;
