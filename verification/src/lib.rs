//! The verified core of a file extension scanner.

pub mod archive;
pub mod chart;
pub mod document;
pub mod double;
pub mod elevation;
pub mod filter;
pub mod format;
pub mod json;
pub mod laws;
pub mod names;
pub mod order;
pub mod records;
pub mod report;
pub mod scan;
pub mod state;
pub mod statistics;
pub mod tally;
pub mod text;
pub mod view;
pub mod walk;
