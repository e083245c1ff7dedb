//! Keyed diff of two tabular datasets.

pub mod text;
pub mod csv;
pub mod order;
pub mod diff;
pub mod keyed;
pub mod json;
pub mod render;
pub mod options;
pub mod args;
pub mod command;
pub mod laws;
pub mod json_reading;
pub mod guarantees;
