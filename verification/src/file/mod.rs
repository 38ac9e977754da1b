//! The parts of a file, and how each is laid out in bytes.

pub mod attributes;
pub mod laws;
