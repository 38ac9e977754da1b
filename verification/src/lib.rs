//! Reading and writing the metadata and the pixel lines of OpenEXR images.
//!
//! Everything here works on bytes in memory: a caller reads a file into a
//! buffer and hands it over, or writes out the buffer that comes back.
//! Floating-point values are carried as their IEEE 754 bit patterns, so that
//! every value round-trips bit for bit.

pub mod error;
pub mod io;
pub mod math;
pub mod compression;
pub mod file;
pub mod meta;
pub mod sort;
pub mod block;
pub mod chunk;
pub mod image;
pub mod schedule;
pub mod laws;
