//! Finds the project around a directory, collects its source files into one
//! text with a header per file, and lays their paths out as a tree.
//!
//! The filesystem is read by the caller: the library works on plain values
//! that describe directory listings and walked entries.

pub mod text;
pub mod tree;
pub mod locate;
pub mod aggregate;
