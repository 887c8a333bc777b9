//! Compiling device tree source straight into the memory map of the blob, in
//! one pass over the lines.
pub mod parse;
