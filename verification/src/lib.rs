//! Filtered brute-force nearest-neighbour baseline over fixed-dimension vectors.
//!
//! Every 32-bit field of the dataset files is kept as its raw little-endian
//! word. Single-precision values are therefore handled by their IEEE 754 bit
//! patterns, and all decisions on them are made in integer arithmetic.

pub mod bits;
pub mod constants;
pub mod filter;
pub mod io;
pub mod search;
pub mod types;
pub mod values;
