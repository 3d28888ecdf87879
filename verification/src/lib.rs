//! Middle-out compression: a lossless compressor with two engines.
//!
//! - `lz`: the input is split at the midpoint and both halves are compressed
//!   outward from the middle. Fast.
//! - `model`: an online-learning context mixer that predicts the input one bit
//!   at a time and codes each bit with the arithmetic coder of `arith`. Dense.
//!
//! `codec` puts what an engine made into a container, or the data themselves
//! where that is shorter, and reads containers back. `bench` puts both engines
//! beside gzip and zstd.

pub mod arith;
pub mod bench;
pub mod codec;
pub mod error;
pub mod laws;
pub mod le;
pub mod lz;
pub mod model;
pub mod naming;
