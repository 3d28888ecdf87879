//! What the operations are for, as relations between what goes in and what
//! comes out, and between one call and another.

pub mod arith;
pub mod bench;
pub mod bytes;
pub mod codec;
pub mod curves;
pub mod lz;
pub mod mixer;
pub mod model;
