//! A verified compression codec for columns of 32-bit IEEE-754 measurements.
//!
//! Values travel through this crate as their raw bit patterns (`u32`), which
//! keeps every step bit-exact. A column is split into vectors of exactly 1024
//! values; each vector is transformed into frame-of-reference integers plus a
//! list of exceptions, and serialized as one self-describing record. Decoding
//! walks the records with a byte cursor and either materializes the values
//! (`grid`) or produces the addends of a streaming sum (`sum`).

pub mod bits;
pub mod bound;
pub mod record;
pub mod transform;
pub mod model;
pub mod decode;
pub mod laws;

use vstd::prelude::*;

verus! {

/// Number of values in one vector, the unit of encoding.
pub const VECTOR_SIZE: usize = 1024;

/// Number of vectors whose values share one transform-state initialization.
pub const N_VECTORS_PER_ROWGROUP: usize = 100;

/// Number of values in one row-group.
pub const ROWGROUP_SIZE: usize = 102400;

/// Bias added to the exception-count field of the record that carries the
/// column's trailing padding. Real counts never exceed 1024, so a field of
/// 1025 or more is unambiguous.
pub const MAGIC_NUMBER: u16 = 1025;

/// How an operation of this codec fails.
#[derive(Clone, Copy, Debug, PartialEq, Eq, Structural)]
pub enum AlpError {
    /// The transform state reports a scheme this codec cannot encode with.
    UnusableScheme,
    /// The compressed bytes are truncated or internally inconsistent.
    CorruptInput,
}

} // verus!
