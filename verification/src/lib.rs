//! A read-only, memory-compact scalar set.
//!
//! An immutable multiset of fixed-width scalar values supporting
//! amortized-constant membership tests via bucketed hashing. A set is
//! built once from a sequence of values, can be serialized to a flat
//! byte buffer, and can be reconstructed without copying by attaching
//! a handle directly onto a previously serialized value region.

pub mod bytes;
pub mod ro_scalar_set;

pub use ro_scalar_set::RoScalarSet;
pub use ro_scalar_set::Value;

