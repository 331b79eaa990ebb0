//! Unsigned integers of unbounded size, backed by a little-endian byte
//! buffer that grows as the number does.
//!
//! A value is made from a machine integer or a boolean, or as an empty
//! buffer, and is then combined with others by `+`, `-`, `&`, `*`, `%` and
//! the two shifts `div_pow2` and `mul_pow2`. Every operation takes its
//! operands by value and gives a new value. `-` and `%` return a `Result`:
//! there is no number below zero here, and a remainder is offered by powers
//! of two only.
//!
//! - `bytes`: the number that a buffer denotes, and the encoding of a number
//!   in a given length.
//! - `canonical`: the canonical form of a buffer and the signature by which
//!   values are ordered.
//! - `uint`: the type, its storage and `resize`.
//! - `convert`: conversions from `usize`, `i32`, `u8` and `bool`.
//! - `compare`: `==` and the ordering.
//! - `additive`, `bitwise`, `multiplicative`: the operations.
//! - `error`: why an operation can decline.
//! - `laws`: what holds of the operations together.

pub mod additive;
pub mod bitwise;
pub mod bytes;
pub mod canonical;
pub mod compare;
pub mod convert;
pub mod error;
pub mod laws;
pub mod multiplicative;
pub mod uint;

pub use crate::error::DynUintError;
pub use crate::uint::DynUint;
