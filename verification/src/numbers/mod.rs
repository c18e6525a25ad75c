//! Arbitrary-precision integers.

pub mod integer;
