//! Bit vectors stored in bytes; bit `i` is bit `i % 8` of byte `i / 8`.

pub mod fixed;
pub mod reference;
pub mod text;
