//! The computations behind the command-line tools

pub mod p_free;
