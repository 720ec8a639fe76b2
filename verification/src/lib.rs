//! Package compatibility checks and Falcon key generation.
pub mod compat;
pub mod falcon;
