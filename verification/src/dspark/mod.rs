//! The block drafter whose ring holds its own keys and values.

pub mod config;
pub mod context;
pub mod kernels;
pub mod round;
