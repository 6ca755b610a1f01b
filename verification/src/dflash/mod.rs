//! The block drafter that conditions on the target's hidden states.

pub mod config;
pub mod forward;
pub mod probe;
pub mod shape;
pub mod taps;
pub mod weights;
