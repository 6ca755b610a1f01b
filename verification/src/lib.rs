//! Verified core of a GPU inference server: constrained decoding, request scheduling,
//! speculative-decoding bookkeeping and telemetry.

pub mod batch;
pub mod dflash;
pub mod dispatch_assert;
pub mod dspark;
pub mod json_schema;
pub mod kv_cache;
pub mod single;
pub mod tel;
pub mod text;
