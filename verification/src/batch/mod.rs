//! The continuous-batching scheduler: what it decides and what it keeps track of.

pub mod admission;
pub mod bench;
pub mod commit;
pub mod decode;
pub mod draft;
pub mod forest;
pub mod inputs;
pub mod lane;
pub mod lane_steps;
pub mod laws;
pub mod layout;
pub mod penalty;
pub mod pick;
pub mod policy;
pub mod prefill;
pub mod prefix;
pub mod ring_steps;
pub mod rings;
pub mod rng;
pub mod route;
pub mod scheduler;
pub mod schema_laws;
pub mod slots;
pub mod sources;
pub mod steps;
pub mod tp;
pub mod tree;
pub mod tree_steps;
pub mod verify_inputs;

pub use admission::{AdmitOptions, Admitted, BatchRequest};
pub use bench::{r9_register_state, SpecBenchJob, SpecStepRec};
pub use lane::{Lane, Params, TokEvent};
pub use policy::MtpPolicy;
pub use prefill::PREFILL_CHUNK;
pub use prefix::{
    common_prefix_len, df2_carry_ok, images_compatible, request_image_identities, ImageIdentity,
    ImageSpan,
};
pub use rng::{rng_u32, splitmix64, RNG_DOM_DF2_SEL};
pub use scheduler::{BatchScheduler, DflashLane, Opening, Setup};
pub use slots::{RING_CKPT_K, RING_CKPT_STRIDE};
pub use sources::{
    classify_domain, df2_effective_src, is_df2_src, spec_source_for, Domain, SpecSource,
};
pub use tree::tree_accept_walk;
