//! A verified inverter for the Jenkins one-at-a-time checksum.
//!
//! The crate computes the 32-bit one-at-a-time hash of a string and, given
//! only a target checksum and an expected input length, enumerates every
//! input over a chosen character alphabet that produces that checksum.  The
//! enumeration inverts each stage of the hash's mixing pipeline exactly and
//! walks backward through the byte positions with a pruned depth-first
//! search, fanned out over parallel workers at the outermost position.
pub mod joaat;
pub mod laws;
pub mod model;
pub mod search;

pub use joaat::{hash, is_preimage, undo_finalization};
pub use search::{calculate_brute_boundaries, find_preimages};
