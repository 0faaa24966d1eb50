//! Alpenglow consensus: stake-weighted voting with a one-round fast path
//! (80% of stake) and a two-round fallback path (60% of stake), block
//! dissemination by shreds, and the slot-driven engine that binds them.

use vstd::prelude::*;

pub mod codec;
pub mod consensus;
pub mod digest;
pub mod erasure;
pub mod rotor;
pub mod types;
pub mod votor;
pub mod wire;

pub use consensus::ConsensusEngine;
pub use types::{Block, BlockId, Slot, StakeWeight, ValidatorId, Vote};

verus! {

/// Protocol version.
pub const PROTOCOL_VERSION: u8 = 1;

/// Default timeout for round 1, in milliseconds.
pub const ROUND1_TIMEOUT_MS: u64 = 100;

/// Default timeout for round 2, in milliseconds.
pub const ROUND2_TIMEOUT_MS: u64 = 150;

/// Fast-path quorum, in percent of the total stake.
pub const FAST_QUORUM_PCT: u8 = 80;

/// Fallback-path quorum, in percent of the total stake.
pub const FALLBACK_QUORUM_PCT: u8 = 60;

/// Byzantine stake tolerated, in percent of the total stake.
pub const MAX_BYZANTINE_PCT: u8 = 20;

/// Offline stake tolerated, in percent of the total stake.
pub const MAX_OFFLINE_PCT: u8 = 20;

} // verus!
