//! The revision records of a cross-media production session.
use vstd::prelude::*;

verus! {

/// The version of the production session sidecar this library writes.
pub const PRODUCTION_SESSION_VERSION: u32 = 1;

/// One locked revision of a production: its number, message, author, time
/// and the snapshots of its audio and visual state.
#[derive(Debug, Clone, PartialEq, Eq)]
pub struct ProductionRevision {
    pub revision: u64,
    pub message: String,
    pub author: String,
    pub timestamp_unix: i64,
    pub audio_snapshot: Option<String>,
    pub visual_snapshot: Option<String>,
}

} // verus!
