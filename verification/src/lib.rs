//! Fetch orchestration and cache consistency for peer-distributed content:
//! a binary descriptor codec, a pure descriptor generator, range planning and
//! reassembly for parallel origin downloads, a cache store with time-based
//! freshness, a single-flight session registry, the per-key fetch state
//! machine, and the tracker push that merges external descriptors into the
//! cache. Network, disk and the peer swarm stay outside; the logic that
//! decides is here, with its behaviour stated and proved.

use vstd::prelude::*;

pub mod bytefmt;
pub mod cache;
pub(crate) mod clock;
pub mod codec;
pub mod descriptor;
pub mod digest;
pub mod errors;
pub mod orchestrator;
pub mod ranges;
pub mod singleflight;
pub mod tracker;

verus! {

/// A cache entry is fresh exactly when its expiry lies strictly after `now`.
pub open spec fn spec_fresh(expires_at: i64, now: i64) -> bool {
    expires_at > now
}

/// Executable freshness test, the cache-hit criterion of the orchestrator.
pub fn is_fresh(expires_at: i64, now: i64) -> (r: bool)
    ensures
        r == spec_fresh(expires_at, now),
{
    expires_at > now
}

} // verus!
