//! The error taxonomy of the shard: configuration, protocol and decode
//! failures. All are surfaced to the host, which owns retry policy.

use vstd::prelude::*;

verus! {

/// Why the shard refused an input.
#[derive(Debug, Clone, Copy, PartialEq, Eq, Structural)]
pub enum HandleError {
    /// No checkpoint was supplied at initialization: a shard is always
    /// derived from upstream seating decisions, never created from scratch.
    MissingCheckpoint,
    /// An inbound bridge event decoded to a variant that a shard never
    /// legitimately receives.
    InvalidBridgeEvent,
    /// A payload did not parse against the closed wire format.
    MalformedData,
}

} // verus!
