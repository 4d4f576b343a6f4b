//! Errors of the realtime core. Per-connection failures stay local to
//! their session; internal invariant violations are reported as values
//! rather than aborting, so cleanup paths cannot themselves fail.

use vstd::prelude::*;

verus! {

/// What can go wrong while driving a session.
#[derive(Clone, Copy, Debug, PartialEq, Eq, Structural)]
pub enum CoreError {
    /// An inbound frame does not follow the wire grammar; only the
    /// affected direction of the session ends.
    MalformedFrame,
    /// A registry entry (a room or a channel) expected to exist is
    /// missing.
    EntryMissing,
    /// A user expected to be present in a room is not.
    UserMissing,
}

} // verus!
