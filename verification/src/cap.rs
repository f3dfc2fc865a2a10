//! Plain tokens standing for runtime handles.
//!
//! A capability is an unforgeable reference to one running unit; a content
//! id addresses an immutable blob in content-addressed storage. The runtime
//! mints the real handles; the driver numbers them and hands these tokens to
//! the library, so that the orchestration logic can carry, compare and store
//! them as ordinary values.

use vstd::prelude::*;

verus! {

/// A reference token granting its holder permission to address one running
/// unit. Holding the token is the sole way to reach the unit it names.
#[derive(Clone, Copy, PartialEq, Eq, Structural, Debug)]
pub struct Capability {
    pub handle: u64,
}

/// An address of one immutable blob (such as a service's executable payload)
/// in content-addressed storage.
#[derive(Clone, Copy, PartialEq, Eq, Structural, Debug)]
pub struct ContentId {
    pub id: u64,
}

} // verus!
