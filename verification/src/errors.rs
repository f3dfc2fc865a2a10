//! Fatal orchestration errors.
//!
//! Every variant aborts the whole boot: nothing already spawned is rolled
//! back, and no operation is retried.

use vstd::prelude::*;

verus! {

/// The conditions under which orchestration halts.
#[derive(Clone, Debug, PartialEq, Eq)]
pub enum InitError {
    /// Two discovered bundles carry the same service name; names are the
    /// sole identity of a service.
    DuplicateService { name: String },
    /// A `need` entry names a service that was never discovered.
    UnresolvedDependency { service: String, dependency: String },
    /// The `need` edges contain a cycle, so no start order exists.
    DependencyCycle,
    /// A registry bootstrap listed a different number of names than it had
    /// capabilities attached.
    RegistryBootstrapMismatch { names: usize, capabilities: usize },
    /// A spawn reply arrived without the expected attached capability.
    MissingSpawnCapability,
    /// A storage reply arrived with the wrong variant for its request.
    UnexpectedStorageReply,
}

} // verus!
