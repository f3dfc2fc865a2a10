//! Service manifests.
//!
//! Every service bundle carries a declarative descriptor: a free-form
//! description, license records, the target tags the service opts into, and
//! the names of the services it depends on. Only the `need` set affects
//! scheduling; `milestone` and `waits_for` are parsed but reserved pending
//! clarified requirements.

use vstd::prelude::*;

verus! {

/// One license record of a service manifest.
#[derive(Clone, Debug)]
pub struct License {
    pub name: String,
    pub file: String,
}

/// The dependency sets a service declares. Entries are service names.
#[derive(Clone, Debug)]
pub struct Dependencies {
    /// Services that must be started before this one.
    pub need: Vec<String>,
    /// Reserved; not consulted by the scheduler.
    pub milestone: Vec<String>,
    /// Reserved; not consulted by the scheduler.
    pub waits_for: Vec<String>,
}

/// A service's declarative descriptor.
#[derive(Clone, Debug)]
pub struct ServiceConfig {
    pub description: Option<String>,
    pub license: Vec<License>,
    /// Target tags this service opts into; one registry is assembled per
    /// distinct tag over all started services.
    pub targets: Vec<String>,
    pub dependencies: Dependencies,
}

impl Dependencies {
    /// An empty dependency declaration.
    pub fn none() -> (d: Dependencies)
        ensures
            d.need@.len() == 0,
            d.milestone@.len() == 0,
            d.waits_for@.len() == 0,
    {
        Dependencies { need: Vec::new(), milestone: Vec::new(), waits_for: Vec::new() }
    }
}

impl ServiceConfig {
    /// The names this service needs, as they appear in contracts.
    pub open spec fn need_names(self) -> Seq<Seq<char>> {
        self.dependencies.need@.map_values(|s: String| s@)
    }

    /// The target tags this service declares, as they appear in contracts.
    pub open spec fn target_tags(self) -> Seq<Seq<char>> {
        self.targets@.map_values(|s: String| s@)
    }
}

} // verus!
