//! A single discovered service and its lazily started instance.
//!
//! A service is created when its bundle is discovered; its capability is
//! populated on the first start and memoized, so that exactly one spawn is
//! ever issued for it no matter how often starting is attempted.

use vstd::prelude::*;

use crate::cap::Capability;
use crate::errors::InitError;
use crate::manifest::ServiceConfig;

verus! {

/// One discovered service: its identity, its manifest, and the memoized
/// capability to its running instance, absent until the first start.
#[derive(Debug)]
pub struct Service {
    pub name: String,
    pub process: Option<Capability>,
    pub config: ServiceConfig,
}

/// The service after a start with `spawned` as the freshly spawned
/// capability: an already running service is left untouched, otherwise the
/// capability is memoized.
pub open spec fn started(s: Service, spawned: Capability) -> Service {
    match s.process {
        Some(_) => s,
        None => Service { name: s.name, process: Some(spawned), config: s.config },
    }
}

/// The capability a start returns: the memoized one if present, otherwise
/// the freshly spawned one.
pub open spec fn start_result(s: Service, spawned: Capability) -> Capability {
    match s.process {
        Some(c) => c,
        None => spawned,
    }
}

impl Service {
    /// A freshly discovered service; nothing is running yet.
    pub fn new(name: String, config: ServiceConfig) -> (s: Service)
        ensures
            s.name == name,
            s.process is None,
            s.config == config,
    {
        Service { name, process: None, config }
    }

    /// Whether a start would issue a spawn: true exactly while no capability
    /// is memoized yet.
    pub fn needs_spawn(&self) -> (r: bool)
        ensures
            r == (self.process is None),
    {
        self.process.is_none()
    }

    /// Record the outcome of a start. `spawned` is the capability the
    /// runtime handed back for this service's spawn; it is consulted only if
    /// none is memoized yet. Idempotent: once populated, the same capability
    /// is returned unchanged on every later call and no state changes.
    pub fn start(&mut self, spawned: Capability) -> (r: Capability)
        ensures
            *final(self) == started(*old(self), spawned),
            r == start_result(*old(self), spawned),
            final(self).process == Some(r),
    {
        match self.process {
            Some(c) => c,
            None => {
                self.process = Some(spawned);
                spawned
            },
        }
    }

    pub fn get_name(&self) -> (r: &String)
        ensures
            r == self.name,
    {
        &self.name
    }

    pub fn get_config(&self) -> (r: &ServiceConfig)
        ensures
            r == self.config,
    {
        &self.config
    }
}

/// Starting is idempotent: whatever capability a second start is offered,
/// it returns the capability of the first start and changes nothing, so at
/// most one spawn outcome is ever recorded per service.
pub proof fn lemma_start_idempotent(s: Service, first: Capability, second: Capability)
    ensures
        start_result(started(s, first), second) == start_result(s, first),
        started(started(s, first), second) == started(s, first),
{
}

/// The first capability attached to a spawn reply; a reply with none
/// attached is a fatal orchestration error.
pub fn first_attached(attached: &Vec<Capability>) -> (r: Result<Capability, InitError>)
    ensures
        attached@.len() > 0 ==> r == Ok::<Capability, InitError>(attached@[0]),
        attached@.len() == 0 ==> r == Err::<Capability, InitError>(
            InitError::MissingSpawnCapability,
        ),
{
    if attached.len() > 0 {
        Ok(attached[0])
    } else {
        Err(InitError::MissingSpawnCapability)
    }
}

} // verus!
