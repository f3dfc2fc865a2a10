//! A miniature init system: service bundles declare their dependencies and
//! target tags; this library builds the dependency graph, computes a start
//! order that is proved to respect every `need` edge, launches each service
//! exactly once, groups the resulting capabilities into named target
//! registries, and answers lookups over those registries.
//!
//! All interaction with the surrounding capability runtime happens over
//! request/reply messages; this library holds the decisions, while an
//! unverified driver performs the sends and receives and feeds the replies
//! back in as plain values.

pub mod cap;
pub mod errors;
pub mod graph;
pub mod hook;
pub mod orchestrator;
pub mod registry;
pub mod schedule;
pub mod manifest;
pub mod service;
pub mod storage;
pub mod target;

pub use cap::Capability;
pub use cap::ContentId;
pub use errors::InitError;
pub use graph::DependencyGraph;
pub use hook::HookBinding;
pub use hook::HookSend;
pub use manifest::Dependencies;
pub use manifest::License;
pub use manifest::ServiceConfig;
pub use orchestrator::Orchestrator;
pub use orchestrator::RegistrySeed;
pub use orchestrator::SpawnPlan;
pub use registry::Registry;
pub use registry::RegistryConfig;
pub use registry::RegistryRequest;
pub use registry::RegistryResponse;
pub use service::Service;
pub use storage::StorageRequest;
pub use storage::StorageRequestKind;
pub use storage::StorageSuccess;
pub use target::TargetGroup;
