//! Core of a data-oriented runtime: generation-checked entity identities,
//! per-type component and resource stores with guarded access, access
//! descriptors with conflict detection, and a layered dependency graph that
//! schedules non-conflicting work units for concurrent execution.

pub mod component;
pub mod component_manager;
pub mod component_system;
pub mod dependency;
pub mod entity;
pub mod events;
pub mod graph;
pub mod query;
pub mod resource;
pub mod schedule;
pub mod tables;
