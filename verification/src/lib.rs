//! A verified real-time simulation core: an entity/component table, a
//! bidirectional index between physics-body handles and their owning
//! entities, a per-frame system pipeline, and the end-of-frame
//! reclamation pass that keeps both stores consistent under insertion
//! and deletion.
//!
//! The rigid-body simulation itself is an external collaborator. The
//! core owns handle allocation and models the external world as the set
//! of live handles; every create, velocity, step, and remove it decides
//! is returned as a plain order that the host carries out against the
//! engine, and the engine's reports (contact events, stepped poses)
//! come back as plain values. All decisions — what to spawn, which
//! velocity each body gets, how contact events mutate the per-entity
//! contact lists, which bodies to reclaim — are verified here.
//!
//! The central invariants are proved rather than checked at run time:
//! between pipeline stages every owned handle is live and indexed back
//! to its owner (`entities::linked`), and at every frame boundary the
//! handle-entity mapping is a full bijection (`entities::bijective`,
//! restored by the reclamation pass). A component claiming a handle the
//! world does not recognize is therefore impossible, not an error path.
//! Linear quantities are fixed-point milliunits, so the core's
//! arithmetic is exact.

pub mod components;
pub mod entities;
pub mod laws;
pub mod resources;
pub mod systems;
pub mod tagset;
pub mod util;
