//! A minimal entity-component store and query engine.
//!
//! Entities are generational handles (`Entity`): a slot index paired with a
//! version counter that invalidates stale handles once a slot is recycled.
//! Each registered component kind owns a dense array of values and a bit-set
//! presence mask (`ComponentStorage`), both indexed by entity slot.  The
//! `World` ties slots, versions, the free list and the storages together;
//! `Query` resolves a requested set of component kinds by intersecting the
//! presence masks; `TaskGraph` orders named systems by their declared
//! dependencies before they run.

pub mod component;
pub mod entity;
pub mod mask;
pub mod query;
pub mod system;
pub mod world;

pub use component::{ComponentId, ComponentStorage, EcsError};
pub use entity::Entity;
pub use query::{Query, QueryIter};
pub use system::{CycleError, TaskGraph};
pub use world::World;
