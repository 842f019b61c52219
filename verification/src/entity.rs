//! The generational entity handle.

use vstd::prelude::*;

verus! {

/// A handle to one logical record of the `World`.
///
/// The pair `(id, version)` guards against stale access to a recycled slot:
/// two handles denote the same entity exactly when both fields agree, and a
/// slot's current version moves on whenever the slot is freed, so a handle
/// kept across a despawn stops matching.
#[derive(Clone, Copy, Debug, PartialEq, Eq, Hash, PartialOrd, Ord, Structural)]
pub struct Entity {
    /// The slot index the entity occupies in every per-kind storage.
    pub id: usize,
    /// The generation of the slot at the time the entity was spawned.
    pub version: u32,
}

} // verus!
