//! Component kinds, their storage, and the store's error type.

use vstd::prelude::*;

use crate::mask::{mask_bits, Mask};

verus! {

/// The identifier of one component kind.
///
/// Each kind registered with a `World` is named by a distinct token.  The
/// token is a plain integer so that equality and hashing are constant-time;
/// callers that key kinds by a static type derive the token from that type
/// once and pass it in.
#[derive(Clone, Copy, Debug, PartialEq, Eq, Hash, PartialOrd, Ord, Structural)]
pub struct ComponentId {
    /// The raw token value.
    pub raw: u64,
}

impl ComponentId {
    /// The identifier with the given raw token.
    pub fn of(raw: u64) -> (r: ComponentId)
        ensures
            r.raw == raw,
    {
        ComponentId { raw }
    }
}

/// What a `World` operation can fail with.
#[derive(Clone, Copy, Debug, PartialEq, Eq, Hash, Structural)]
pub enum EcsError {
    /// `spawn_entity` found no free slot and no room to allocate one.
    CapacityExhausted,
    /// The entity handle is stale or was never alive.
    InvalidEntity,
    /// The component kind was never registered with this world.
    UnregisteredComponent,
}

/// Dense storage for every value of one component kind.
///
/// Values sit in a plain vector indexed by entity slot, beside a presence
/// mask of the same length: `present()[i]` says whether slot `i` currently
/// holds a live value of this kind.  Removing only clears the presence bit;
/// the vector never shrinks, so slots of other entities keep their indices.
pub struct ComponentStorage<C> {
    pub(crate) data: Vec<C>,
    pub(crate) bitmask: Mask,
    pub(crate) fill: C,
}

impl<C: Copy> ComponentStorage<C> {
    /// The presence bit of every slot.
    pub open(crate) spec fn present(self) -> Seq<bool> {
        mask_bits(self.bitmask)
    }

    /// The stored value of every slot, live or not.
    pub open(crate) spec fn values(self) -> Seq<C> {
        self.data@
    }

    /// The number of slots the storage covers.
    pub open(crate) spec fn spec_len(self) -> nat {
        self.data@.len()
    }

    /// The value vector and the presence mask cover the same slots.
    pub open(crate) spec fn wf(self) -> bool {
        self.data@.len() == mask_bits(self.bitmask).len()
    }

    /// Whether slot `slot` holds a live value.
    pub open(crate) spec fn spec_has(self, slot: int) -> bool {
        0 <= slot < self.present().len() && self.present()[slot]
    }

    /// The live value at slot `slot`, if any.
    pub open(crate) spec fn spec_get(self, slot: int) -> Option<C> {
        if self.spec_has(slot) {
            Some(self.values()[slot])
        } else {
            None
        }
    }

    /// A storage covering `capacity` slots, none of them live, every slot
    /// pre-filled with `fill`.
    pub fn new(capacity: usize, fill: C) -> (r: Self)
        ensures
            r.wf(),
            r.spec_len() == capacity,
            forall|i: int| 0 <= i < capacity ==> !r.present()[i],
    {
        let mut data: Vec<C> = Vec::new();
        let mut i: usize = 0;
        while i < capacity
            invariant
                i <= capacity,
                data@.len() == i,
            decreases capacity - i,
        {
            data.push(fill);
            i = i + 1;
        }
        ComponentStorage { data, bitmask: Mask::zeros(capacity), fill }
    }

    /// Writes `component` at slot `entity` and marks the slot live, growing
    /// the storage first when the slot lies beyond its current end.
    pub fn insert(&mut self, entity: usize, component: C)
        requires
            old(self).wf(),
            entity < usize::MAX,
        ensures
            final(self).wf(),
            final(self).spec_len() == if entity < old(self).spec_len() {
                old(self).spec_len()
            } else {
                (entity + 1) as nat
            },
            final(self).spec_has(entity as int),
            final(self).values()[entity as int] == component,
            forall|j: int|
                0 <= j < final(self).spec_len() && j != entity ==> final(self).spec_has(j)
                    == old(self).spec_has(j),
            forall|j: int|
                0 <= j < old(self).spec_len() && j != entity ==> final(self).values()[j] == old(
                    self,
                ).values()[j],
    {
        if entity >= self.data.len() {
            let new_len = entity + 1;
            while self.data.len() < new_len
                invariant
                    old(self).spec_len() <= self.data@.len() <= new_len,
                    self.bitmask == old(self).bitmask,
                    self.fill == old(self).fill,
                    forall|j: int|
                        0 <= j < old(self).spec_len() ==> self.data@[j] == old(self).values()[j],
                decreases new_len - self.data@.len(),
            {
                let f = self.fill;
                self.data.push(f);
            }
        }
        self.data.set(entity, component);

        if entity >= self.bitmask.len() {
            self.bitmask.resize(entity + 1, false);
        }
        self.bitmask.set(entity, true);
    }

    /// Clears the presence bit of slot `entity`; the stale value stays in
    /// the vector until overwritten.  A slot beyond the end is a no-op.
    pub fn remove(&mut self, entity: usize)
        requires
            old(self).wf(),
        ensures
            final(self).wf(),
            final(self).spec_len() == old(self).spec_len(),
            final(self).values() == old(self).values(),
            !final(self).spec_has(entity as int),
            forall|j: int|
                0 <= j < old(self).spec_len() && j != entity ==> final(self).spec_has(j) == old(
                    self,
                ).spec_has(j),
    {
        if entity < self.bitmask.len() {
            self.bitmask.set(entity, false);
        }
    }

    /// The live value at slot `entity`, if any.
    pub fn get(&self, entity: usize) -> (r: Option<&C>)
        requires
            self.wf(),
        ensures
            match r {
                Some(v) => self.spec_has(entity as int) && *v == self.values()[entity as int],
                None => !self.spec_has(entity as int),
            },
    {
        if !self.has(entity) {
            return None;
        }
        Some(&self.data[entity])
    }

    /// A mutable borrow of the live value at slot `entity`, if any.
    pub fn get_mut(&mut self, entity: usize) -> (r: Option<&mut C>)
        requires
            old(self).wf(),
        ensures
            final(self).wf(),
            final(self).present() == old(self).present(),
            r is None ==> !old(self).spec_has(entity as int) && *final(self) == *old(self),
            r is Some ==> old(self).spec_has(entity as int) && *r.unwrap() == old(self).values()[
                entity as int
            ] && final(self).values() == old(self).values().update(
                entity as int,
                *final(r.unwrap()),
            ),
    {
        if !self.has(entity) {
            return None;
        }
        Some(&mut self.data[entity])
    }

    /// Whether slot `entity` holds a live value.
    pub fn has(&self, entity: usize) -> (r: bool)
        ensures
            r == self.spec_has(entity as int),
    {
        entity < self.bitmask.len() && self.bitmask.get(entity)
    }
}

} // verus!
