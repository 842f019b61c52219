//! The world: entity slots, versions, the free list, and every storage.

use vstd::prelude::*;

use crate::component::{ComponentId, ComponentStorage, EcsError};
use crate::entity::Entity;
use crate::mask::{mask_bits, Mask};

verus! {

/// The version a slot carries after one more despawn, wrapping at the top.
pub open spec fn next_version(v: u32) -> u32 {
    if v == u32::MAX {
        0u32
    } else {
        (v + 1) as u32
    }
}

/// How a despawn leaves one storage: the freed slot's presence bit is
/// cleared, every other slot keeps its presence bit, and no stored value
/// moves.
pub open(crate) spec fn storage_cleared<C: Copy>(
    s_old: ComponentStorage<C>,
    s_new: ComponentStorage<C>,
    slot: int,
) -> bool {
    &&& s_new.wf()
    &&& s_new.spec_len() == s_old.spec_len()
    &&& s_new.values() == s_old.values()
    &&& !s_new.spec_has(slot)
    &&& forall|i: int| 0 <= i < s_old.spec_len() && i != slot ==> s_new.spec_has(i) == s_old.spec_has(i)
}

/// A handle's validity is decided by the slot versions alone, so an
/// operation that leaves every version unchanged — a spawn, an insert, a
/// read — keeps every dead handle dead and every live handle live.
pub proof fn lemma_validity_follows_versions<C: Copy>(w1: World<C>, w2: World<C>, e: Entity)
    requires
        w1.versions() == w2.versions(),
    ensures
        w1.spec_is_alive(e) == w2.spec_is_alive(e),
{
}

/// A stale handle stays dead across a despawn.  The one exception is the
/// handle that pairs the victim's slot with the slot's next version: a
/// genuine history only hands that version out later, and only reproduces
/// an old one after the 32-bit version counter wraps all the way around.
pub proof fn lemma_dead_stays_dead_after_despawn<C: Copy>(
    w1: World<C>,
    w2: World<C>,
    victim: Entity,
    e: Entity,
)
    requires
        w1.spec_alive(victim),
        w2.versions() == w1.versions().update(victim.id as int, next_version(victim.version)),
        !w1.spec_is_alive(e),
        e.id == victim.id ==> e.version != next_version(victim.version),
    ensures
        !w2.spec_is_alive(e),
{
}

/// Recycling: despawning a live entity and then spawning reuses the same
/// slot under a strictly different version.  The freed slot lies on top of
/// the free list, so the next spawn pops exactly it and stamps it with the
/// bumped version, and no version equals its own successor.
pub proof fn lemma_despawn_then_spawn_recycles<C: Copy>(w0: World<C>, w1: World<C>, e: Entity)
    requires
        w0.wf(),
        w0.spec_alive(e),
        w1.versions() == w0.versions().update(e.id as int, next_version(e.version)),
        w1.free() == w0.free().push(e.id),
    ensures
        w1.free().len() > 0,
        w1.free().last() == e.id,
        w1.versions()[w1.free().last() as int] == next_version(e.version),
        next_version(e.version) != e.version,
        (Entity { id: e.id, version: next_version(e.version) }) != e,
{
}

/// The container that owns all entities and component storages.
///
/// Slots are numbered `0 .. max_entities`.  Each slot carries a version; a
/// handle is valid while its version matches the slot's.  Despawned slots
/// wait on a free-list stack for reuse, and an alive mask records which
/// slots are currently occupied.  Component values live in one
/// [`ComponentStorage`] per registered kind, all indexed by slot.
pub struct World<C> {
    pub(crate) max_entities: usize,
    pub(crate) entity_count: usize,
    pub(crate) component_ids: Vec<ComponentId>,
    pub(crate) components: Vec<ComponentStorage<C>>,
    pub(crate) entity_versions: Vec<u32>,
    pub(crate) free_entities: Vec<usize>,
    pub(crate) alive_mask: Mask,
}

impl<C: Copy> World<C> {
    /// The fixed slot capacity.
    pub open(crate) spec fn spec_capacity(self) -> int {
        self.max_entities as int
    }

    /// The high-water mark of slots handed out so far.
    pub open(crate) spec fn spec_count(self) -> int {
        self.entity_count as int
    }

    /// The current version of every slot.
    pub open(crate) spec fn versions(self) -> Seq<u32> {
        self.entity_versions@
    }

    /// The stack of despawned slots waiting for reuse, oldest first.
    pub open(crate) spec fn free(self) -> Seq<usize> {
        self.free_entities@
    }

    /// The alive bit of every slot.
    pub open(crate) spec fn alive(self) -> Seq<bool> {
        mask_bits(self.alive_mask)
    }

    /// The identifiers of the registered component kinds, in registration
    /// order.
    pub open(crate) spec fn kinds(self) -> Seq<ComponentId> {
        self.component_ids@
    }

    /// The storage of every registered kind, in registration order.
    pub open(crate) spec fn storages(self) -> Seq<ComponentStorage<C>> {
        self.components@
    }

    /// Whether slot `i` sits on the free list.
    pub open(crate) spec fn slot_free(self, i: int) -> bool {
        self.free().contains(i as usize)
    }

    /// Whether slot `i` is currently occupied by a live entity.
    pub open(crate) spec fn slot_live(self, i: int) -> bool {
        0 <= i < self.alive().len() && self.alive()[i]
    }

    /// Whether `cid` names a registered kind.
    pub open(crate) spec fn spec_registered(self, cid: ComponentId) -> bool {
        self.kinds().contains(cid)
    }

    /// The storage index of kind `cid`.
    pub open(crate) spec fn slot_of(self, cid: ComponentId) -> int {
        self.kinds().index_of(cid)
    }

    /// The version-comparison validity test for a handle: the sole check
    /// `is_alive` performs.
    pub open(crate) spec fn spec_is_alive(self, e: Entity) -> bool {
        e.id < self.versions().len() && self.versions()[e.id as int] == e.version
    }

    /// Whether `e` is the current occupant of a live slot: its version
    /// matches and the slot's alive bit is set.
    pub open(crate) spec fn spec_alive(self, e: Entity) -> bool {
        self.spec_is_alive(e) && self.slot_live(e.id as int)
    }

    /// Whether `e` is alive and carries a value of kind `cid`.
    pub open(crate) spec fn spec_has(self, e: Entity, cid: ComponentId) -> bool {
        self.spec_is_alive(e) && self.spec_registered(cid) && self.storages()[self.slot_of(
            cid,
        )].spec_has(e.id as int)
    }

    /// The value of kind `cid` carried by `e`, if any.
    pub open(crate) spec fn spec_get(self, e: Entity, cid: ComponentId) -> Option<C> {
        if self.spec_has(e, cid) {
            Some(self.storages()[self.slot_of(cid)].values()[e.id as int])
        } else {
            None
        }
    }

    /// The world's internal invariant: every constructor establishes it and
    /// every method preserves it.
    pub open(crate) spec fn wf(self) -> bool {
        &&& self.versions().len() == self.max_entities
        &&& self.alive().len() == self.max_entities
        &&& self.entity_count <= self.max_entities
        &&& self.kinds().len() == self.storages().len()
        // registered kinds are distinct
        &&& forall|j1: int, j2: int|
            0 <= j1 < j2 < self.kinds().len() ==> self.kinds()[j1] != self.kinds()[j2]
        // every storage covers exactly the world's slots
        &&& forall|j: int|
            0 <= j < self.storages().len() ==> (#[trigger] self.storages()[j]).wf() && self.storages()[
                j
            ].spec_len() == self.max_entities
        // free slots were handed out before, and are not alive
        &&& forall|k: int|
            0 <= k < self.free().len() ==> (#[trigger] self.free()[k]) < self.entity_count
                && !self.alive()[self.free()[k] as int]
        // the free list holds no slot twice
        &&& forall|k1: int, k2: int|
            0 <= k1 < k2 < self.free().len() ==> self.free()[k1] != self.free()[k2]
        // a handed-out slot is alive exactly when it is not on the free list
        &&& forall|i: int|
            0 <= i < self.entity_count ==> ((#[trigger] self.alive()[i]) <==> !self.slot_free(i))
        // slots never handed out are not alive
        &&& forall|i: int| self.entity_count <= i < self.max_entities ==> !(#[trigger] self.alive()[i])
        // a slot with a live component value is an alive slot
        &&& forall|j: int, i: int|
            0 <= j < self.storages().len() && 0 <= i < self.storages()[j].present().len() && (
            #[trigger] self.storages()[j].present()[i]) ==> self.slot_live(i)
    }

    /// A world with `max_entities` slots, none alive, every version zero,
    /// and no registered kind.
    pub fn new(max_entities: usize) -> (r: Self)
        ensures
            r.wf(),
            r.spec_capacity() == max_entities,
            r.spec_count() == 0,
            r.kinds().len() == 0,
            r.free().len() == 0,
            forall|i: int| 0 <= i < max_entities ==> r.versions()[i] == 0u32,
            forall|i: int| 0 <= i < max_entities ==> !r.alive()[i],
    {
        let mut entity_versions: Vec<u32> = Vec::new();
        let mut i: usize = 0;
        while i < max_entities
            invariant
                i <= max_entities,
                entity_versions@.len() == i,
                forall|j: int| 0 <= j < i ==> entity_versions@[j] == 0u32,
            decreases max_entities - i,
        {
            entity_versions.push(0);
            i = i + 1;
        }
        World {
            max_entities,
            entity_count: 0,
            component_ids: Vec::new(),
            components: Vec::new(),
            entity_versions,
            free_entities: Vec::new(),
            alive_mask: Mask::zeros(max_entities),
        }
    }

    /// Whether a handle is still valid: the version comparison against the
    /// slot's current version.  A slot index beyond the capacity never
    /// matches.
    pub fn is_alive(&self, entity: Entity) -> (r: bool)
        ensures
            r == self.spec_is_alive(entity),
    {
        entity.id < self.entity_versions.len() && self.entity_versions[entity.id] == entity.version
    }

    /// Hands out an entity: reuses the most recently freed slot when one
    /// waits, otherwise allocates the next fresh slot, and fails once every
    /// slot is taken.
    pub fn spawn_entity(&mut self) -> (r: Result<Entity, EcsError>)
        requires
            old(self).wf(),
        ensures
            final(self).wf(),
            r is Ok <==> (old(self).free().len() > 0 || old(self).spec_count() < old(
                self,
            ).spec_capacity()),
            r is Err ==> r == Err::<Entity, EcsError>(EcsError::CapacityExhausted) && *final(self)
                == *old(self),
            r is Ok ==> ({
                let e = r.unwrap();
                &&& final(self).spec_alive(e)
                &&& e.id < old(self).spec_capacity()
                &&& e.version == old(self).versions()[e.id as int]
                &&& final(self).versions() == old(self).versions()
                &&& final(self).kinds() == old(self).kinds()
                &&& final(self).storages() == old(self).storages()
                &&& final(self).spec_capacity() == old(self).spec_capacity()
                &&& final(self).alive() == old(self).alive().update(e.id as int, true)
                &&& if old(self).free().len() > 0 {
                    e.id == old(self).free().last() && final(self).free() == old(
                        self,
                    ).free().drop_last() && final(self).spec_count() == old(self).spec_count()
                } else {
                    e.id == old(self).spec_count() && final(self).free() == old(self).free()
                        && final(self).spec_count() == old(self).spec_count() + 1
                }
            }),
    {
        let id: usize = if self.free_entities.len() > 0 {
            self.free_entities.pop().unwrap()
        } else {
            if self.entity_count >= self.max_entities {
                return Err(EcsError::CapacityExhausted);
            }
            let id = self.entity_count;
            self.entity_count = self.entity_count + 1;
            id
        };
        self.alive_mask.set(id, true);
        proof {
            let prev = *old(self);
            if prev.free().len() > 0 {
                assert(prev.free()[prev.free().len() - 1] == id);
                assert(!prev.alive()[id as int]);
                // a slot appears at most once on the free list, so dropping
                // the last element removes slot `id` from it entirely
                assert forall|i: int| 0 <= i < self.entity_count implies ((#[trigger] self.alive()[i]) <==> !self.slot_free(i)) by {
                    if i == id {
                        assert(self.alive()[i]);
                        if self.slot_free(i) {
                            let k = choose|k: int|
                                0 <= k < self.free().len() && self.free()[k] == i as usize;
                            assert(prev.free()[k] == prev.free()[prev.free().len() - 1]);
                            assert(false);
                        }
                    } else {
                        assert(self.alive()[i] == prev.alive()[i]);
                        if prev.slot_free(i) {
                            let k = choose|k: int|
                                0 <= k < prev.free().len() && prev.free()[k] == i as usize;
                            assert(k < prev.free().len() - 1);
                            assert(self.free()[k] == i as usize);
                            assert(self.slot_free(i));
                        }
                        if self.slot_free(i) {
                            let k = choose|k: int|
                                0 <= k < self.free().len() && self.free()[k] == i as usize;
                            assert(prev.free()[k] == i as usize);
                            assert(prev.slot_free(i));
                        }
                    }
                }
            } else {
                assert(self.entity_count == prev.entity_count + 1);
                assert(!prev.slot_free(id as int));
                assert forall|i: int| 0 <= i < self.entity_count implies ((#[trigger] self.alive()[i]) <==> !self.slot_free(i)) by {
                    if i == id {
                        assert(self.alive()[i]);
                        assert(!self.slot_free(i));
                    } else {
                        assert(self.alive()[i] == prev.alive()[i]);
                        assert(self.slot_free(i) == prev.slot_free(i));
                    }
                }
            }
        }
        let version = self.entity_versions[id];
        Ok(Entity { id, version })
    }

    /// Frees an entity: bumps the slot's version so stale handles stop
    /// matching, clears every storage's presence bit for the slot, clears
    /// the alive bit, and pushes the slot onto the free list.  A handle that
    /// is not currently alive is tolerated as a no-op.
    pub fn despawn_entity(&mut self, entity: Entity)
        requires
            old(self).wf(),
        ensures
            final(self).wf(),
            !old(self).spec_alive(entity) ==> *final(self) == *old(self),
            old(self).spec_alive(entity) ==> ({
                &&& final(self).versions() == old(self).versions().update(
                    entity.id as int,
                    next_version(entity.version),
                )
                &&& final(self).free() == old(self).free().push(entity.id)
                &&& final(self).alive() == old(self).alive().update(entity.id as int, false)
                &&& final(self).spec_count() == old(self).spec_count()
                &&& final(self).spec_capacity() == old(self).spec_capacity()
                &&& final(self).kinds() == old(self).kinds()
                &&& final(self).storages().len() == old(self).storages().len()
                &&& forall|j: int|
                    0 <= j < old(self).storages().len() ==> #[trigger] storage_cleared(
                        old(self).storages()[j],
                        final(self).storages()[j],
                        entity.id as int,
                    )
                &&& !final(self).spec_is_alive(entity)
                &&& forall|cid: ComponentId| final(self).spec_get(entity, cid) is None
            }),
    {
        if !self.is_alive(entity) {
            return ;
        }
        if !self.alive_mask.get(entity.id) {
            // the version matches but the slot is already free: a handle
            // like this never leaves `spawn_entity`, and freeing the slot a
            // second time would corrupt the free list
            return ;
        }

        let bumped = if self.entity_versions[entity.id] == u32::MAX {
            0
        } else {
            self.entity_versions[entity.id] + 1
        };
        self.entity_versions.set(entity.id, bumped);
        self.free_entities.push(entity.id);
        self.alive_mask.set(entity.id, false);

        let ghost mid = *self;
        let mut j: usize = 0;
        while j < self.components.len()
            invariant
                old(self).wf(),
                old(self).spec_alive(entity),
                j <= self.components.len(),
                entity.id < old(self).max_entities,
                self.max_entities == mid.max_entities,
                self.entity_count == mid.entity_count,
                self.component_ids == mid.component_ids,
                self.entity_versions == mid.entity_versions,
                self.free_entities == mid.free_entities,
                self.alive_mask == mid.alive_mask,
                self.components@.len() == old(self).components@.len(),
                mid.components == old(self).components,
                forall|j2: int|
                    j <= j2 < self.storages().len() ==> self.storages()[j2] == old(
                        self,
                    ).storages()[j2],
                forall|j2: int|
                    0 <= j2 < j ==> #[trigger] storage_cleared(
                        old(self).storages()[j2],
                        self.storages()[j2],
                        entity.id as int,
                    ),
            decreases self.components@.len() - j,
        {
            proof {
                assert(self.storages()[j as int] == old(self).storages()[j as int]);
                assert(old(self).storages()[j as int].wf());
            }
            let ghost pre = *self;
            let storage = &mut self.components[j];
            storage.remove(entity.id);
            let ghost jj = j as int;
            j = j + 1;
            proof {
                assert(self.components@ == pre.components@.update(jj, self.storages()[jj]));
                assert(storage_cleared(
                    old(self).storages()[jj],
                    self.storages()[jj],
                    entity.id as int,
                ));
                assert forall|j2: int| 0 <= j2 < j implies #[trigger] storage_cleared(
                    old(self).storages()[j2],
                    self.storages()[j2],
                    entity.id as int,
                ) by {
                    if j2 < jj {
                        assert(self.storages()[j2] == pre.storages()[j2]);
                    }
                }
            }
        }

        proof {
            let prev = *old(self);
            assert(self.free().last() == entity.id);
            assert forall|i: int| 0 <= i < self.entity_count implies ((#[trigger] self.alive()[i])
                <==> !self.slot_free(i)) by {
                if i == entity.id {
                    assert(!self.alive()[i]);
                    assert(self.free()[self.free().len() - 1] == i as usize);
                    assert(self.slot_free(i));
                } else {
                    assert(self.alive()[i] == prev.alive()[i]);
                    if self.slot_free(i) {
                        let k = choose|k: int|
                            0 <= k < self.free().len() && self.free()[k] == i as usize;
                        assert(k < prev.free().len());
                        assert(prev.slot_free(i));
                    }
                    if prev.slot_free(i) {
                        let k = choose|k: int|
                            0 <= k < prev.free().len() && prev.free()[k] == i as usize;
                        assert(self.free()[k] == i as usize);
                        assert(self.slot_free(i));
                    }
                }
            }
            assert forall|k1: int, k2: int|
                0 <= k1 < k2 < self.free().len() implies self.free()[k1] != self.free()[k2] by {
                if k2 == self.free().len() - 1 {
                    assert(self.free()[k1] == prev.free()[k1]);
                    assert(!prev.alive()[prev.free()[k1] as int]);
                    assert(prev.alive()[entity.id as int]);
                }
            }
            assert(next_version(entity.version) != entity.version);
            assert forall|j: int|
                0 <= j < self.storages().len() implies (#[trigger] self.storages()[j]).wf()
                    && self.storages()[j].spec_len() == self.max_entities by {
                assert(storage_cleared(
                    prev.storages()[j],
                    self.storages()[j],
                    entity.id as int,
                ));
            }
            assert forall|j: int, i: int|
                0 <= j < self.storages().len() && 0 <= i < self.storages()[j].present().len() && (
                #[trigger] self.storages()[j].present()[i]) implies self.slot_live(i) by {
                assert(storage_cleared(
                    prev.storages()[j],
                    self.storages()[j],
                    entity.id as int,
                ));
                assert(self.storages()[j].spec_has(i));
                assert(i != entity.id);
                assert(prev.storages()[j].present()[i]);
                assert(prev.slot_live(i));
            }
        }
    }

    /// The storage index of kind `cid`, found by scanning the registry.
    pub(crate) fn find_storage(&self, cid: ComponentId) -> (r: Option<usize>)
        requires
            self.wf(),
        ensures
            match r {
                Some(j) => self.spec_registered(cid) && j == self.slot_of(cid) && j
                    < self.kinds().len() && self.kinds()[j as int] == cid,
                None => !self.spec_registered(cid),
            },
    {
        let mut j: usize = 0;
        while j < self.component_ids.len()
            invariant
                self.wf(),
                j <= self.kinds().len(),
                forall|k: int| 0 <= k < j ==> self.kinds()[k] != cid,
            decreases self.kinds().len() - j,
        {
            if self.component_ids[j] == cid {
                proof {
                    assert(self.kinds()[j as int] == cid);
                    assert(self.spec_registered(cid));
                    let idx = self.slot_of(cid);
                    assert(0 <= idx < self.kinds().len() && self.kinds()[idx] == cid);
                    assert(idx == j as int);
                }
                return Some(j);
            }
            j = j + 1;
        }
        proof {
            if self.spec_registered(cid) {
                let k = choose|k: int| 0 <= k < self.kinds().len() && self.kinds()[k] == cid;
                assert(false);
            }
        }
        None
    }

    /// Registers the component kind `cid`, allocating a storage sized to
    /// the world's capacity and pre-filled with `fill`.  Registering a kind
    /// twice is a no-op.
    pub fn register_component(&mut self, cid: ComponentId, fill: C)
        requires
            old(self).wf(),
        ensures
            final(self).wf(),
            final(self).spec_registered(cid),
            old(self).spec_registered(cid) ==> *final(self) == *old(self),
            !old(self).spec_registered(cid) ==> ({
                &&& final(self).kinds() == old(self).kinds().push(cid)
                &&& final(self).storages().len() == old(self).storages().len() + 1
                &&& forall|j: int|
                    0 <= j < old(self).storages().len() ==> final(self).storages()[j] == old(
                        self,
                    ).storages()[j]
                &&& forall|i: int|
                    0 <= i < old(self).spec_capacity() ==> !final(self).storages()[old(
                        self,
                    ).storages().len() as int].spec_has(i)
                &&& final(self).versions() == old(self).versions()
                &&& final(self).free() == old(self).free()
                &&& final(self).alive() == old(self).alive()
                &&& final(self).spec_count() == old(self).spec_count()
                &&& final(self).spec_capacity() == old(self).spec_capacity()
            }),
    {
        match self.find_storage(cid) {
            Some(_) => {},
            None => {
                let max = self.max_entities;
                self.component_ids.push(cid);
                self.components.push(ComponentStorage::new(max, fill));
                proof {
                    let prev = *old(self);
                    let n = prev.storages().len() as int;
                    assert(self.kinds()[self.kinds().len() - 1] == cid);
                    assert(self.spec_registered(cid));
                    assert(self.free() == prev.free());
                    assert forall|k: int|
                        0 <= k < self.free().len() implies (#[trigger] self.free()[k])
                            < self.entity_count && !self.alive()[self.free()[k] as int] by {
                        assert(prev.free()[k] < prev.entity_count);
                        assert(!prev.alive()[prev.free()[k] as int]);
                    }
                    assert forall|j: int|
                        0 <= j < self.storages().len() implies (#[trigger] self.storages()[j]).wf()
                            && self.storages()[j].spec_len() == self.max_entities by {
                        if j < n {
                            assert(self.storages()[j] == prev.storages()[j]);
                        }
                    }
                    assert forall|j: int, i: int|
                        0 <= j < self.storages().len()
                            && 0 <= i < self.storages()[j].present().len()
                            && (#[trigger] self.storages()[j].present()[i]) implies self.slot_live(
                            i,
                        ) by {
                        if j < n {
                            assert(prev.storages()[j].present()[i]);
                        } else {
                            assert(!self.storages()[n].spec_has(i));
                        }
                    }
                }
            },
        }
    }

    /// Writes `component` as entity `entity`'s value of kind `cid`,
    /// overwriting any earlier value.  Fails on a handle that is not
    /// currently alive, and on a kind that was never registered.
    pub fn insert(&mut self, entity: Entity, cid: ComponentId, component: C) -> (r: Result<
        (),
        EcsError,
    >)
        requires
            old(self).wf(),
        ensures
            final(self).wf(),
            !old(self).spec_alive(entity) ==> r == Err::<(), EcsError>(EcsError::InvalidEntity)
                && *final(self) == *old(self),
            old(self).spec_alive(entity) && !old(self).spec_registered(cid) ==> r == Err::<
                (),
                EcsError,
            >(EcsError::UnregisteredComponent) && *final(self) == *old(self),
            old(self).spec_alive(entity) && old(self).spec_registered(cid) ==> ({
                let slot = old(self).slot_of(cid);
                let s_old = old(self).storages()[slot];
                let s_new = final(self).storages()[slot];
                &&& r is Ok
                &&& final(self).versions() == old(self).versions()
                &&& final(self).free() == old(self).free()
                &&& final(self).alive() == old(self).alive()
                &&& final(self).spec_count() == old(self).spec_count()
                &&& final(self).spec_capacity() == old(self).spec_capacity()
                &&& final(self).kinds() == old(self).kinds()
                &&& final(self).storages().len() == old(self).storages().len()
                &&& forall|j: int|
                    0 <= j < old(self).storages().len() && j != slot ==> final(self).storages()[j]
                        == old(self).storages()[j]
                &&& s_new.present() == s_old.present().update(entity.id as int, true)
                &&& s_new.values() == s_old.values().update(entity.id as int, component)
                &&& final(self).spec_get(entity, cid) == Some(component)
            }),
    {
        if !self.is_alive(entity) {
            return Err(EcsError::InvalidEntity);
        }
        if !self.alive_mask.get(entity.id) {
            // the version matches but the slot is already free: a handle
            // like this never leaves `spawn_entity`, and writing through it
            // would attach a value to a free slot
            return Err(EcsError::InvalidEntity);
        }
        let j = match self.find_storage(cid) {
            None => { return Err(EcsError::UnregisteredComponent) },
            Some(j) => j,
        };
        let ghost pre = *self;
        let storage = &mut self.components[j];
        storage.insert(entity.id, component);
        proof {
            let slot = j as int;
            let s_old = pre.storages()[slot];
            let s_new = self.storages()[slot];
            assert(self.components@ == pre.components@.update(slot, s_new));
            assert(s_new.present().len() == s_old.present().len());
            assert forall|i: int|
                0 <= i < s_new.present().len() implies s_new.present()[i] == s_old.present().update(
                    entity.id as int,
                    true,
                )[i] by {
                if i != entity.id {
                    assert(s_new.spec_has(i) == s_old.spec_has(i));
                } else {
                    assert(s_new.spec_has(i));
                }
            }
            assert(s_new.present() =~= s_old.present().update(entity.id as int, true));
            assert forall|i: int|
                0 <= i < s_new.values().len() implies s_new.values()[i] == s_old.values().update(
                    entity.id as int,
                    component,
                )[i] by {}
            assert(s_new.values() =~= s_old.values().update(entity.id as int, component));
            assert forall|j2: int|
                0 <= j2 < self.storages().len() implies (#[trigger] self.storages()[j2]).wf()
                    && self.storages()[j2].spec_len() == self.max_entities by {}
            assert forall|j2: int, i: int|
                0 <= j2 < self.storages().len() && 0 <= i < self.storages()[j2].present().len() && (
                #[trigger] self.storages()[j2].present()[i]) implies self.slot_live(i) by {
                if j2 == slot && i == entity.id {
                } else {
                    assert(pre.storages()[j2].present()[i]);
                }
            }
            assert(self.spec_has(entity, cid));
        }
        Ok(())
    }

    /// Entity `entity`'s value of kind `cid`, if the handle is alive, the
    /// kind is registered, and the slot holds one.
    pub fn get(&self, entity: Entity, cid: ComponentId) -> (r: Option<&C>)
        requires
            self.wf(),
        ensures
            match r {
                Some(v) => self.spec_get(entity, cid) == Some(*v),
                None => self.spec_get(entity, cid) is None,
            },
    {
        if !self.is_alive(entity) {
            return None;
        }
        match self.find_storage(cid) {
            None => None,
            Some(j) => self.components[j].get(entity.id),
        }
    }

    /// A mutable borrow of entity `entity`'s value of kind `cid`, if the
    /// handle is alive, the kind is registered, and the slot holds one.
    pub fn get_mut(&mut self, entity: Entity, cid: ComponentId) -> (r: Option<&mut C>)
        requires
            old(self).wf(),
        ensures
            final(self).wf(),
            r is None ==> old(self).spec_get(entity, cid) is None && *final(self) == *old(self),
            r is Some ==> ({
                let slot = old(self).slot_of(cid);
                let s_old = old(self).storages()[slot];
                let s_new = final(self).storages()[slot];
                &&& old(self).spec_get(entity, cid) == Some(*r.unwrap())
                &&& final(self).versions() == old(self).versions()
                &&& final(self).free() == old(self).free()
                &&& final(self).alive() == old(self).alive()
                &&& final(self).spec_count() == old(self).spec_count()
                &&& final(self).spec_capacity() == old(self).spec_capacity()
                &&& final(self).kinds() == old(self).kinds()
                &&& final(self).storages().len() == old(self).storages().len()
                &&& forall|j: int|
                    0 <= j < old(self).storages().len() && j != slot ==> final(self).storages()[j]
                        == old(self).storages()[j]
                &&& s_new.present() == s_old.present()
                &&& s_new.values() == s_old.values().update(entity.id as int, *final(r.unwrap()))
                &&& final(self).spec_get(entity, cid) == Some(*final(r.unwrap()))
            }),
    {
        if !self.is_alive(entity) {
            return None;
        }
        let j = match self.find_storage(cid) {
            None => { return None },
            Some(j) => j,
        };
        if !self.components[j].has(entity.id) {
            return None;
        }
        let ghost pre = *self;
        let storage = &mut self.components[j];
        match storage.get_mut(entity.id) {
            Some(v) => Some(v),
            None => {
                proof {
                    assert(false);
                }
                None
            },
        }
    }

    /// The current version of slot `entity_id`.
    pub fn entity_version(&self, entity_id: usize) -> (r: u32)
        requires
            self.wf(),
            entity_id < self.spec_capacity(),
        ensures
            r == self.versions()[entity_id as int],
    {
        self.entity_versions[entity_id]
    }

    /// Whether entity `entity` is alive and carries a value of kind `cid`.
    pub fn has_component(&self, entity: Entity, cid: ComponentId) -> (r: bool)
        requires
            self.wf(),
        ensures
            r == self.spec_has(entity, cid),
    {
        if !self.is_alive(entity) {
            return false;
        }
        match self.find_storage(cid) {
            None => false,
            Some(j) => self.components[j].has(entity.id),
        }
    }

    /// Every slot that holds a value of kind `cid`, as entities carrying
    /// each slot's current version, in ascending slot order; nothing when
    /// the kind was never registered.
    pub fn entities_with_component(&self, cid: ComponentId) -> (r: Option<Vec<Entity>>)
        requires
            self.wf(),
        ensures
            r is Some <==> self.spec_registered(cid),
            r is Some ==> ({
                let es = r.unwrap()@;
                let s = self.storages()[self.slot_of(cid)];
                &&& forall|k: int|
                    0 <= k < es.len() ==> (#[trigger] es[k]).id < self.spec_capacity()
                        && s.spec_has(es[k].id as int) && es[k].version == self.versions()[es[k].id as int]
                &&& forall|k1: int, k2: int| 0 <= k1 < k2 < es.len() ==> es[k1].id < es[k2].id
                &&& forall|i: int|
                    0 <= i < s.spec_len() && s.spec_has(i) ==> exists|k: int|
                        0 <= k < es.len() && (#[trigger] es[k]).id == i
            }),
    {
        let j = match self.find_storage(cid) {
            None => { return None },
            Some(j) => j,
        };
        let mut out: Vec<Entity> = Vec::new();
        let mut cursor: usize = 0;
        let ghost s = self.storages()[j as int];
        loop
            invariant
                self.wf(),
                j < self.kinds().len(),
                s == self.storages()[j as int],
                cursor <= self.max_entities,
                forall|k: int|
                    0 <= k < out@.len() ==> (#[trigger] out@[k]).id < cursor && s.spec_has(
                        out@[k].id as int,
                    ) && out@[k].version == self.versions()[out@[k].id as int],
                forall|k1: int, k2: int| 0 <= k1 < k2 < out@.len() ==> out@[k1].id < out@[k2].id,
                forall|i: int|
                    0 <= i < cursor && s.spec_has(i) ==> exists|k: int|
                        0 <= k < out@.len() && (#[trigger] out@[k]).id == i,
            ensures
                forall|k: int|
                    0 <= k < out@.len() ==> (#[trigger] out@[k]).id < self.max_entities
                        && s.spec_has(out@[k].id as int) && out@[k].version == self.versions()[out@[k].id as int],
                forall|k1: int, k2: int| 0 <= k1 < k2 < out@.len() ==> out@[k1].id < out@[k2].id,
                forall|i: int|
                    0 <= i < s.spec_len() && s.spec_has(i) ==> exists|k: int|
                        0 <= k < out@.len() && (#[trigger] out@[k]).id == i,
            decreases self.max_entities - cursor,
        {
            match self.components[j].bitmask.first_one_from(cursor) {
                None => {
                    proof {
                        assert forall|i: int| 0 <= i < s.spec_len() && s.spec_has(i) implies exists|
                            k: int,
                        | 0 <= k < out@.len() && (#[trigger] out@[k]).id == i by {
                            assert(i < cursor);
                        }
                    }
                    break ;
                },
                Some(offset) => {
                    let id = cursor + offset;
                    let version = self.entity_versions[id];
                    let ghost prev_out = out@;
                    out.push(Entity { id, version });
                    proof {
                        assert(out@ == prev_out.push(Entity { id, version }));
                        assert forall|i: int| 0 <= i < id + 1 && s.spec_has(i) implies exists|
                            k: int,
                        | 0 <= k < out@.len() && (#[trigger] out@[k]).id == i by {
                            if i == id {
                                assert(out@[out@.len() - 1].id == i);
                            } else if i >= cursor {
                                assert(!s.present()[i]);
                                assert(false);
                            } else {
                                let k = choose|k: int|
                                    0 <= k < prev_out.len() && (#[trigger] prev_out[k]).id == i;
                                assert(out@[k].id == i);
                            }
                        }
                    }
                    cursor = id + 1;
                },
            }
        }
        Some(out)
    }

    /// The high-water mark of slots handed out so far, recycled holes
    /// included.
    pub fn entity_count(&self) -> (r: usize)
        ensures
            r == self.spec_count(),
    {
        self.entity_count
    }

    /// The fixed slot capacity.
    pub fn capacity(&self) -> (r: usize)
        ensures
            r == self.spec_capacity(),
    {
        self.max_entities
    }
}

} // verus!
