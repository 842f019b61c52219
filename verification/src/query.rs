//! Queries: bitmask-driven selection of entities by component kinds.

use vstd::prelude::*;

use crate::component::ComponentId;
use crate::entity::Entity;
use crate::mask::{mask_bits, Mask};
use crate::world::World;

verus! {

/// Whether every kind in `ids` is registered with `w`.
pub open(crate) spec fn all_registered<C: Copy>(w: World<C>, ids: Seq<ComponentId>) -> bool {
    forall|k: int| 0 <= k < ids.len() ==> w.spec_registered(ids[k])
}

/// Whether slot `i` carries a value of every kind in `ids`.
pub open(crate) spec fn query_matches<C: Copy>(w: World<C>, ids: Seq<ComponentId>, i: int) -> bool {
    forall|k: int|
        0 <= k < ids.len() ==> w.storages()[w.slot_of(#[trigger] ids[k])].spec_has(i)
}

/// A query over a fixed list of requested component kinds.
///
/// Resolving the query intersects the presence masks of the requested kinds;
/// a query that requests no kind falls back to the world's alive mask and so
/// selects every live entity.
pub struct Query {
    pub(crate) component_ids: Vec<ComponentId>,
}

/// A cursor over the slots a query selected.
///
/// The iterator owns a snapshot of the intersected mask and walks it from
/// low to high slot.  At each yield it re-checks against the world that the
/// slot is still alive — logic run between calls may have despawned it — and
/// hands out an entity built from the slot's current version.
pub struct QueryIter {
    pub(crate) mask: Mask,
    pub(crate) cursor: usize,
}

impl Query {
    /// The requested component kinds, in request order.
    pub open(crate) spec fn ids(self) -> Seq<ComponentId> {
        self.component_ids@
    }

    /// A query requesting the component kinds `component_ids`.
    pub fn new(component_ids: Vec<ComponentId>) -> (r: Query)
        ensures
            r.ids() == component_ids@,
    {
        Query { component_ids }
    }

    /// Resolves the query against `world`: the intersection of the
    /// requested kinds' presence masks, or the alive mask when no kind is
    /// requested, or an empty mask when a requested kind is unregistered.
    pub fn iter<C: Copy>(&self, world: &World<C>) -> (r: QueryIter)
        requires
            world.wf(),
        ensures
            r.at() == 0,
            self.ids().len() == 0 ==> r.sel() == world.alive(),
            self.ids().len() > 0 && all_registered(*world, self.ids()) ==> ({
                &&& r.sel().len() == world.spec_capacity()
                &&& forall|i: int|
                    0 <= i < world.spec_capacity() ==> ((#[trigger] r.sel()[i]) <==> query_matches(
                        *world,
                        self.ids(),
                        i,
                    ))
            }),
            self.ids().len() > 0 && !all_registered(*world, self.ids()) ==> r.sel().len() == 0,
    {
        if self.component_ids.len() == 0 {
            return QueryIter { mask: world.alive_mask.duplicate(), cursor: 0 };
        }
        let j0 = match world.find_storage(self.component_ids[0]) {
            None => { return QueryIter { mask: Mask::zeros(0), cursor: 0 } },
            Some(j) => j,
        };
        let mut mask = world.components[j0].bitmask.duplicate();
        let ghost ids = self.component_ids@;
        let mut k: usize = 1;
        while k < self.component_ids.len()
            invariant
                world.wf(),
                ids == self.component_ids@,
                1 <= k <= ids.len(),
                forall|k2: int| 0 <= k2 < k ==> world.spec_registered(#[trigger] ids[k2]),
                mask_bits(mask).len() == world.spec_capacity(),
                forall|i: int|
                    0 <= i < world.spec_capacity() ==> ((#[trigger] mask_bits(mask)[i])
                        <==> forall|k2: int|
                            0 <= k2 < k ==> world.storages()[world.slot_of(
                                #[trigger] ids[k2],
                            )].spec_has(i)),
            decreases ids.len() - k,
        {
            let j = match world.find_storage(self.component_ids[k]) {
                None => {
                    mask.clear();
                    return QueryIter { mask, cursor: 0 };
                },
                Some(j) => j,
            };
            let ghost prev_bits = mask_bits(mask);
            mask.intersect(&world.components[j].bitmask);
            proof {
                let w = *world;
                assert forall|i: int| 0 <= i < w.spec_capacity() implies ((#[trigger] mask_bits(
                    mask,
                )[i]) <==> forall|k2: int|
                    0 <= k2 < k + 1 ==> w.storages()[w.slot_of(#[trigger] ids[k2])].spec_has(
                        i,
                    )) by {
                    let s = w.storages()[j as int];
                    assert(s.spec_len() == w.spec_capacity());
                    assert(s.present().len() == w.spec_capacity());
                    assert(mask_bits(mask)[i] == (prev_bits[i] && s.present()[i]));
                    if mask_bits(mask)[i] {
                        assert forall|k2: int|
                            0 <= k2 < k + 1 implies w.storages()[w.slot_of(
                            #[trigger] ids[k2],
                        )].spec_has(i) by {
                            if k2 < k {
                                assert(prev_bits[i]);
                            } else {
                                assert(s.spec_has(i));
                            }
                        }
                    } else {
                        if prev_bits[i] {
                            assert(!s.spec_has(i));
                        } else {
                            let k2 = choose|k2: int|
                                0 <= k2 < k && !w.storages()[w.slot_of(
                                    #[trigger] ids[k2],
                                )].spec_has(i);
                            assert(!w.storages()[w.slot_of(ids[k2])].spec_has(i));
                        }
                    }
                }
            }
            k = k + 1;
        }
        QueryIter { mask, cursor: 0 }
    }
}

impl QueryIter {
    /// The bits of the resolved selection mask.
    pub open(crate) spec fn sel(self) -> Seq<bool> {
        mask_bits(self.mask)
    }

    /// The slot the cursor stands on.
    pub open(crate) spec fn at(self) -> int {
        self.cursor as int
    }

    /// The next selected slot that is still alive, as an entity carrying
    /// the slot's current version; nothing once the mask is exhausted.
    ///
    /// Slots despawned since the mask was computed are skipped: the alive
    /// re-check happens at yield time against the world as it is now.
    pub fn next<C: Copy>(&mut self, world: &World<C>) -> (r: Option<Entity>)
        requires
            world.wf(),
            old(self).sel().len() <= world.spec_capacity(),
            old(self).at() <= old(self).sel().len(),
        ensures
            final(self).sel() == old(self).sel(),
            match r {
                Some(e) => {
                    &&& old(self).at() <= e.id < old(self).sel().len()
                    &&& old(self).sel()[e.id as int]
                    &&& world.slot_live(e.id as int)
                    &&& e.version == world.versions()[e.id as int]
                    &&& final(self).at() == e.id + 1
                    &&& forall|j: int|
                        old(self).at() <= j < e.id ==> !(old(self).sel()[j] && world.slot_live(j))
                },
                None => {
                    &&& final(self).at() == old(self).sel().len()
                    &&& forall|j: int|
                        old(self).at() <= j < old(self).sel().len() ==> !(old(self).sel()[j]
                            && world.slot_live(j))
                },
            },
    {
        loop
            invariant
                world.wf(),
                self.mask == old(self).mask,
                mask_bits(self.mask).len() <= world.spec_capacity(),
                old(self).cursor <= self.cursor <= mask_bits(self.mask).len(),
                forall|j: int|
                    old(self).cursor <= j < self.cursor ==> !(mask_bits(self.mask)[j]
                        && world.slot_live(j)),
            decreases mask_bits(self.mask).len() - self.cursor,
        {
            match self.mask.first_one_from(self.cursor) {
                None => {
                    self.cursor = self.mask.len();
                    return None;
                },
                Some(offset) => {
                    let id = self.cursor + offset;
                    if world.alive_mask.get(id) {
                        let version = world.entity_versions[id];
                        self.cursor = id + 1;
                        return Some(Entity { id, version });
                    }
                    self.cursor = id + 1;
                },
            }
        }
    }
}


/// What a fresh query yields, slot by slot: slot `i` passes the selection
/// mask and the alive re-check exactly when the entity currently occupying
/// it is alive and carries every requested kind.
pub proof fn lemma_query_selects_alive_with_all<C: Copy>(w: World<C>, ids: Seq<ComponentId>, i: int)
    requires
        w.wf(),
        ids.len() > 0,
        all_registered(w, ids),
        0 <= i < w.spec_capacity(),
    ensures
        ({
            let e = Entity { id: i as usize, version: w.versions()[i] };
            (query_matches(w, ids, i) && w.slot_live(i)) <==> (w.spec_alive(e) && forall|k: int|
                0 <= k < ids.len() ==> w.spec_has(e, #[trigger] ids[k]))
        }),
{
    let e = Entity { id: i as usize, version: w.versions()[i] };
    if query_matches(w, ids, i) && w.slot_live(i) {
        assert(w.spec_is_alive(e));
        assert forall|k: int| 0 <= k < ids.len() implies w.spec_has(e, #[trigger] ids[k]) by {
            assert(w.storages()[w.slot_of(ids[k])].spec_has(i));
            assert(w.spec_registered(ids[k]));
        }
    }
    if w.spec_alive(e) && forall|k: int| 0 <= k < ids.len() ==> w.spec_has(e, #[trigger] ids[k]) {
        assert forall|k: int|
            0 <= k < ids.len() implies w.storages()[w.slot_of(#[trigger] ids[k])].spec_has(i) by {
            assert(w.spec_has(e, ids[k]));
        }
    }
}

} // verus!
