use vstd::prelude::*;

use crate::archetype::EntityLocation;

verus! {

/// A lightweight entity identifier with generational indexing.
///
/// The generation field prevents use-after-despawn bugs: if an entity is
/// despawned and its slot reused, the old `Entity` handle fails `is_alive`
/// checks because the generation no longer matches.
#[derive(Clone, Copy, Debug, PartialEq, Eq, Hash, Structural)]
pub struct Entity {
    pub index: u32,
    pub generation: u32,
}

impl Entity {
    /// Reconstruct an `Entity` handle from its raw index and generation.
    ///
    /// Passing stale or fabricated values is safe: such a handle is simply
    /// not alive.
    pub fn from_raw(index: u32, generation: u32) -> (e: Entity)
        ensures
            e.index == index,
            e.generation == generation,
    {
        Entity { index, generation }
    }

    /// Returns the index portion of this entity ID.
    pub fn index(self) -> (r: u32)
        ensures
            r == self.index,
    {
        self.index
    }

    /// Returns the generation portion of this entity ID.
    pub fn generation(self) -> (r: u32)
        ensures
            r == self.generation,
    {
        self.generation
    }
}

/// Per-slot metadata for an entity: generation and archetype location.
#[derive(Clone, Copy, Debug)]
pub struct EntityMeta {
    /// Current generation for this slot. Incremented on each dealloc.
    pub generation: u32,
    /// Whether this slot is alive.
    pub alive: bool,
    /// Where this entity lives in archetype storage. `None` until placed.
    pub location: Option<EntityLocation>,
}

impl EntityMeta {
    fn new_alive() -> (m: EntityMeta)
        ensures
            m.generation == 0,
            m.alive,
            m.location is None,
    {
        EntityMeta { generation: 0, alive: true, location: None }
    }
}

/// The alive entity handles among the first `n` slots, in slot order.
pub open spec fn alive_prefix(metas: Seq<EntityMeta>, n: int) -> Seq<Entity>
    decreases n,
{
    if n <= 0 {
        Seq::empty()
    } else {
        let rest = alive_prefix(metas, n - 1);
        if metas[n - 1].alive {
            rest.push(Entity { index: (n - 1) as u32, generation: metas[n - 1].generation })
        } else {
            rest
        }
    }
}

/// The number of alive slots among the first `n` slots.
pub open spec fn alive_count(metas: Seq<EntityMeta>, n: int) -> nat
    decreases n,
{
    if n <= 0 {
        0
    } else {
        alive_count(metas, n - 1) + if metas[n - 1].alive { 1nat } else { 0nat }
    }
}

/// Manages entity allocation, generation tracking, and archetype location.
pub struct EntityMetaStore {
    metas: Vec<EntityMeta>,
    free: Vec<u32>,
}

impl EntityMetaStore {
    /// The per-slot metadata.
    pub closed spec fn metas(&self) -> Seq<EntityMeta> {
        self.metas@
    }

    /// The free list; the slot at the end is reused first.
    pub closed spec fn free(&self) -> Seq<u32> {
        self.free@
    }

    /// Well-formedness: every index fits in `u32`; the free list holds each
    /// dead slot exactly once and no alive slot; dead slots carry no location.
    pub open spec fn wf(&self) -> bool {
        &&& self.metas().len() <= u32::MAX
        &&& forall|j: int|
            0 <= j < self.free().len() ==> {
                &&& (#[trigger] self.free()[j]) < self.metas().len()
                &&& !self.metas()[self.free()[j] as int].alive
            }
        &&& forall|j: int, k: int|
            0 <= j < self.free().len() && 0 <= k < self.free().len() && j != k ==> self.free()[j]
                != self.free()[k]
        &&& forall|i: int|
            0 <= i < self.metas().len() && !(#[trigger] self.metas()[i]).alive ==> {
                &&& self.free().contains(i as u32)
                &&& self.metas()[i].location is None
            }
    }

    /// Whether `e` names a live slot with a matching generation.
    pub open spec fn spec_is_alive(&self, e: Entity) -> bool {
        &&& e.index < self.metas().len()
        &&& self.metas()[e.index as int].alive
        &&& self.metas()[e.index as int].generation == e.generation
    }

    /// The location recorded for `e`, when `e` is alive.
    pub open spec fn spec_location(&self, e: Entity) -> Option<EntityLocation> {
        if self.spec_is_alive(e) {
            self.metas()[e.index as int].location
        } else {
            None
        }
    }

    /// Whether `allocate` can hand out a slot without exceeding the `u32` index space.
    pub open spec fn can_alloc(&self) -> bool {
        self.free().len() > 0 || self.metas().len() < u32::MAX
    }

    /// The entity that the next `allocate` returns.
    pub open spec fn next_alloc(&self) -> Entity {
        if self.free().len() > 0 {
            let idx = self.free().last();
            Entity { index: idx, generation: self.metas()[idx as int].generation }
        } else {
            Entity { index: self.metas().len() as u32, generation: 0 }
        }
    }

    /// Create an empty store.
    pub fn new() -> (s: EntityMetaStore)
        ensures
            s.wf(),
            s.metas().len() == 0,
            s.free().len() == 0,
    {
        EntityMetaStore { metas: Vec::new(), free: Vec::new() }
    }

    /// Allocate a new entity, reusing the most recently freed slot if any.
    pub fn allocate(&mut self) -> (e: Entity)
        requires
            old(self).wf(),
            old(self).can_alloc(),
        ensures
            final(self).wf(),
            e == old(self).next_alloc(),
            !old(self).spec_is_alive(e),
            final(self).spec_is_alive(e),
            final(self).spec_location(e) is None,
            old(self).free().len() > 0 ==> {
                &&& final(self).free() == old(self).free().drop_last()
                &&& final(self).metas() == old(self).metas().update(
                    e.index as int,
                    EntityMeta { generation: e.generation, alive: true, location: None },
                )
            },
            old(self).free().len() == 0 ==> {
                &&& final(self).free() == old(self).free()
                &&& final(self).metas() == old(self).metas().push(
                    EntityMeta { generation: 0, alive: true, location: None },
                )
            },
            forall|x: Entity|
                x != e ==> (final(self).spec_is_alive(x) == old(self).spec_is_alive(x)
                    && final(self).spec_location(x) == old(self).spec_location(x)),
    {
        if self.free.len() > 0 {
            let index = self.free.pop().unwrap();
            let idx = index as usize;
            let generation = self.metas[idx].generation;
            self.metas.set(idx, EntityMeta { generation, alive: true, location: None });
            let e = Entity { index, generation };
            proof {
                let m0 = old(self).metas();
                let f0 = old(self).free();
                assert(f0.last() == index);
                assert forall|j: int| 0 <= j < self.free().len() implies {
                    &&& (#[trigger] self.free()[j]) < self.metas().len()
                    &&& !self.metas()[self.free()[j] as int].alive
                } by {
                    assert(self.free()[j] == f0[j]);
                    assert(f0[j] != f0[f0.len() - 1]);
                }
                assert forall|i: int|
                    0 <= i < self.metas().len() && !(#[trigger] self.metas()[i]).alive implies {
                    &&& self.free().contains(i as u32)
                    &&& self.metas()[i].location is None
                } by {
                    assert(i != idx);
                    assert(m0[i] == self.metas()[i]);
                    let j = choose|j: int| 0 <= j < f0.len() && f0[j] == i as u32;
                    assert(j != f0.len() - 1);
                    assert(self.free()[j] == i as u32);
                }
            }
            e
        } else {
            let index = self.metas.len() as u32;
            self.metas.push(EntityMeta::new_alive());
            let e = Entity { index, generation: 0 };
            proof {
                let m0 = old(self).metas();
                assert forall|i: int|
                    0 <= i < self.metas().len() && !(#[trigger] self.metas()[i]).alive implies {
                    &&& self.free().contains(i as u32)
                    &&& self.metas()[i].location is None
                } by {
                    assert(i < m0.len());
                    assert(m0[i] == self.metas()[i]);
                }
            }
            e
        }
    }

    /// Deallocate an entity. Returns `true` if it was alive.
    ///
    /// The slot's generation is bumped (wrapping at `u32::MAX`), so stale
    /// handles stop being alive.
    pub fn dealloc(&mut self, entity: Entity) -> (r: bool)
        requires
            old(self).wf(),
        ensures
            final(self).wf(),
            r == old(self).spec_is_alive(entity),
            !final(self).spec_is_alive(entity),
            r ==> {
                &&& final(self).free() == old(self).free().push(entity.index)
                &&& final(self).metas() == old(self).metas().update(
                    entity.index as int,
                    EntityMeta {
                        generation: entity.generation.wrapping_add(1),
                        alive: false,
                        location: None,
                    },
                )
            },
            !r ==> final(self).metas() == old(self).metas() && final(self).free() == old(
                self,
            ).free(),
            forall|x: Entity|
                x.index != entity.index ==> (final(self).spec_is_alive(x) == old(
                    self,
                ).spec_is_alive(x) && final(self).spec_location(x) == old(self).spec_location(x)),
    {
        let idx = entity.index as usize;
        if idx < self.metas.len() {
            let meta = self.metas[idx];
            if meta.generation == entity.generation && meta.alive {
                let new_gen = meta.generation.wrapping_add(1);
                self.metas.set(idx, EntityMeta { generation: new_gen, alive: false, location: None });
                self.free.push(entity.index);
                proof {
                    let m0 = old(self).metas();
                    let f0 = old(self).free();
                    assert(!f0.contains(entity.index)) by {
                        if f0.contains(entity.index) {
                            let j = choose|j: int| 0 <= j < f0.len() && f0[j] == entity.index;
                            assert(!m0[f0[j] as int].alive);
                        }
                    }
                    assert forall|j: int| 0 <= j < self.free().len() implies {
                        &&& (#[trigger] self.free()[j]) < self.metas().len()
                        &&& !self.metas()[self.free()[j] as int].alive
                    } by {
                        if j < f0.len() {
                            assert(self.free()[j] == f0[j]);
                        }
                    }
                    assert forall|j: int, k: int|
                        0 <= j < self.free().len() && 0 <= k < self.free().len() && j
                            != k implies self.free()[j] != self.free()[k] by {
                        if j < f0.len() && k < f0.len() {
                            assert(self.free()[j] == f0[j]);
                            assert(self.free()[k] == f0[k]);
                        } else if j < f0.len() {
                            assert(self.free()[j] == f0[j]);
                        } else if k < f0.len() {
                            assert(self.free()[k] == f0[k]);
                        }
                    }
                    assert forall|i: int|
                        0 <= i < self.metas().len() && !(#[trigger] self.metas()[i]).alive implies {
                        &&& self.free().contains(i as u32)
                        &&& self.metas()[i].location is None
                    } by {
                        if i == idx {
                            assert(self.free()[f0.len() as int] == entity.index);
                        } else {
                            assert(m0[i] == self.metas()[i]);
                            let j = choose|j: int| 0 <= j < f0.len() && f0[j] == i as u32;
                            assert(self.free()[j] == i as u32);
                        }
                    }
                }
                return true;
            }
        }
        false
    }

    /// Check whether an entity handle is still alive.
    pub fn is_alive(&self, entity: Entity) -> (r: bool)
        ensures
            r == self.spec_is_alive(entity),
        no_unwind
    {
        let idx = entity.index as usize;
        idx < self.metas.len() && self.metas[idx].generation == entity.generation
            && self.metas[idx].alive
    }

    /// Returns the total number of allocated slots (including dead).
    pub fn len(&self) -> (r: usize)
        ensures
            r == self.metas().len(),
    {
        self.metas.len()
    }

    /// Whether `allocate` can hand out one more slot.
    pub fn can_allocate(&self) -> (r: bool)
        ensures
            r == self.can_alloc(),
    {
        self.free.len() > 0 || self.metas.len() < 0xffff_ffffusize
    }

    /// Set the archetype location for an alive entity.
    pub fn set_location(&mut self, entity: Entity, location: EntityLocation)
        requires
            old(self).wf(),
            old(self).spec_is_alive(entity),
        ensures
            final(self).wf(),
            final(self).free() == old(self).free(),
            final(self).metas() == old(self).metas().update(
                entity.index as int,
                EntityMeta {
                    generation: entity.generation,
                    alive: true,
                    location: Some(location),
                },
            ),
            final(self).spec_location(entity) == Some(location),
            forall|x: Entity| #[trigger]
                final(self).spec_is_alive(x) == old(self).spec_is_alive(x),
            forall|x: Entity|
                x.index != entity.index ==> #[trigger] final(self).spec_location(x) == old(
                    self,
                ).spec_location(x),
    {
        let idx = entity.index as usize;
        self.metas.set(
            idx,
            EntityMeta { generation: entity.generation, alive: true, location: Some(location) },
        );
        proof {
            let m0 = old(self).metas();
            assert forall|i: int|
                0 <= i < self.metas().len() && !(#[trigger] self.metas()[i]).alive implies {
                &&& self.free().contains(i as u32)
                &&& self.metas()[i].location is None
            } by {
                assert(m0[i] == self.metas()[i]);
            }
        }
    }

    /// Get the archetype location for an entity (`None` when it is not alive).
    pub fn get_location(&self, entity: Entity) -> (r: Option<EntityLocation>)
        ensures
            r == self.spec_location(entity),
        no_unwind
    {
        let idx = entity.index as usize;
        if self.is_alive(entity) {
            self.metas[idx].location
        } else {
            None
        }
    }

    /// Returns the `Entity` handle for a slot index, if that slot is alive.
    pub fn entity_at(&self, index: u32) -> (r: Option<Entity>)
        ensures
            (index < self.metas().len() && self.metas()[index as int].alive) ==> r == Some(
                Entity { index, generation: self.metas()[index as int].generation },
            ),
            !(index < self.metas().len() && self.metas()[index as int].alive) ==> r is None,
    {
        let idx = index as usize;
        if idx < self.metas.len() && self.metas[idx].alive {
            Some(Entity { index, generation: self.metas[idx].generation })
        } else {
            None
        }
    }

    /// All alive entity handles, in slot order.
    pub fn alive_entities(&self) -> (r: Vec<Entity>)
        requires
            self.wf(),
        ensures
            r@ == alive_prefix(self.metas(), self.metas().len() as int),
    {
        let mut out: Vec<Entity> = Vec::new();
        let mut i: usize = 0;
        while i < self.metas.len()
            invariant
                i <= self.metas().len(),
                self.metas().len() <= u32::MAX,
                out@ == alive_prefix(self.metas(), i as int),
            decreases self.metas().len() - i,
        {
            if self.metas[i].alive {
                out.push(Entity { index: i as u32, generation: self.metas[i].generation });
            }
            i = i + 1;
        }
        out
    }

    /// The number of alive entities.
    pub fn alive_count(&self) -> (r: usize)
        requires
            self.wf(),
        ensures
            r == alive_count(self.metas(), self.metas().len() as int),
    {
        let mut n: usize = 0;
        let mut i: usize = 0;
        while i < self.metas.len()
            invariant
                i <= self.metas().len(),
                n == alive_count(self.metas(), i as int),
                n <= i,
            decreases self.metas().len() - i,
        {
            if self.metas[i].alive {
                n = n + 1;
            }
            i = i + 1;
        }
        n
    }
}

} // verus!
