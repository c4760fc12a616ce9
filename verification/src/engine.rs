use vstd::prelude::*;

use crate::function_system::System;
use crate::resource::TypeKey;
use crate::schedule::Schedule;
use crate::world::World;

verus! {

/// The central engine object: owns the world and the schedule and offers a
/// builder API for wiring up systems and plugins.
#[verifier::reject_recursive_types(V)]
pub struct Engine<V> {
    world: World<V>,
    schedule: Schedule<V>,
    paused: bool,
}

/// A cohesive set of systems and resources applied to an engine.
pub trait Plugin<V> {
    /// Configure the engine (add systems, insert resources, ...).
    fn build(&self, engine: &mut Engine<V>);
}

impl<V> Engine<V> {
    /// The world.
    pub closed spec fn spec_world(&self) -> World<V> {
        self.world
    }

    /// The schedule.
    pub closed spec fn spec_schedule(&self) -> Schedule<V> {
        self.schedule
    }

    /// Whether the simulation is paused.
    pub closed spec fn spec_paused(&self) -> bool {
        self.paused
    }

    /// Create an engine with an empty world and an empty schedule.
    pub fn new() -> (r: Engine<V>)
        ensures
            r.spec_world().spec_entities() == Map::<crate::entity::Entity, Map<TypeKey, crate::archetype::Cell<V>>>::empty(),
            r.spec_world().spec_resources() == Map::<TypeKey, V>::empty(),
            r.spec_world().spec_tick() == 1,
            r.spec_schedule().spec_stages() == Seq::<Seq<char>>::empty(),
            r.spec_schedule().spec_system_stages() == Seq::<Seq<char>>::empty(),
            !r.spec_paused(),
    {
        Engine { world: World::new(), schedule: Schedule::new(), paused: false }
    }

    /// The world.
    pub fn world(&self) -> (r: &World<V>)
        ensures
            *r == self.spec_world(),
    {
        &self.world
    }

    /// The world, mutably.
    pub fn world_mut(&mut self) -> (r: &mut World<V>)
        ensures
            *r == old(self).spec_world(),
            final(self).spec_world() == *final(r),
            final(self).spec_schedule() == old(self).spec_schedule(),
            final(self).spec_paused() == old(self).spec_paused(),
    {
        &mut self.world
    }

    /// The schedule.
    pub fn schedule(&self) -> (r: &Schedule<V>)
        ensures
            *r == self.spec_schedule(),
    {
        &self.schedule
    }

    /// Add a system to a stage of the schedule; its declared accesses must
    /// not conflict with each other (see [`Schedule::add_system`]). The
    /// result is the self-conflict check of the list that its `access`
    /// hands back.
    pub fn add_system<S: System<V> + 'static>(&mut self, stage: String, system: S) -> (r: bool)
        requires
            forall|a: Vec<crate::system_param::Access>| call_ensures(S::access, (&system,), a) ==> crate::function_system::no_self_conflicts(a@),
        ensures
            exists|a: Vec<crate::system_param::Access>| call_ensures(S::access, (&system,), a) && r == crate::function_system::no_self_conflicts(a@),
            r ==> final(self).spec_schedule().spec_system_stages() == old(self).spec_schedule().spec_system_stages().push(stage@),
            r ==> final(self).spec_schedule().spec_stages() == if old(self).spec_schedule().spec_stages().contains(stage@) {
                old(self).spec_schedule().spec_stages()
            } else {
                old(self).spec_schedule().spec_stages().push(stage@)
            },
            !r ==> final(self).spec_schedule().spec_system_stages() == old(self).spec_schedule().spec_system_stages()
                && final(self).spec_schedule().spec_stages() == old(self).spec_schedule().spec_stages(),
            final(self).spec_world() == old(self).spec_world(),
            final(self).spec_paused() == old(self).spec_paused(),
    {
        self.schedule.add_system(stage, system)
    }

    /// Apply a plugin: call its `build` with this engine. Returns the engine
    /// for chaining.
    pub fn add_plugin<P: Plugin<V>>(&mut self, plugin: P) -> (r: &mut Engine<V>)
        ensures
            *final(self) == *final(r),
    {
        plugin.build(self);
        self
    }

    /// Insert a resource into the world. Returns the engine for chaining.
    pub fn insert_resource(&mut self, k: TypeKey, value: V) -> (r: &mut Engine<V>)
        ensures
            r.spec_world().spec_resources() == old(self).spec_world().spec_resources().insert(k, value),
            r.spec_world().same_storage(&old(self).spec_world()),
            r.spec_schedule() == old(self).spec_schedule(),
            r.spec_paused() == old(self).spec_paused(),
            *final(self) == *final(r),
    {
        self.world.insert_resource(k, value);
        self
    }

    /// Run the schedule exactly once. Every registered event buffer of the
    /// world must be present.
    pub fn run_once(&mut self)
        requires
            old(self).spec_world().events_ready(),
        ensures
            final(self).spec_schedule().spec_stages() == old(self).spec_schedule().spec_stages(),
            final(self).spec_schedule().spec_system_stages() == old(self).spec_schedule().spec_system_stages(),
            final(self).spec_paused() == old(self).spec_paused(),
            Schedule::tick_ran(old(self).spec_schedule(), old(self).spec_world(), final(self).spec_world()),
    {
        self.schedule.run(&mut self.world);
    }

    /// Pause the simulation.
    pub fn pause(&mut self)
        ensures
            final(self).spec_paused(),
            final(self).spec_world() == old(self).spec_world(),
            final(self).spec_schedule() == old(self).spec_schedule(),
    {
        self.paused = true;
    }

    /// Resume the simulation after a pause.
    pub fn resume(&mut self)
        ensures
            !final(self).spec_paused(),
            final(self).spec_world() == old(self).spec_world(),
            final(self).spec_schedule() == old(self).spec_schedule(),
    {
        self.paused = false;
    }

    /// Returns `true` if the simulation is paused.
    pub fn is_paused(&self) -> (r: bool)
        ensures
            r == self.spec_paused(),
    {
        self.paused
    }
}

} // verus!
