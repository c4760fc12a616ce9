use vstd::prelude::*;

use crate::deadline::{DeadlineId, Timestamp};
use crate::entity::Entity;
use crate::resource::TypeKey;

verus! {

/// One deferred structural mutation of a world.
pub enum Command<V> {
    /// Spawn an entity with the given `(component key, value)` bundle.
    Spawn(Vec<(TypeKey, V)>),
    /// Despawn an entity.
    Despawn(Entity),
    /// Insert (or overwrite) component `key` on an entity.
    Insert(Entity, TypeKey, V),
    /// Remove component `key` from an entity.
    Remove(Entity, TypeKey),
    /// Schedule an event of deadline type `key` at a timestamp.
    ScheduleDeadline(TypeKey, Timestamp, V),
    /// Cancel a deadline of deadline type `key`.
    CancelDeadline(TypeKey, DeadlineId),
}

/// A buffer of deferred structural mutations, applied in queue order by
/// [`World::apply_commands`](crate::world::World::apply_commands).
pub struct CommandBuffer<V> {
    queue: Vec<Command<V>>,
}

impl<V> CommandBuffer<V> {
    /// The queued commands, oldest first.
    pub closed spec fn spec_queue(&self) -> Seq<Command<V>> {
        self.queue@
    }

    /// Create an empty buffer.
    pub fn new() -> (r: CommandBuffer<V>)
        ensures
            r.spec_queue() == Seq::<Command<V>>::empty(),
    {
        CommandBuffer { queue: Vec::new() }
    }

    /// Queue a command.
    pub fn push(&mut self, cmd: Command<V>)
        ensures
            final(self).spec_queue() == old(self).spec_queue().push(cmd),
    {
        self.queue.push(cmd);
    }

    /// Returns the number of queued commands.
    pub fn len(&self) -> (r: usize)
        ensures
            r == self.spec_queue().len(),
    {
        self.queue.len()
    }

    /// Returns `true` if no commands are queued.
    pub fn is_empty(&self) -> (r: bool)
        ensures
            r == (self.spec_queue().len() == 0),
    {
        self.queue.len() == 0
    }

    /// Take all queued commands out, leaving the buffer empty.
    pub fn take(&mut self) -> (r: Vec<Command<V>>)
        ensures
            r@ == old(self).spec_queue(),
            final(self).spec_queue() == Seq::<Command<V>>::empty(),
    {
        let mut out: Vec<Command<V>> = Vec::new();
        std::mem::swap(&mut out, &mut self.queue);
        out
    }
}

/// System parameter that queues structural mutations for deferred
/// application between schedule stages.
pub struct Commands<'w, V> {
    buffer: &'w mut CommandBuffer<V>,
}

impl<'w, V> Commands<'w, V> {
    /// The commands queued in the underlying buffer.
    pub closed spec fn queued(&self) -> Seq<Command<V>> {
        self.buffer.spec_queue()
    }

    /// Queue commands into `buffer`.
    pub fn new(buffer: &'w mut CommandBuffer<V>) -> (r: Commands<'w, V>)
        ensures
            r.queued() == old(buffer).spec_queue(),
    {
        Commands { buffer }
    }

    /// Spawn an entity with the given component bundle (deferred).
    pub fn spawn(&mut self, bundle: Vec<(TypeKey, V)>)
        ensures
            final(self).queued() == old(self).queued().push(Command::Spawn(bundle)),
    {
        self.buffer.push(Command::Spawn(bundle));
    }

    /// Despawn an entity (deferred).
    pub fn despawn(&mut self, entity: Entity)
        ensures
            final(self).queued() == old(self).queued().push(Command::Despawn(entity)),
    {
        self.buffer.push(Command::Despawn(entity));
    }

    /// Insert a component into an entity (deferred). An existing value of
    /// that component is overwritten.
    pub fn insert(&mut self, entity: Entity, key: TypeKey, component: V)
        ensures
            final(self).queued() == old(self).queued().push(Command::Insert(entity, key, component)),
    {
        self.buffer.push(Command::Insert(entity, key, component));
    }

    /// Remove a component from an entity (deferred).
    pub fn remove(&mut self, entity: Entity, key: TypeKey)
        ensures
            final(self).queued() == old(self).queued().push(Command::Remove(entity, key)),
    {
        self.buffer.push(Command::Remove(entity, key));
    }

    /// Schedule a deadline event of deadline type `key` (deferred).
    pub fn schedule_deadline(&mut self, key: TypeKey, deadline: Timestamp, event: V)
        ensures
            final(self).queued() == old(self).queued().push(Command::ScheduleDeadline(key, deadline, event)),
    {
        self.buffer.push(Command::ScheduleDeadline(key, deadline, event));
    }

    /// Cancel a previously scheduled deadline of deadline type `key` (deferred).
    pub fn cancel_deadline(&mut self, key: TypeKey, id: DeadlineId)
        ensures
            final(self).queued() == old(self).queued().push(Command::CancelDeadline(key, id)),
    {
        self.buffer.push(Command::CancelDeadline(key, id));
    }

    /// Returns the number of queued commands.
    pub fn len(&self) -> (r: usize)
        ensures
            r == self.queued().len(),
    {
        self.buffer.len()
    }

    /// Returns `true` if no commands are queued.
    pub fn is_empty(&self) -> (r: bool)
        ensures
            r == (self.queued().len() == 0),
    {
        self.buffer.is_empty()
    }
}

} // verus!
