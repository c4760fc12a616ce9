use vstd::prelude::*;

verus! {

/// Double-buffered event queue.
///
/// Events are written to `current` during the tick they are sent. At the
/// start of the next schedule run the buffers advance: `current` becomes
/// `previous` and the old `previous` is dropped. Readers iterate `previous`,
/// so they always see the events of the previous tick.
pub struct Events<T> {
    /// Events written during the previous tick — readable.
    previous: Vec<T>,
    /// Events being written this tick.
    current: Vec<T>,
}

impl<T> Events<T> {
    /// The readable events (sent during the previous tick), oldest first.
    pub closed spec fn spec_previous(&self) -> Seq<T> {
        self.previous@
    }

    /// The events sent this tick, oldest first.
    pub closed spec fn spec_current(&self) -> Seq<T> {
        self.current@
    }

    /// Create an empty double buffer.
    pub fn new() -> (r: Events<T>)
        ensures
            r.spec_previous() == Seq::<T>::empty(),
            r.spec_current() == Seq::<T>::empty(),
    {
        Events { previous: Vec::new(), current: Vec::new() }
    }

    /// Send an event. It becomes readable after the next `update`.
    pub fn send(&mut self, event: T)
        ensures
            final(self).spec_current() == old(self).spec_current().push(event),
            final(self).spec_previous() == old(self).spec_previous(),
    {
        self.current.push(event);
    }

    /// Send a batch of events, in order.
    pub(crate) fn send_all(&mut self, batch: Vec<T>)
        ensures
            final(self).spec_current() == old(self).spec_current() + batch@,
            final(self).spec_previous() == old(self).spec_previous(),
    {
        let mut batch = batch;
        self.current.append(&mut batch);
    }

    /// The events sent during the previous tick, oldest first.
    pub fn read(&self) -> (r: &[T])
        ensures
            r@ == self.spec_previous(),
    {
        self.previous.as_slice()
    }

    /// Advance the double buffer: the current buffer becomes readable and
    /// the previously readable events are dropped.
    pub fn update(&mut self)
        ensures
            final(self).spec_previous() == old(self).spec_current(),
            final(self).spec_current() == Seq::<T>::empty(),
    {
        std::mem::swap(&mut self.previous, &mut self.current);
        self.current.clear();
    }

    /// Number of readable events.
    pub fn len(&self) -> (r: usize)
        ensures
            r == self.spec_previous().len(),
    {
        self.previous.len()
    }

    /// Returns `true` if there are no readable events.
    pub fn is_empty(&self) -> (r: bool)
        ensures
            r == (self.spec_previous().len() == 0),
    {
        self.previous.len() == 0
    }
}

/// An event sent in one tick is readable after exactly one `update`, and is
/// gone after the second one.
pub proof fn lemma_event_lifetime<T>(e0: Events<T>, e1: Events<T>, e2: Events<T>, e3: Events<T>, ev: T)
    requires
        e1.spec_current() == e0.spec_current().push(ev),
        e1.spec_previous() == e0.spec_previous(),
        e2.spec_previous() == e1.spec_current(),
        e2.spec_current() == Seq::<T>::empty(),
        e3.spec_previous() == e2.spec_current(),
        e3.spec_current() == Seq::<T>::empty(),
    ensures
        e2.spec_previous().last() == ev,
        e2.spec_previous().len() == e0.spec_current().len() + 1,
        e3.spec_previous().len() == 0,
{
}

/// Exclusive write access to an `Events` buffer.
pub struct EventWriter<'w, T> {
    pub events: &'w mut Events<T>,
}

impl<'w, T> EventWriter<'w, T> {
    /// The buffer being written.
    pub closed spec fn buffer(&self) -> Events<T> {
        *self.events
    }

    /// Wrap a buffer for writing.
    pub fn new(events: &'w mut Events<T>) -> (r: EventWriter<'w, T>)
        ensures
            r.buffer() == *old(events),
            *final(r.events) == *final(events),
    {
        EventWriter { events }
    }

    /// Send an event. Readable on the next tick.
    pub fn send(&mut self, event: T)
        ensures
            final(self).buffer().spec_current() == old(self).buffer().spec_current().push(event),
            final(self).buffer().spec_previous() == old(self).buffer().spec_previous(),
    {
        self.events.send(event);
    }
}

/// Shared read access to an `Events` buffer.
pub struct EventReader<'w, T> {
    events: &'w Events<T>,
}

impl<'w, T> EventReader<'w, T> {
    /// The buffer being read.
    pub closed spec fn buffer(&self) -> Events<T> {
        *self.events
    }

    /// Wrap a buffer for reading.
    pub fn new(events: &'w Events<T>) -> (r: EventReader<'w, T>)
        ensures
            r.buffer() == *events,
    {
        EventReader { events }
    }

    /// The events from the previous tick, oldest first.
    pub fn read(&self) -> (r: &[T])
        ensures
            r@ == self.buffer().spec_previous(),
    {
        self.events.read()
    }

    /// Number of readable events.
    pub fn len(&self) -> (r: usize)
        ensures
            r == self.buffer().spec_previous().len(),
    {
        self.events.len()
    }

    /// Returns `true` if there are no readable events.
    pub fn is_empty(&self) -> (r: bool)
        ensures
            r == (self.buffer().spec_previous().len() == 0),
    {
        self.events.is_empty()
    }
}

} // verus!
