//! Events, the strategies used to handle them, and the queue of events a
//! system triggers.

use crate::ids::{EventId, ResourceId, SystemId};
use crate::mappings::{alloc_counter, alloc_entries, alloc_index, index_for_type, Mappings};
use std::any::TypeId;
use vstd::prelude::*;

verus! {

/// Marker trait for types which can be triggered as events.
pub trait Event: Send + Sync + 'static {}

impl<T: Send + Sync + 'static> Event for T {}

/// Returns the event ID allocated in `mappings` for the type `E`: the ID
/// `E` was given before, or the next ID if `E` is new.
pub fn event_id_for<E: Event>(mappings: &mut Mappings<TypeId, EventId>) -> (r: EventId)
    requires
        old(mappings).wf(),
        old(mappings).allocated() < usize::MAX,
    ensures
        final(mappings).wf(),
        old(mappings).only_keyed() ==> final(mappings).only_keyed(),
        exists|key: TypeId|
            {
                &&& final(mappings)@ == alloc_entries(old(mappings)@, old(mappings).allocated(), key)
                &&& final(mappings).allocated() == alloc_counter(old(mappings)@, old(mappings).allocated(), key)
                &&& r.0 == alloc_index(old(mappings)@, old(mappings).allocated(), key)
            },
{
    index_for_type::<E, EventId>(mappings)
}

/// Strategy used to handle an event.
#[derive(Debug, Clone, Copy, PartialEq, Eq, Hash)]
pub enum HandleStrategy {
    /// The handler will be run at the end of the system which triggered the event.
    EndOfSystem,
    /// The handler will be scheduled for running at the end of tick.
    ///
    /// This is the default strategy.
    EndOfTick,
}

impl Default for HandleStrategy {
    fn default() -> (r: Self)
        ensures
            r == HandleStrategy::EndOfTick,
    {
        HandleStrategy::EndOfTick
    }
}

/// What an event handler declares: its ID, the event it handles, how, and
/// the resources it reads and writes.
pub struct HandlerAccess {
    pub id: SystemId,
    pub event_id: EventId,
    pub strategy: HandleStrategy,
    pub resource_reads: Vec<ResourceId>,
    pub resource_writes: Vec<ResourceId>,
}

/// System data which allows you to trigger events of a given type. Events
/// are queued in the order they are triggered until the system is done, when
/// `flush` hands them over to be handled.
pub struct Trigger<E> {
    queued: Vec<E>,
    id: EventId,
}

impl<E: Event> Trigger<E> {
    /// The events triggered since the last flush, in order.
    pub closed spec fn queued(&self) -> Seq<E> {
        self.queued@
    }

    /// The ID of the event type.
    pub closed spec fn event_id(&self) -> EventId {
        self.id
    }

    /// A trigger for events with the given ID, with nothing queued.
    pub fn new(id: EventId) -> (r: Self)
        ensures
            r.queued() == Seq::<E>::empty(),
            r.event_id() == id,
    {
        Trigger { queued: Vec::new(), id }
    }

    /// Triggers multiple events at once, after those already triggered.
    pub fn trigger_batched(&mut self, events: Vec<E>)
        ensures
            final(self).queued() == old(self).queued() + events@,
            final(self).event_id() == old(self).event_id(),
    {
        let mut events = events;
        self.queued.append(&mut events);
    }

    /// Triggers a single event, after those already triggered.
    pub fn trigger(&mut self, event: E)
        ensures
            final(self).queued() == old(self).queued().push(event),
            final(self).event_id() == old(self).event_id(),
    {
        self.queued.push(event);
    }

    /// Takes the events triggered since the last flush, in order, with the
    /// ID of their type, to be handed to the scheduler.
    pub fn flush(&mut self) -> (r: (EventId, Vec<E>))
        ensures
            r.0 == old(self).event_id(),
            r.1@ == old(self).queued(),
            final(self).queued() == Seq::<E>::empty(),
            final(self).event_id() == old(self).event_id(),
    {
        let mut events: Vec<E> = Vec::new();
        std::mem::swap(&mut events, &mut self.queued);
        (self.id, events)
    }
}

} // verus!
