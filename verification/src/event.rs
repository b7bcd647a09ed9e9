//! The values that travel through the bus: event identifiers, priorities,
//! events, subscriptions and statistics.
use vstd::prelude::*;

verus! {

/// Unique identifier for an event.
#[derive(Copy, Clone, Hash, Eq, PartialEq, Debug, Structural)]
pub struct EventId(pub u64);

impl EventId {
    /// The number behind the identifier.
    pub fn as_u64(self) -> (r: u64)
        ensures
            r == self.0,
    {
        self.0
    }
}

/// Priority level of an event on the bus.
#[derive(Debug, Clone, Copy, PartialEq, Eq, Structural)]
pub enum EventPriority {
    Low,
    Normal,
    High,
    Critical,
}

impl Default for EventPriority {
    /// The default priority is `Normal`.
    fn default() -> (r: Self)
        ensures
            r == EventPriority::Normal,
    {
        EventPriority::Normal
    }
}

/// An event travelling through the bus.
///
/// `data` is the payload that the publisher attaches; the bus carries it
/// through without reading it.
#[derive(Debug)]
pub struct Event<D> {
    pub id: EventId,
    pub event_type: String,
    pub data: D,
    pub source: String,
    pub tick: u64,
    pub priority: EventPriority,
}

impl<D> Event<D> {
    /// Whether two events agree on everything but their payload.
    pub open spec fn same_header(self, other: Event<D>) -> bool {
        &&& self.id == other.id
        &&& self.event_type == other.event_type
        &&& self.source == other.source
        &&& self.tick == other.tick
        &&& self.priority == other.priority
    }
}

impl<D: Clone> Clone for Event<D> {
    /// A copy with the same header and a clone of the payload.
    fn clone(&self) -> (r: Self)
        ensures
            r.same_header(*self),
            cloned(self.data, r.data),
    {
        Event {
            id: self.id,
            event_type: self.event_type.clone(),
            data: self.data.clone(),
            source: self.source.clone(),
            tick: self.tick,
            priority: self.priority,
        }
    }
}

/// A subscription that matches events by glob pattern.
#[derive(Debug)]
pub struct Subscription {
    pub id: u64,
    pub pattern: String,
    pub callback_name: String,
}

impl Clone for Subscription {
    /// An equal copy.
    fn clone(&self) -> (r: Self)
        ensures
            r == *self,
    {
        Subscription {
            id: self.id,
            pattern: self.pattern.clone(),
            callback_name: self.callback_name.clone(),
        }
    }
}

/// Snapshot of bus statistics.
///
/// `event_types_seen` holds each event type of the history once, in no
/// particular order.
#[derive(Debug)]
pub struct EventBusStats {
    pub total_published: u64,
    pub total_processed: u64,
    pub subscriptions: usize,
    pub event_types_seen: Vec<String>,
}

impl Clone for EventBusStats {
    /// An equal copy.
    fn clone(&self) -> (r: Self)
        ensures
            r.total_published == self.total_published,
            r.total_processed == self.total_processed,
            r.subscriptions == self.subscriptions,
            r.event_types_seen@ == self.event_types_seen@,
    {
        let mut types: Vec<String> = Vec::new();
        for i in 0..self.event_types_seen.len()
            invariant
                types@ == self.event_types_seen@.take(i as int),
        {
            types.push(self.event_types_seen[i].clone());
            assert(types@ =~= self.event_types_seen@.take(i + 1));
        }
        assert(types@ =~= self.event_types_seen@);
        EventBusStats {
            total_published: self.total_published,
            total_processed: self.total_processed,
            subscriptions: self.subscriptions,
            event_types_seen: types,
        }
    }
}

} // verus!
