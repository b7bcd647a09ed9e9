//! The publish/subscribe event bus.
//!
//! Subscriptions name a glob pattern and a callback. Published events wait in
//! a pending queue until `process` hands each of them out with the callbacks
//! of the subscriptions whose pattern matches its type, and archives them in a
//! history that keeps the most recent `max_history` events.
use vstd::prelude::*;

use crate::event::{Event, EventBusStats, EventId, EventPriority, Subscription};
use crate::glob::{count_char, glob_matches, lemma_glob_same_dots, matches_glob};

verus! {

/// The last `n` elements of `s`, or all of `s` where it is shorter.
pub open spec fn keep_last<T>(s: Seq<T>, n: nat) -> Seq<T> {
    if s.len() > n {
        s.subrange(s.len() - n, s.len() as int)
    } else {
        s
    }
}

/// Whether the identifiers of `subs` strictly increase.
pub open spec fn subscription_ids_increase(subs: Seq<Subscription>) -> bool {
    forall|i: int, j: int| 0 <= i < j < subs.len() ==> subs[i].id < subs[j].id
}

/// Whether the identifiers of `events` strictly increase.
pub open spec fn event_ids_increase<D>(events: Seq<Event<D>>) -> bool {
    forall|i: int, j: int| 0 <= i < j < events.len() ==> events[i].id.0 < events[j].id.0
}

/// Whether a subscription's pattern matches `event_type`.
pub open spec fn subscription_matches(sub: Subscription, event_type: Seq<char>) -> bool {
    glob_matches(sub.pattern@, event_type)
}

/// The callback names of the subscriptions in `subs` whose pattern matches
/// `event_type`, in the order of `subs`.
pub open spec fn callbacks_for(subs: Seq<Subscription>, event_type: Seq<char>) -> Seq<String> {
    subs.filter(|s: Subscription| subscription_matches(s, event_type)).map_values(
        |s: Subscription| s.callback_name,
    )
}

/// The subscriptions left after removing those with identifier `id`.
pub open spec fn without_id(subs: Seq<Subscription>, id: u64) -> Seq<Subscription> {
    subs.filter(|s: Subscription| s.id != id)
}

/// Whether some subscription in `subs` has identifier `id`.
pub open spec fn has_id(subs: Seq<Subscription>, id: u64) -> bool {
    exists|i: int| 0 <= i < subs.len() && (#[trigger] subs[i]).id == id
}

/// The events of `history` whose type matches `pattern`, in order.
pub open spec fn events_of_type<D>(history: Seq<Event<D>>, pattern: Seq<char>) -> Seq<Event<D>> {
    history.filter(|e: Event<D>| glob_matches(pattern, e.event_type@))
}

/// The events of `history` that come from `source`, in order.
pub open spec fn events_from_source<D>(history: Seq<Event<D>>, source: Seq<char>) -> Seq<Event<D>> {
    history.filter(|e: Event<D>| comes_from(e, source))
}

/// Whether `e` comes from `source`.
pub open spec fn comes_from<D>(e: Event<D>, source: Seq<char>) -> bool {
    e.source@ == source
}

/// Whether `names` holds a string written as `t`.
pub open spec fn has_type(names: Seq<String>, t: Seq<char>) -> bool {
    exists|j: int| 0 <= j < names.len() && (#[trigger] names[j])@ == t
}

/// Whether some event of `history` has type `t`.
pub open spec fn type_occurs<D>(history: Seq<Event<D>>, t: Seq<char>) -> bool {
    exists|k: int| 0 <= k < history.len() && (#[trigger] history[k]).event_type@ == t
}

/// Whether `names` lists each event type of `history` exactly once.
pub open spec fn lists_types_of<D>(names: Seq<String>, history: Seq<Event<D>>) -> bool {
    &&& forall|a: int, b: int| 0 <= a < b < names.len() ==> names[a]@ != names[b]@
    &&& forall|j: int| 0 <= j < names.len() ==> #[trigger] type_occurs(history, names[j]@)
    &&& forall|k: int| 0 <= k < history.len() ==> #[trigger] has_type(names, history[k].event_type@)
}

/// The pub/sub event bus — nervous system of the PLATO simulation.
///
/// `D` is the type of the payload that events carry.
#[derive(Debug)]
pub struct EventBus<D> {
    subscriptions: Vec<Subscription>,
    event_history: Vec<Event<D>>,
    pending: Vec<Event<D>>,
    next_event_id: u64,
    next_sub_id: u64,
    tick: u64,
    max_history: usize,
}

impl<D> EventBus<D> {
    /// The active subscriptions, oldest first.
    pub closed spec fn spec_subscriptions(&self) -> Seq<Subscription> {
        self.subscriptions@
    }

    /// The processed events that are kept, oldest first.
    pub closed spec fn spec_history(&self) -> Seq<Event<D>> {
        self.event_history@
    }

    /// The published events that wait for processing, oldest first.
    pub closed spec fn spec_pending(&self) -> Seq<Event<D>> {
        self.pending@
    }

    /// The identifier that the next published event gets.
    pub closed spec fn spec_next_event_id(&self) -> u64 {
        self.next_event_id
    }

    /// The identifier that the next subscription gets.
    pub closed spec fn spec_next_sub_id(&self) -> u64 {
        self.next_sub_id
    }

    /// The tick that published events are stamped with.
    pub closed spec fn spec_tick(&self) -> u64 {
        self.tick
    }

    /// How many processed events the history keeps.
    pub closed spec fn spec_max_history(&self) -> usize {
        self.max_history
    }

    /// The invariant that every operation keeps: identifiers are handed out
    /// in increasing order starting at 1, the history is within its limit.
    pub closed spec fn wf(&self) -> bool {
        &&& 1 <= self.next_event_id
        &&& 1 <= self.next_sub_id
        &&& self.event_history@.len() <= self.max_history
        &&& subscription_ids_increase(self.subscriptions@)
        &&& forall|i: int|
            0 <= i < self.subscriptions@.len() ==> #[trigger] self.subscriptions@[i].id
                < self.next_sub_id
        &&& event_ids_increase(self.event_history@ + self.pending@)
        &&& forall|i: int|
            0 <= i < (self.event_history@ + self.pending@).len() ==> (#[trigger] (
            self.event_history@ + self.pending@)[i]).id.0 < self.next_event_id
        &&& forall|i: int|
            0 <= i < (self.event_history@ + self.pending@).len() ==> 1 <= (#[trigger] (
            self.event_history@ + self.pending@)[i]).id.0
    }

    /// How many events have been published.
    pub open spec fn published_count(&self) -> nat {
        (self.spec_next_event_id() - 1) as nat
    }

    /// Whether the bus is empty, counts from 1 and keeps `limit` events.
    pub open spec fn is_fresh(&self, limit: usize) -> bool {
        &&& self.wf()
        &&& self.spec_subscriptions() == Seq::<Subscription>::empty()
        &&& self.spec_history() == Seq::<Event<D>>::empty()
        &&& self.spec_pending() == Seq::<Event<D>>::empty()
        &&& self.spec_next_event_id() == 1
        &&& self.spec_next_sub_id() == 1
        &&& self.spec_tick() == 0
        &&& self.spec_max_history() == limit
    }

    /// Whether `next` has the same events, counters, tick and limit as `self`.
    pub open spec fn same_events(&self, next: Self) -> bool {
        &&& next.spec_history() == self.spec_history()
        &&& next.spec_pending() == self.spec_pending()
        &&& next.spec_next_event_id() == self.spec_next_event_id()
        &&& next.spec_tick() == self.spec_tick()
        &&& next.spec_max_history() == self.spec_max_history()
    }

    /// `next` is `self` after `subscribe(pattern, callback_name)` returned `id`.
    pub open spec fn subscribed(
        &self,
        next: Self,
        pattern: Seq<char>,
        callback_name: Seq<char>,
        id: u64,
    ) -> bool {
        &&& id == self.spec_next_sub_id()
        &&& next.spec_next_sub_id() == id + 1
        &&& next.spec_subscriptions().len() == self.spec_subscriptions().len() + 1
        &&& next.spec_subscriptions().drop_last() == self.spec_subscriptions()
        &&& next.spec_subscriptions().last().id == id
        &&& next.spec_subscriptions().last().pattern@ == pattern
        &&& next.spec_subscriptions().last().callback_name@ == callback_name
        &&& self.same_events(next)
    }

    /// `next` is `self` after `unsubscribe(id)` returned `removed`.
    pub open spec fn unsubscribed(&self, next: Self, id: u64, removed: bool) -> bool {
        &&& next.spec_subscriptions() == without_id(self.spec_subscriptions(), id)
        &&& removed == has_id(self.spec_subscriptions(), id)
        &&& next.spec_next_sub_id() == self.spec_next_sub_id()
        &&& self.same_events(next)
    }

    /// `next` is `self` after `publish(event_type, data, source, priority)`:
    /// the event waits at the end of the queue, numbered with the next
    /// identifier and stamped with the current tick.
    pub open spec fn published(
        &self,
        next: Self,
        event_type: Seq<char>,
        data: D,
        source: Seq<char>,
        priority: EventPriority,
    ) -> bool {
        let e = next.spec_pending().last();
        &&& next.spec_pending().len() == self.spec_pending().len() + 1
        &&& next.spec_pending().drop_last() == self.spec_pending()
        &&& e.id == EventId(self.spec_next_event_id())
        &&& e.event_type@ == event_type
        &&& e.data == data
        &&& e.source@ == source
        &&& e.tick == self.spec_tick()
        &&& e.priority == priority
        &&& next.spec_next_event_id() == self.spec_next_event_id() + 1
        &&& next.spec_history() == self.spec_history()
        &&& next.spec_subscriptions() == self.spec_subscriptions()
        &&& next.spec_next_sub_id() == self.spec_next_sub_id()
        &&& next.spec_tick() == self.spec_tick()
        &&& next.spec_max_history() == self.spec_max_history()
    }

    /// What `process()` does to the bus: the queue is empty, the history keeps
    /// the last `max_history` of the archived and then the pending events, and
    /// nothing else changed.
    pub open spec fn drained_into_history(&self, next: Self) -> bool {
        &&& next.spec_pending() == Seq::<Event<D>>::empty()
        &&& next.spec_history() == keep_last(
            self.spec_history() + self.spec_pending(),
            self.spec_max_history() as nat,
        )
        &&& next.spec_subscriptions() == self.spec_subscriptions()
        &&& next.spec_next_sub_id() == self.spec_next_sub_id()
        &&& next.spec_next_event_id() == self.spec_next_event_id()
        &&& next.spec_tick() == self.spec_tick()
        &&& next.spec_max_history() == self.spec_max_history()
    }

    /// `next` is `self` after `clear_history()`: the history is empty and
    /// nothing else changed.
    pub open spec fn history_cleared(&self, next: Self) -> bool {
        &&& next.spec_history() == Seq::<Event<D>>::empty()
        &&& next.spec_pending() == self.spec_pending()
        &&& next.spec_subscriptions() == self.spec_subscriptions()
        &&& next.spec_next_event_id() == self.spec_next_event_id()
        &&& next.spec_next_sub_id() == self.spec_next_sub_id()
        &&& next.spec_tick() == self.spec_tick()
        &&& next.spec_max_history() == self.spec_max_history()
    }

    /// `next` is `self` after `set_tick(tick)`: the tick is `tick` and nothing
    /// else changed.
    pub open spec fn tick_set(&self, next: Self, tick: u64) -> bool {
        &&& next.spec_tick() == tick
        &&& next.spec_history() == self.spec_history()
        &&& next.spec_pending() == self.spec_pending()
        &&& next.spec_subscriptions() == self.spec_subscriptions()
        &&& next.spec_next_event_id() == self.spec_next_event_id()
        &&& next.spec_next_sub_id() == self.spec_next_sub_id()
        &&& next.spec_max_history() == self.spec_max_history()
    }

    /// Create a new bus with a default history limit of 10 000.
    pub fn new() -> (r: Self)
        ensures
            r.is_fresh(10_000),
    {
        EventBus {
            subscriptions: Vec::new(),
            event_history: Vec::new(),
            pending: Vec::new(),
            next_event_id: 1,
            next_sub_id: 1,
            tick: 0,
            max_history: 10_000,
        }
    }

    /// Create a new bus with a custom history limit.
    pub fn with_history_limit(limit: usize) -> (r: Self)
        ensures
            r.is_fresh(limit),
    {
        EventBus { max_history: limit, ..Self::new() }
    }

    // -- Subscription management -------------------------------------------
    /// Subscribe a callback to a glob pattern. Returns the subscription id.
    pub fn subscribe(&mut self, pattern: &str, callback_name: &str) -> (id: u64)
        requires
            old(self).wf(),
            old(self).spec_next_sub_id() < u64::MAX,
        ensures
            final(self).wf(),
            old(self).subscribed(*final(self), pattern@, callback_name@, id),
    {
        let id: u64 = self.next_sub_id;
        self.next_sub_id += 1;
        self.subscriptions.push(
            Subscription { id, pattern: pattern.to_owned(), callback_name: callback_name.to_owned() },
        );
        assert(self.subscriptions@.drop_last() =~= old(self).subscriptions@);
        id
    }

    /// Unsubscribe by id. Returns true if a subscription was removed.
    pub fn unsubscribe(&mut self, sub_id: u64) -> (removed: bool)
        requires
            old(self).wf(),
        ensures
            final(self).wf(),
            old(self).unsubscribed(*final(self), sub_id, removed),
    {
        let ghost before = self.subscriptions@;
        let mut old_subs: Vec<Subscription> = Vec::new();
        std::mem::swap(&mut old_subs, &mut self.subscriptions);
        let mut kept: Vec<Subscription> = Vec::new();
        let mut found = false;
        for s in it: old_subs.into_iter()
            invariant
                it.seq() == before,
                kept@ == without_id(before.take(it.index() as int), sub_id),
                found == has_id(before.take(it.index() as int), sub_id),
        {
            let ghost i = it.index() as int;
            proof {
                reveal(Seq::filter);
            }
            assert(before.take(i + 1).drop_last() =~= before.take(i));
            assert(before.take(i + 1).last() == s);
            if s.id != sub_id {
                kept.push(s);
            } else {
                found = true;
            }
            assert(found == has_id(before.take(i + 1), sub_id)) by {
                if has_id(before.take(i + 1), sub_id) && !has_id(before.take(i), sub_id) {
                    let k: int = choose|k: int|
                        0 <= k < before.take(i + 1).len() && (#[trigger] before.take(i + 1)[k]).id == sub_id;
                    assert(k == i);
                }
                if has_id(before.take(i), sub_id) {
                    let k: int = choose|k: int|
                        0 <= k < before.take(i).len() && (#[trigger] before.take(i)[k]).id == sub_id;
                    assert(before.take(i + 1)[k] == before.take(i)[k]);
                }
            }
        }
        assert(before.take(before.len() as int) =~= before);
        self.subscriptions = kept;
        proof {
            lemma_without_id_keeps_order(before, sub_id, self.next_sub_id);
        }
        found
    }

    // -- Publishing --------------------------------------------------------
    /// Publish an event onto the bus.
    pub fn publish(&mut self, event_type: &str, data: D, source: &str, priority: EventPriority)
        requires
            old(self).wf(),
            old(self).spec_next_event_id() < u64::MAX,
        ensures
            final(self).wf(),
            old(self).published(*final(self), event_type@, data, source@, priority),
    {
        let id = EventId(self.next_event_id);
        self.next_event_id += 1;
        let event = Event {
            id,
            event_type: event_type.to_owned(),
            data,
            source: source.to_owned(),
            tick: self.tick,
            priority,
        };
        let ghost all_before = self.event_history@ + self.pending@;
        self.pending.push(event);
        assert(self.event_history@ + self.pending@ =~= all_before.push(event));
        assert(self.pending@.drop_last() =~= old(self).pending@);
    }
}

impl<D> EventBus<D> {
    // -- History queries ---------------------------------------------------
    /// Immutable reference to the full event history.
    pub fn history(&self) -> (r: &[Event<D>])
        ensures
            r@ == self.spec_history(),
    {
        self.event_history.as_slice()
    }

    /// Events in history whose type matches a glob pattern.
    pub fn history_for_type(&self, pattern: &str) -> (r: Vec<&Event<D>>)
        ensures
            r@.len() == events_of_type(self.spec_history(), pattern@).len(),
            forall|k: int|
                0 <= k < r@.len() ==> *(#[trigger] r@[k]) == events_of_type(
                    self.spec_history(),
                    pattern@,
                )[k],
    {
        let mut r: Vec<&Event<D>> = Vec::new();
        let ghost h = self.event_history@;
        let ghost pred = |e: Event<D>| glob_matches(pattern@, e.event_type@);
        for i in 0..self.event_history.len()
            invariant
                h == self.event_history@,
                pred == (|e: Event<D>| glob_matches(pattern@, e.event_type@)),
                r@.len() == h.take(i as int).filter(pred).len(),
                forall|k: int| 0 <= k < r@.len() ==> *(#[trigger] r@[k]) == h.take(i as int).filter(pred)[k],
        {
            let e = &self.event_history[i];
            proof {
                reveal(Seq::filter);
                assert(h.take(i + 1).drop_last() =~= h.take(i as int));
                assert(h.take(i + 1).last() == *e);
            }
            if matches_glob(pattern, e.event_type.as_str()) {
                r.push(e);
            }
        }
        assert(h.take(h.len() as int) =~= h);
        r
    }

    /// Events in history from a given source.
    pub fn history_for_source(&self, source: &str) -> (r: Vec<&Event<D>>)
        ensures
            r@.len() == events_from_source(self.spec_history(), source@).len(),
            forall|k: int|
                0 <= k < r@.len() ==> *(#[trigger] r@[k]) == events_from_source(
                    self.spec_history(),
                    source@,
                )[k],
    {
        let wanted: String = source.to_owned();
        let mut r: Vec<&Event<D>> = Vec::new();
        let ghost h = self.event_history@;
        let ghost pred = |e: Event<D>| comes_from(e, source@);
        for i in 0..self.event_history.len()
            invariant
                h == self.event_history@,
                wanted@ == source@,
                pred == (|e: Event<D>| comes_from(e, source@)),
                r@.len() == h.take(i as int).filter(pred).len(),
                forall|k: int| 0 <= k < r@.len() ==> *(#[trigger] r@[k]) == h.take(i as int).filter(pred)[k],
        {
            let e = &self.event_history[i];
            proof {
                reveal(Seq::filter);
                assert(h.take(i + 1).drop_last() =~= h.take(i as int));
                assert(h.take(i + 1).last() == *e);
            }
            if e.source == wanted {
                r.push(e);
            }
        }
        assert(h.take(h.len() as int) =~= h);
        r
    }

    // -- Counters / stats --------------------------------------------------
    /// Number of active subscriptions.
    pub fn subscription_count(&self) -> (r: usize)
        ensures
            r == self.spec_subscriptions().len(),
    {
        self.subscriptions.len()
    }

    /// Number of pending (unprocessed) events.
    pub fn pending_count(&self) -> (r: usize)
        ensures
            r == self.spec_pending().len(),
    {
        self.pending.len()
    }

    /// The history limit that the bus was made with.
    pub fn max_history(&self) -> (r: usize)
        ensures
            r == self.spec_max_history(),
    {
        self.max_history
    }

    /// The tick that the next published event is stamped with.
    pub fn tick(&self) -> (r: u64)
        ensures
            r == self.spec_tick(),
    {
        self.tick
    }

    /// Snapshot of bus statistics.
    pub fn stats(&self) -> (r: EventBusStats)
        requires
            self.wf(),
        ensures
            r.total_published == self.published_count(),
            r.total_processed == self.spec_history().len(),
            r.subscriptions == self.spec_subscriptions().len(),
            lists_types_of(r.event_types_seen@, self.spec_history()),
            r.total_published >= r.total_processed + self.spec_pending().len(),
            r.event_types_seen@.len() <= r.total_processed,
    {
        let mut seen: Vec<String> = Vec::new();
        let ghost h = self.event_history@;
        for i in 0..self.event_history.len()
            invariant
                h == self.event_history@,
                lists_types_of(seen@, h.take(i as int)),
                seen@.len() <= i,
        {
            let t = &self.event_history[i].event_type;
            let mut present = false;
            for j in 0..seen.len()
                invariant
                    present <==> exists|k: int| 0 <= k < j && (#[trigger] seen@[k])@ == t@,
            {
                if seen[j] == *t {
                    present = true;
                }
            }
            let ghost before = seen@;
            if !present {
                seen.push(t.clone());
            }
            proof {
                let prefix = h.take(i as int);
                let next = h.take(i + 1);
                assert(next[i as int].event_type == *t);
                assert forall|k: int| 0 <= k < next.len() implies #[trigger] has_type(
                    seen@,
                    next[k].event_type@,
                ) by {
                    if k < i {
                        assert(next[k] == prefix[k]);
                        assert(has_type(before, prefix[k].event_type@));
                        let j: int = choose|j: int| 0 <= j < before.len() && (#[trigger] before[j])@ == prefix[k].event_type@;
                        assert(seen@[j] == before[j]);
                    } else if present {
                        let j: int = choose|j: int| 0 <= j < before.len() && (#[trigger] before[j])@ == t@;
                        assert(seen@[j] == before[j]);
                    } else {
                        assert(seen@[seen@.len() - 1]@ == t@);
                    }
                }
                assert forall|j: int| 0 <= j < seen@.len() implies #[trigger] type_occurs(
                    next,
                    seen@[j]@,
                ) by {
                    if j < before.len() {
                        assert(seen@[j] == before[j]);
                        assert(type_occurs(prefix, before[j]@));
                        let k: int = choose|k: int| 0 <= k < prefix.len() && (#[trigger] prefix[k]).event_type@ == before[j]@;
                        assert(next[k] == prefix[k]);
                    } else {
                        assert(next[i as int].event_type@ == seen@[j]@);
                    }
                }
            }
        }
        assert(h.take(h.len() as int) =~= h);
        proof {
            lemma_identifiers_distinct(*self);
        }
        EventBusStats {
            total_published: self.next_event_id - 1,
            total_processed: self.event_history.len() as u64,
            subscriptions: self.subscriptions.len(),
            event_types_seen: seen,
        }
    }

    // -- Maintenance -------------------------------------------------------
    /// Clear the event history.
    pub fn clear_history(&mut self)
        requires
            old(self).wf(),
        ensures
            final(self).wf(),
            old(self).history_cleared(*final(self)),
    {
        let ghost all = self.event_history@ + self.pending@;
        self.event_history.clear();
        assert(self.event_history@ + self.pending@ =~= all.subrange(
            old(self).event_history@.len() as int,
            all.len() as int,
        ));
    }

    /// Manually set the bus tick counter.
    pub fn set_tick(&mut self, tick: u64)
        requires
            old(self).wf(),
        ensures
            final(self).wf(),
            old(self).tick_set(*final(self), tick),
    {
        self.tick = tick;
    }
}

impl<D: Clone> EventBus<D> {
    /// `next` is `self` after `process()` returned `results`: every pending
    /// event, in order, is handed out (with a clone of its payload) together
    /// with the callbacks of the subscriptions that match its type, and is
    /// archived; the history keeps the last `max_history` events.
    pub open spec fn processed(&self, next: Self, results: Seq<(Event<D>, Vec<String>)>) -> bool {
        &&& self.drained_into_history(next)
        &&& results.len() == self.spec_pending().len()
        &&& forall|i: int|
            0 <= i < results.len() ==> {
                &&& (#[trigger] results[i]).0.same_header(self.spec_pending()[i])
                &&& cloned(self.spec_pending()[i].data, results[i].0.data)
                &&& results[i].1@ == callbacks_for(
                    self.spec_subscriptions(),
                    self.spec_pending()[i].event_type@,
                )
            }
    }

    /// `next` is a clone of `self`: the same subscriptions, counters, tick and
    /// limit, and copies of the pending and archived events.
    pub open spec fn copied(&self, next: Self) -> bool {
        &&& next.spec_subscriptions() == self.spec_subscriptions()
        &&& copies_events(self.spec_history(), next.spec_history())
        &&& copies_events(self.spec_pending(), next.spec_pending())
        &&& next.spec_next_event_id() == self.spec_next_event_id()
        &&& next.spec_next_sub_id() == self.spec_next_sub_id()
        &&& next.spec_tick() == self.spec_tick()
        &&& next.spec_max_history() == self.spec_max_history()
    }

    // -- Processing --------------------------------------------------------
    /// Process all pending events and return (event, matching_callbacks) pairs.
    pub fn process(&mut self) -> (results: Vec<(Event<D>, Vec<String>)>)
        requires
            old(self).wf(),
        ensures
            final(self).wf(),
            old(self).processed(*final(self), results@),
    {
        let mut results: Vec<(Event<D>, Vec<String>)> = Vec::new();
        let n: usize = self.pending.len();
        for i in 0..n
            invariant
                n == self.pending@.len(),
                results@.len() == i,
                forall|k: int|
                    0 <= k < i ==> {
                        &&& (#[trigger] results@[k]).0.same_header(self.pending@[k])
                        &&& cloned(self.pending@[k].data, results@[k].0.data)
                        &&& results@[k].1@ == callbacks_for(
                            self.subscriptions@,
                            self.pending@[k].event_type@,
                        )
                    },
        {
            let event = self.pending[i].clone();
            let callbacks = callbacks_matching(&self.subscriptions, event.event_type.as_str());
            results.push((event, callbacks));
        }
        let ghost all = self.event_history@ + self.pending@;
        let mut moved: Vec<Event<D>> = Vec::new();
        std::mem::swap(&mut moved, &mut self.pending);
        self.event_history.append(&mut moved);
        assert(self.event_history@ == all);
        let len: usize = self.event_history.len();
        if len > self.max_history {
            let kept = self.event_history.split_off(len - self.max_history);
            self.event_history = kept;
        }
        assert(self.event_history@ + self.pending@ =~= self.event_history@);
        assert(self.event_history@ == keep_last(all, self.max_history as nat));
        assert(forall|k: int|
            0 <= k < self.event_history@.len() ==> #[trigger] self.event_history@[k] == all[k + (
            all.len() - self.event_history@.len())]);
        results
    }
}

impl<D> Default for EventBus<D> {
    /// The same bus as `new()`.
    fn default() -> (r: Self)
        ensures
            r.is_fresh(10_000),
    {
        Self::new()
    }
}

/// Whether `copy` holds the events of `orig` in order, each with the same
/// header and a clone of its payload.
pub open spec fn copies_events<D: Clone>(orig: Seq<Event<D>>, copy: Seq<Event<D>>) -> bool {
    &&& copy.len() == orig.len()
    &&& forall|k: int|
        0 <= k < orig.len() ==> (#[trigger] copy[k]).same_header(orig[k]) && cloned(
            orig[k].data,
            copy[k].data,
        )
}

/// Copies of the events, each with the same header and a clone of its payload.
fn copy_events<D: Clone>(events: &Vec<Event<D>>) -> (r: Vec<Event<D>>)
    ensures
        copies_events(events@, r@),
{
    let mut r: Vec<Event<D>> = Vec::new();
    for i in 0..events.len()
        invariant
            r@.len() == i,
            forall|k: int|
                0 <= k < i ==> (#[trigger] r@[k]).same_header(events@[k]) && cloned(
                    events@[k].data,
                    r@[k].data,
                ),
    {
        r.push(events[i].clone());
    }
    r
}

impl<D: Clone> Clone for EventBus<D> {
    /// A copy with the same subscriptions, counters, tick and limit, and
    /// copies of the pending and archived events.
    fn clone(&self) -> (r: Self)
        ensures
            self.copied(r),
            self.wf() ==> r.wf(),
    {
        let mut subscriptions: Vec<Subscription> = Vec::new();
        for i in 0..self.subscriptions.len()
            invariant
                subscriptions@ == self.subscriptions@.take(i as int),
        {
            subscriptions.push(self.subscriptions[i].clone());
            assert(subscriptions@ =~= self.subscriptions@.take(i + 1));
        }
        assert(subscriptions@ =~= self.subscriptions@);
        let r = EventBus {
            subscriptions,
            event_history: copy_events(&self.event_history),
            pending: copy_events(&self.pending),
            next_event_id: self.next_event_id,
            next_sub_id: self.next_sub_id,
            tick: self.tick,
            max_history: self.max_history,
        };
        proof {
            let a = self.event_history@ + self.pending@;
            let b = r.event_history@ + r.pending@;
            assert forall|k: int| 0 <= k < a.len() implies (#[trigger] b[k]).id == a[k].id by {
                if k < self.event_history@.len() {
                    assert(b[k] == r.event_history@[k]);
                    assert(a[k] == self.event_history@[k]);
                } else {
                    let m: int = k - self.event_history@.len();
                    assert(b[k] == r.pending@[m]);
                    assert(a[k] == self.pending@[m]);
                }
            }
            assert(b.len() == a.len());
        }
        r
    }
}

/// The callback names of the subscriptions whose pattern matches `event_type`.
fn callbacks_matching(subs: &Vec<Subscription>, event_type: &str) -> (r: Vec<String>)
    ensures
        r@ == callbacks_for(subs@, event_type@),
{
    let mut r: Vec<String> = Vec::new();
    for i in 0..subs.len()
        invariant
            r@ == callbacks_for(subs@.take(i as int), event_type@),
    {
        let sub = &subs[i];
        let ghost pred = |s: Subscription| subscription_matches(s, event_type@);
        let ghost name = |s: Subscription| s.callback_name;
        let ghost prefix = subs@.take(i as int);
        let ghost next = subs@.take(i + 1);
        proof {
            reveal(Seq::filter);
            assert(next.drop_last() =~= prefix);
            assert(next.last() == *sub);
        }
        if matches_glob(sub.pattern.as_str(), event_type) {
            r.push(sub.callback_name.clone());
            assert(next.filter(pred) == prefix.filter(pred).push(*sub));
            assert(prefix.filter(pred).push(*sub).map_values(name) =~= prefix.filter(
                pred,
            ).map_values(name).push(sub.callback_name));
        } else {
            assert(next.filter(pred) == prefix.filter(pred));
        }
    }
    assert(subs@.take(subs@.len() as int) =~= subs@);
    r
}

/// Removing the subscriptions with one identifier keeps the others in
/// increasing order of identifiers, below any bound that held before.
proof fn lemma_without_id_keeps_order(subs: Seq<Subscription>, id: u64, bound: u64)
    requires
        subscription_ids_increase(subs),
        forall|i: int| 0 <= i < subs.len() ==> #[trigger] subs[i].id < bound,
    ensures
        subscription_ids_increase(without_id(subs, id)),
        forall|k: int|
            0 <= k < without_id(subs, id).len() ==> #[trigger] without_id(subs, id)[k].id < bound,
    decreases subs.len(),
{
    reveal(Seq::filter);
    if subs.len() > 0 {
        let rest = subs.drop_last();
        let last = subs.last();
        assert(forall|i: int| 0 <= i < rest.len() ==> rest[i] == subs[i]);
        lemma_without_id_keeps_order(rest, id, last.id);
        let fr = without_id(rest, id);
        let f = without_id(subs, id);
        if last.id != id {
            assert(f == fr.push(last));
        } else {
            assert(f == fr);
        }
    }
}

} // verus!

verus! {

/// Removing an identifier that no subscription has changes nothing.
proof fn lemma_without_absent_id(subs: Seq<Subscription>, id: u64)
    requires
        forall|i: int| 0 <= i < subs.len() ==> #[trigger] subs[i].id != id,
    ensures
        without_id(subs, id) == subs,
    decreases subs.len(),
{
    reveal(Seq::filter);
    if subs.len() > 0 {
        let rest = subs.drop_last();
        assert(forall|i: int| 0 <= i < rest.len() ==> rest[i] == subs[i]);
        lemma_without_absent_id(rest, id);
        assert(without_id(subs, id) == rest.push(subs.last()));
        assert(rest.push(subs.last()) =~= subs);
    }
}

/// Where identifiers are distinct, removing one identifier removes at most
/// one subscription, and none with that identifier is left.
proof fn lemma_without_id_count(subs: Seq<Subscription>, id: u64)
    requires
        subscription_ids_increase(subs),
    ensures
        without_id(subs, id).len() + (if has_id(subs, id) { 1int } else { 0int }) == subs.len(),
        !has_id(without_id(subs, id), id),
    decreases subs.len(),
{
    reveal(Seq::filter);
    if subs.len() > 0 {
        let rest = subs.drop_last();
        let last = subs.last();
        assert(forall|i: int| 0 <= i < rest.len() ==> rest[i] == subs[i]);
        lemma_without_id_count(rest, id);
        let fr = without_id(rest, id);
        if last.id == id {
            assert(without_id(subs, id) == fr);
            assert(has_id(subs, id)) by {
                assert(subs[subs.len() - 1].id == id);
            }
            assert(!has_id(rest, id)) by {
                if has_id(rest, id) {
                    let k: int = choose|k: int| 0 <= k < rest.len() && (#[trigger] rest[k]).id == id;
                    assert(subs[k].id < subs[subs.len() - 1].id);
                }
            }
        } else {
            assert(without_id(subs, id) == fr.push(last));
            assert(has_id(subs, id) == has_id(rest, id)) by {
                if has_id(subs, id) {
                    let k: int = choose|k: int| 0 <= k < subs.len() && (#[trigger] subs[k]).id == id;
                    assert(rest[k] == subs[k]);
                }
                if has_id(rest, id) {
                    let k: int = choose|k: int| 0 <= k < rest.len() && (#[trigger] rest[k]).id == id;
                    assert(subs[k] == rest[k]);
                }
            }
            assert(!has_id(fr.push(last), id)) by {
                if has_id(fr.push(last), id) {
                    let k: int = choose|k: int|
                        0 <= k < fr.push(last).len() && (#[trigger] fr.push(last)[k]).id == id;
                    assert(fr.push(last)[k] == fr[k]);
                }
            }
        }
    }
}

/// Events whose identifiers increase and lie in `[1, bound)` number at most
/// `bound - 1`.
proof fn lemma_increasing_ids_bounded<D>(events: Seq<Event<D>>, bound: u64)
    requires
        1 <= bound,
        event_ids_increase(events),
        forall|i: int| 0 <= i < events.len() ==> 1 <= (#[trigger] events[i]).id.0 < bound,
    ensures
        events.len() + 1 <= bound,
    decreases events.len(),
{
    if events.len() > 0 {
        let rest = events.drop_last();
        let last = events.last();
        assert(forall|i: int| 0 <= i < rest.len() ==> #[trigger] rest[i] == events[i]);
        assert(rest.len() > 0 ==> rest[0] == events[0]);
        lemma_increasing_ids_bounded(rest, last.id.0);
    }
}

/// A bus that satisfies its invariant hands out distinct identifiers: both
/// counters are at least 1, the subscriptions' identifiers increase and lie
/// below the next one, the identifiers of the archived and then the pending
/// events increase and lie in `[1, next)`, so there are no more of these
/// events than have been published, and the history is within its limit.
pub proof fn lemma_identifiers_distinct<D>(bus: EventBus<D>)
    requires
        bus.wf(),
    ensures
        1 <= bus.spec_next_event_id(),
        1 <= bus.spec_next_sub_id(),
        (bus.spec_history() + bus.spec_pending()).len() <= bus.published_count(),
        forall|i: int|
            0 <= i < (bus.spec_history() + bus.spec_pending()).len() ==> 1 <= (#[trigger] (
            bus.spec_history() + bus.spec_pending())[i]).id.0,
        subscription_ids_increase(bus.spec_subscriptions()),
        forall|i: int|
            0 <= i < bus.spec_subscriptions().len() ==> #[trigger] bus.spec_subscriptions()[i].id
                < bus.spec_next_sub_id(),
        event_ids_increase(bus.spec_history() + bus.spec_pending()),
        forall|i: int|
            0 <= i < (bus.spec_history() + bus.spec_pending()).len() ==> (#[trigger] (
            bus.spec_history() + bus.spec_pending())[i]).id.0 < bus.spec_next_event_id(),
        bus.spec_history().len() <= bus.spec_max_history(),
{
    lemma_increasing_ids_bounded(bus.spec_history() + bus.spec_pending(), bus.spec_next_event_id());
}

/// Unsubscribing the identifier that `subscribe` returned removes that
/// subscription and gives back the subscriptions that were there before.
pub proof fn law_unsubscribe_undoes_subscribe<D>(
    b0: EventBus<D>,
    b1: EventBus<D>,
    b2: EventBus<D>,
    pattern: Seq<char>,
    callback_name: Seq<char>,
    id: u64,
    removed: bool,
)
    requires
        b0.wf(),
        b0.subscribed(b1, pattern, callback_name, id),
        b1.unsubscribed(b2, id, removed),
    ensures
        removed,
        b2.spec_subscriptions() == b0.spec_subscriptions(),
        b0.same_events(b2),
{
    reveal(Seq::filter);
    let s0 = b0.spec_subscriptions();
    let s1 = b1.spec_subscriptions();
    assert(s1 =~= s0.push(s1.last()));
    assert(s1.drop_last() == s0);
    lemma_without_absent_id(s0, id);
    assert(without_id(s1, id) == without_id(s0, id));
    assert(s1[s1.len() - 1].id == id);
}

/// After `unsubscribe(id)` no subscription has identifier `id`, and exactly
/// one subscription is gone when the call reports a removal, none otherwise.
pub proof fn law_unsubscribe_removes_one<D>(b0: EventBus<D>, b1: EventBus<D>, id: u64, removed: bool)
    requires
        b0.wf(),
        b0.unsubscribed(b1, id, removed),
    ensures
        !has_id(b1.spec_subscriptions(), id),
        b1.spec_subscriptions().len() == b0.spec_subscriptions().len() - (if removed {
            1int
        } else {
            0int
        }),
{
    lemma_without_id_count(b0.spec_subscriptions(), id);
}

/// An event that is published and then processed is handed out with the
/// callbacks of the matching subscriptions, and ends the history unchanged,
/// payload included, when the history keeps any event at all.
pub proof fn law_published_event_is_processed<D: Clone>(
    b0: EventBus<D>,
    b1: EventBus<D>,
    b2: EventBus<D>,
    results: Seq<(Event<D>, Vec<String>)>,
    event_type: Seq<char>,
    data: D,
    source: Seq<char>,
    priority: EventPriority,
)
    requires
        b0.wf(),
        b0.published(b1, event_type, data, source, priority),
        b1.processed(b2, results),
        b0.spec_max_history() > 0,
    ensures
        results.len() > 0,
        results.last().0.id == EventId(b0.spec_next_event_id()),
        results.last().0.event_type@ == event_type,
        results.last().1@ == callbacks_for(b0.spec_subscriptions(), event_type),
        b2.spec_history().len() > 0,
        b2.spec_history().last() == b1.spec_pending().last(),
        b2.spec_history().last().data == data,
{
    let all = b1.spec_history() + b1.spec_pending();
    assert(all.last() == b1.spec_pending().last());
    let k: int = results.len() - 1;
    assert(results[k].0.same_header(b1.spec_pending()[k]));
}

/// Processing right after processing hands out nothing and leaves the
/// history as it was.
pub proof fn law_process_twice<D: Clone>(
    b0: EventBus<D>,
    b1: EventBus<D>,
    b2: EventBus<D>,
    r1: Seq<(Event<D>, Vec<String>)>,
    r2: Seq<(Event<D>, Vec<String>)>,
)
    requires
        b0.processed(b1, r1),
        b1.processed(b2, r2),
    ensures
        r2.len() == 0,
        b2.spec_history() == b1.spec_history(),
        b2.spec_pending() == b1.spec_pending(),
{
    assert(b1.spec_history() + b1.spec_pending() =~= b1.spec_history());
}

/// Every publication takes the next identifier: the published event's
/// identifier is the number of events published so far, itself included.
pub proof fn law_event_id_counts_publications<D>(
    b0: EventBus<D>,
    b1: EventBus<D>,
    event_type: Seq<char>,
    data: D,
    source: Seq<char>,
    priority: EventPriority,
)
    requires
        b0.wf(),
        b0.published(b1, event_type, data, source, priority),
    ensures
        b1.published_count() == b0.published_count() + 1,
        b1.spec_pending().last().id.0 == b1.published_count(),
{
}

/// Asking the history for the pattern `*` gives the whole history, in order.
pub proof fn law_star_selects_whole_history<D>(history: Seq<Event<D>>)
    ensures
        events_of_type(history, seq!['*']) == history,
    decreases history.len(),
{
    reveal(Seq::filter);
    if history.len() > 0 {
        law_star_selects_whole_history(history.drop_last());
        crate::glob::lemma_star_matches_everything(history.last().event_type@);
        assert(history.drop_last().push(history.last()) =~= history);
    }
}

/// The callback names of `subs`, in order.
pub open spec fn callback_names(subs: Seq<Subscription>) -> Seq<String> {
    subs.map_values(|s: Subscription| s.callback_name)
}

/// Whether `r` holds the elements of `s` at the strictly increasing positions
/// `idx`, in that order.
pub open spec fn picks<A>(s: Seq<A>, idx: Seq<int>, r: Seq<A>) -> bool {
    &&& r.len() == idx.len()
    &&& forall|k: int| 0 <= k < idx.len() ==> 0 <= #[trigger] idx[k] < s.len() && r[k] == s[idx[k]]
    &&& forall|a: int, b: int| 0 <= a < b < idx.len() ==> idx[a] < idx[b]
}

/// A filter keeps, in order, exactly the elements that satisfy the predicate.
proof fn lemma_filter_picks<A>(s: Seq<A>, pred: spec_fn(A) -> bool) -> (idx: Seq<int>)
    ensures
        picks(s, idx, s.filter(pred)),
        forall|i: int| 0 <= i < s.len() ==> (idx.contains(i) <==> pred(#[trigger] s[i])),
    decreases s.len(),
{
    reveal(Seq::filter);
    if s.len() == 0 {
        Seq::<int>::empty()
    } else {
        let rest = s.drop_last();
        let ir = lemma_filter_picks(rest, pred);
        let f = s.filter(pred);
        let fr = rest.filter(pred);
        let n = s.len() - 1;
        assert(forall|i: int| 0 <= i < rest.len() ==> rest[i] == s[i]);
        let idx = if pred(s.last()) {
            ir.push(n)
        } else {
            ir
        };
        if pred(s.last()) {
            assert(f == fr.push(s.last()));
            assert forall|k: int| 0 <= k < idx.len() implies 0 <= #[trigger] idx[k] < s.len()
                && f[k] == s[idx[k]] by {
                if k < ir.len() {
                    assert(idx[k] == ir[k]);
                    assert(f[k] == fr[k]);
                }
            }
        } else {
            assert(f == fr);
        }
        assert forall|i: int| 0 <= i < s.len() implies (idx.contains(i) <==> pred(
            #[trigger] s[i],
        )) by {
            if i < n {
                if ir.contains(i) {
                    let k: int = choose|k: int| 0 <= k < ir.len() && ir[k] == i;
                    assert(idx[k] == i);
                }
                if idx.contains(i) {
                    let k: int = choose|k: int| 0 <= k < idx.len() && idx[k] == i;
                    assert(k < ir.len());
                    assert(ir[k] == i);
                }
            } else {
                if pred(s.last()) {
                    assert(idx[idx.len() - 1] == n);
                } else if idx.contains(i) {
                    let k: int = choose|k: int| 0 <= k < idx.len() && idx[k] == i;
                    assert(ir[k] < rest.len());
                }
            }
        }
        idx
    }
}

/// The callbacks handed out with an event of type `event_type` are, in
/// subscription order, the callback names of exactly the subscriptions whose
/// pattern matches that type; so a pattern other than `*` never selects a type
/// with another number of segments.
pub proof fn law_callbacks_of_matching_subscriptions(subs: Seq<Subscription>, event_type: Seq<char>)
    ensures
        exists|idx: Seq<int>|
            {
                &&& #[trigger] picks(callback_names(subs), idx, callbacks_for(subs, event_type))
                &&& forall|i: int|
                    0 <= i < subs.len() ==> (idx.contains(i) <==> glob_matches(
                        (#[trigger] subs[i]).pattern@,
                        event_type,
                    ))
            },
        forall|i: int|
            0 <= i < subs.len() && glob_matches((#[trigger] subs[i]).pattern@, event_type)
                && subs[i].pattern@ != seq!['*'] ==> count_char(subs[i].pattern@, '.')
                == count_char(event_type, '.'),
{
    let pred = |s: Subscription| subscription_matches(s, event_type);
    let name = |s: Subscription| s.callback_name;
    let idx = lemma_filter_picks(subs, pred);
    let f = subs.filter(pred);
    let names = callback_names(subs);
    let cb = callbacks_for(subs, event_type);
    assert(cb == f.map_values(name));
    assert forall|k: int| 0 <= k < idx.len() implies 0 <= #[trigger] idx[k] < names.len()
        && cb[k] == names[idx[k]] by {
        assert(f[k] == subs[idx[k]]);
    }
    assert forall|i: int| 0 <= i < subs.len() implies (idx.contains(i) <==> glob_matches(
        (#[trigger] subs[i]).pattern@,
        event_type,
    )) by {
        assert(pred(subs[i]) == glob_matches(subs[i].pattern@, event_type));
    }
    assert(picks(names, idx, cb));
    assert forall|i: int|
        0 <= i < subs.len() && glob_matches((#[trigger] subs[i]).pattern@, event_type)
            && subs[i].pattern@ != seq!['*'] implies count_char(subs[i].pattern@, '.')
        == count_char(event_type, '.') by {
        lemma_glob_same_dots(subs[i].pattern@, event_type);
    }
}

/// `history_for_type(pattern)` gives, in history order, exactly the events of
/// the history whose type the pattern matches; for a pattern other than `*`
/// each of them has as many segments as the pattern.
pub proof fn law_history_for_type_selects_matches<D>(history: Seq<Event<D>>, pattern: Seq<char>)
    ensures
        exists|idx: Seq<int>|
            {
                &&& #[trigger] picks(history, idx, events_of_type(history, pattern))
                &&& forall|i: int|
                    0 <= i < history.len() ==> (idx.contains(i) <==> glob_matches(
                        pattern,
                        (#[trigger] history[i]).event_type@,
                    ))
            },
        pattern != seq!['*'] ==> forall|k: int|
            0 <= k < events_of_type(history, pattern).len() ==> count_char(
                (#[trigger] events_of_type(history, pattern)[k]).event_type@,
                '.',
            ) == count_char(pattern, '.'),
{
    let pred = |e: Event<D>| glob_matches(pattern, e.event_type@);
    let idx = lemma_filter_picks(history, pred);
    let f = events_of_type(history, pattern);
    assert(f == history.filter(pred));
    assert forall|i: int| 0 <= i < history.len() implies (idx.contains(i) <==> glob_matches(
        pattern,
        (#[trigger] history[i]).event_type@,
    )) by {
        assert(pred(history[i]) == glob_matches(pattern, history[i].event_type@));
    }
    if pattern != seq!['*'] {
        assert forall|k: int| 0 <= k < f.len() implies count_char(
            (#[trigger] f[k]).event_type@,
            '.',
        ) == count_char(pattern, '.') by {
            let i = idx[k];
            assert(f[k] == history[i]);
            assert(idx.contains(i));
            lemma_glob_same_dots(pattern, history[i].event_type@);
        }
    }
}

/// `history_for_source(source)` gives, in history order, exactly the events
/// of the history whose source is `source`.
pub proof fn law_history_for_source_selects_source<D>(history: Seq<Event<D>>, source: Seq<char>)
    ensures
        exists|idx: Seq<int>|
            {
                &&& #[trigger] picks(history, idx, events_from_source(history, source))
                &&& forall|i: int|
                    0 <= i < history.len() ==> (idx.contains(i) <==> (#[trigger] history[i]).source@
                        == source)
            },
{
    let pred = |e: Event<D>| comes_from(e, source);
    let idx = lemma_filter_picks(history, pred);
    assert(events_from_source(history, source) == history.filter(pred));
    assert forall|i: int| 0 <= i < history.len() implies (idx.contains(i) <==> (
    #[trigger] history[i]).source@ == source) by {
        assert(pred(history[i]) == (history[i].source@ == source));
    }
}

/// Where identifiers increase, removing one identifier takes out exactly the
/// subscription at the place that has it.
proof fn lemma_without_id_is_remove(subs: Seq<Subscription>, id: u64, i: int)
    requires
        subscription_ids_increase(subs),
        0 <= i < subs.len(),
        subs[i].id == id,
    ensures
        without_id(subs, id) == subs.remove(i),
    decreases subs.len(),
{
    reveal(Seq::filter);
    let rest = subs.drop_last();
    let last = subs.last();
    assert(forall|k: int| 0 <= k < rest.len() ==> rest[k] == subs[k]);
    if i == subs.len() - 1 {
        assert forall|k: int| 0 <= k < rest.len() implies #[trigger] rest[k].id != id by {
            assert(subs[k].id < subs[i].id);
        }
        lemma_without_absent_id(rest, id);
        assert(without_id(subs, id) == without_id(rest, id));
        assert(subs.remove(i) =~= rest);
    } else {
        assert(last.id != id) by {
            assert(subs[i].id < subs[subs.len() - 1].id);
        }
        lemma_without_id_is_remove(rest, id, i);
        assert(without_id(subs, id) == without_id(rest, id).push(last));
        assert(rest.remove(i).push(last) =~= subs.remove(i));
    }
}

/// `unsubscribe(id)` reports a removal exactly when some active subscription,
/// wherever it stands, has identifier `id`; it then takes out just that one and
/// keeps the others in order, and otherwise changes nothing.
pub proof fn law_unsubscribe_removes_the_one_with_id<D>(
    b0: EventBus<D>,
    b1: EventBus<D>,
    id: u64,
    removed: bool,
)
    requires
        b0.wf(),
        b0.unsubscribed(b1, id, removed),
    ensures
        removed <==> exists|i: int|
            0 <= i < b0.spec_subscriptions().len() && (#[trigger] b0.spec_subscriptions()[i]).id
                == id,
        removed ==> exists|i: int|
            0 <= i < b0.spec_subscriptions().len() && (#[trigger] b0.spec_subscriptions()[i]).id
                == id && b1.spec_subscriptions() == b0.spec_subscriptions().remove(i),
        !removed ==> b1.spec_subscriptions() == b0.spec_subscriptions(),
{
    let subs = b0.spec_subscriptions();
    lemma_identifiers_distinct(b0);
    if removed {
        let i: int = choose|i: int| 0 <= i < subs.len() && (#[trigger] subs[i]).id == id;
        lemma_without_id_is_remove(subs, id, i);
    } else {
        lemma_without_absent_id(subs, id);
    }
}

} // verus!
