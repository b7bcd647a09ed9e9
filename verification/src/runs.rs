//! Laws over sequences of calls on one bus.
//!
//! A run is a sequence of bus states and of the calls that lead from each
//! state to the next; each call is described by the predicate that its
//! contract ensures. Calls that only read the bus leave it unchanged and are
//! not steps of a run. A clone is a step too: the run goes on with the copy.
use vstd::prelude::*;

use crate::bus::{
    copies_events, keep_last, law_unsubscribe_removes_one, lemma_identifiers_distinct, EventBus,
};
use crate::event::Event;

verus! {

/// A call that changes a bus, with what it returned where that matters.
pub enum BusCall {
    Subscribe { id: u64 },
    Unsubscribe { id: u64, removed: bool },
    Publish,
    Process,
    ClearHistory,
    SetTick { tick: u64 },
    Cloned,
}

/// Whether `after` is `before` after `call`.
pub open spec fn call_step<D: Clone>(before: EventBus<D>, after: EventBus<D>, call: BusCall) -> bool {
    match call {
        BusCall::Subscribe { id } => before.subscribed(
            after,
            after.spec_subscriptions().last().pattern@,
            after.spec_subscriptions().last().callback_name@,
            id,
        ),
        BusCall::Unsubscribe { id, removed } => before.unsubscribed(after, id, removed),
        BusCall::Publish => {
            let e = after.spec_pending().last();
            before.published(after, e.event_type@, e.data, e.source@, e.priority)
        },
        BusCall::Process => before.drained_into_history(after),
        BusCall::ClearHistory => before.history_cleared(after),
        BusCall::SetTick { tick } => before.tick_set(after, tick),
        BusCall::Cloned => before.copied(after),
    }
}

/// Whether `states` and `calls` form a run that starts at a bus made by
/// `new`, `default` or `with_history_limit`.
pub open spec fn is_run<D: Clone>(states: Seq<EventBus<D>>, calls: Seq<BusCall>) -> bool {
    &&& states.len() == calls.len() + 1
    &&& states[0].is_fresh(states[0].spec_max_history())
    &&& forall|k: int| 0 <= k < states.len() ==> (#[trigger] states[k]).wf()
    &&& forall|k: int|
        0 <= k < calls.len() ==> call_step(states[k], states[k + 1], #[trigger] calls[k])
}

/// How many calls subscribed.
pub open spec fn count_subscribes(calls: Seq<BusCall>) -> nat
    decreases calls.len(),
{
    if calls.len() == 0 {
        0
    } else {
        count_subscribes(calls.drop_last()) + if calls.last() is Subscribe {
            1nat
        } else {
            0nat
        }
    }
}

/// How many calls unsubscribed and reported a removal.
pub open spec fn count_removals(calls: Seq<BusCall>) -> nat
    decreases calls.len(),
{
    if calls.len() == 0 {
        0
    } else {
        count_removals(calls.drop_last()) + match calls.last() {
            BusCall::Unsubscribe { id, removed } => if removed {
                1nat
            } else {
                0nat
            },
            _ => 0nat,
        }
    }
}

/// How many calls published.
pub open spec fn count_publishes(calls: Seq<BusCall>) -> nat
    decreases calls.len(),
{
    if calls.len() == 0 {
        0
    } else {
        count_publishes(calls.drop_last()) + if calls.last() is Publish {
            1nat
        } else {
            0nat
        }
    }
}

/// How many calls published after the last call that processed.
pub open spec fn publishes_since_process(calls: Seq<BusCall>) -> nat
    decreases calls.len(),
{
    if calls.len() == 0 {
        0
    } else if calls.last() is Process {
        0
    } else {
        publishes_since_process(calls.drop_last()) + if calls.last() is Publish {
            1nat
        } else {
            0nat
        }
    }
}

/// The tick that the last call setting it set, or 0 where none did.
pub open spec fn tick_after(calls: Seq<BusCall>) -> u64
    decreases calls.len(),
{
    if calls.len() == 0 {
        0
    } else {
        match calls.last() {
            BusCall::SetTick { tick } => tick,
            _ => tick_after(calls.drop_last()),
        }
    }
}

/// The events processed by the first `k` calls of the run since the last
/// call among them that cleared the history, in the order of processing.
pub open spec fn processed_since_clear<D>(
    states: Seq<EventBus<D>>,
    calls: Seq<BusCall>,
    k: int,
) -> Seq<Event<D>>
    decreases k,
{
    if k <= 0 {
        Seq::<Event<D>>::empty()
    } else {
        match calls[k - 1] {
            BusCall::Process => processed_since_clear(states, calls, k - 1) + states[k
                - 1].spec_pending(),
            BusCall::ClearHistory => Seq::<Event<D>>::empty(),
            _ => processed_since_clear(states, calls, k - 1),
        }
    }
}

/// Whether two sequences of events agree event by event on everything but
/// the payload.
pub open spec fn same_headers<D>(a: Seq<Event<D>>, b: Seq<Event<D>>) -> bool {
    &&& a.len() == b.len()
    &&& forall|i: int| 0 <= i < a.len() ==> (#[trigger] a[i]).same_header(b[i])
}

/// The prefix of `calls` of length `k` ends with `calls[k - 1]`.
proof fn lemma_take_step(calls: Seq<BusCall>, k: int)
    requires
        0 < k <= calls.len(),
    ensures
        calls.take(k).drop_last() == calls.take(k - 1),
        calls.take(k).last() == calls[k - 1],
{
    assert(calls.take(k).drop_last() =~= calls.take(k - 1));
}

/// No call lowers the next subscription identifier.
proof fn lemma_next_sub_id_grows<D: Clone>(
    states: Seq<EventBus<D>>,
    calls: Seq<BusCall>,
    a: int,
    b: int,
)
    requires
        is_run(states, calls),
        0 <= a <= b < states.len(),
    ensures
        states[a].spec_next_sub_id() <= states[b].spec_next_sub_id(),
    decreases b - a,
{
    if a < b {
        lemma_next_sub_id_grows(states, calls, a, b - 1);
        assert(call_step(states[b - 1], states[b], calls[b - 1]));
    }
}

/// Subscription identifiers never repeat: a later `subscribe` returns more
/// than any earlier one, whatever calls (unsubscribing included) come between.
pub proof fn law_subscription_ids_never_repeat<D: Clone>(
    states: Seq<EventBus<D>>,
    calls: Seq<BusCall>,
    i: int,
    j: int,
    first: u64,
    second: u64,
)
    requires
        is_run(states, calls),
        0 <= i < j < calls.len(),
        calls[i] == (BusCall::Subscribe { id: first }),
        calls[j] == (BusCall::Subscribe { id: second }),
    ensures
        first < second,
{
    assert(call_step(states[i], states[i + 1], calls[i]));
    assert(call_step(states[j], states[j + 1], calls[j]));
    lemma_next_sub_id_grows(states, calls, i + 1, j);
}

/// Event identifiers count publications: after the first `k` calls of a run
/// the bus has published exactly as many events as those calls published, and
/// the event that a publishing call queues has the number of publications so
/// far, itself included, as its identifier.
pub proof fn law_event_ids_count_publications<D: Clone>(
    states: Seq<EventBus<D>>,
    calls: Seq<BusCall>,
    k: int,
)
    requires
        is_run(states, calls),
        0 <= k < states.len(),
    ensures
        states[k].published_count() == count_publishes(calls.take(k)),
        k < calls.len() && calls[k] is Publish ==> states[k + 1].spec_pending().last().id.0
            == count_publishes(calls.take(k + 1)),
    decreases k,
{
    if k > 0 {
        law_event_ids_count_publications(states, calls, k - 1);
        lemma_take_step(calls, k);
        assert(call_step(states[k - 1], states[k], calls[k - 1]));
    } else {
        assert(calls.take(0) =~= Seq::<BusCall>::empty());
    }
    if k < calls.len() && calls[k] is Publish {
        lemma_take_step(calls, k + 1);
        lemma_identifiers_distinct(states[k]);
        assert(count_publishes(calls.take(k + 1)) == count_publishes(calls.take(k)) + 1);
        assert(call_step(states[k], states[k + 1], calls[k]));
    }
}

/// The number of subscriptions after the first `k` calls of a run is the
/// number of those calls that subscribed, less those that unsubscribed and
/// reported a removal.
pub proof fn law_subscription_count<D: Clone>(
    states: Seq<EventBus<D>>,
    calls: Seq<BusCall>,
    k: int,
)
    requires
        is_run(states, calls),
        0 <= k < states.len(),
    ensures
        states[k].spec_subscriptions().len() + count_removals(calls.take(k)) == count_subscribes(
            calls.take(k),
        ),
    decreases k,
{
    if k > 0 {
        law_subscription_count(states, calls, k - 1);
        lemma_take_step(calls, k);
        assert(call_step(states[k - 1], states[k], calls[k - 1]));
        match calls[k - 1] {
            BusCall::Unsubscribe { id, removed } => {
                law_unsubscribe_removes_one(states[k - 1], states[k], id, removed);
            },
            _ => {},
        }
    } else {
        assert(calls.take(0) =~= Seq::<BusCall>::empty());
    }
}

/// The number of pending events after the first `k` calls of a run is the
/// number of those calls that published after the last one that processed;
/// right after processing it is 0.
pub proof fn law_pending_count<D: Clone>(states: Seq<EventBus<D>>, calls: Seq<BusCall>, k: int)
    requires
        is_run(states, calls),
        0 <= k < states.len(),
    ensures
        states[k].spec_pending().len() == publishes_since_process(calls.take(k)),
    decreases k,
{
    if k > 0 {
        law_pending_count(states, calls, k - 1);
        lemma_take_step(calls, k);
        assert(call_step(states[k - 1], states[k], calls[k - 1]));
    } else {
        assert(calls.take(0) =~= Seq::<BusCall>::empty());
    }
}

/// The tick after the first `k` calls of a run is the one that the last
/// call setting it set (0 where none did), and every event that a later call
/// publishes carries that tick until the next call sets another.
pub proof fn law_tick_stamps_later_events<D: Clone>(
    states: Seq<EventBus<D>>,
    calls: Seq<BusCall>,
    k: int,
)
    requires
        is_run(states, calls),
        0 <= k < states.len(),
    ensures
        states[k].spec_tick() == tick_after(calls.take(k)),
        k < calls.len() && calls[k] is Publish ==> states[k + 1].spec_pending().last().tick
            == tick_after(calls.take(k)),
    decreases k,
{
    if k > 0 {
        law_tick_stamps_later_events(states, calls, k - 1);
        lemma_take_step(calls, k);
        assert(call_step(states[k - 1], states[k], calls[k - 1]));
    } else {
        assert(calls.take(0) =~= Seq::<BusCall>::empty());
    }
    if k < calls.len() && calls[k] is Publish {
        assert(call_step(states[k], states[k + 1], calls[k]));
    }
}

/// Keeping the last `n` twice, with events appended between, keeps the last
/// `n` of everything.
proof fn lemma_keep_last_append<D>(a: Seq<Event<D>>, p: Seq<Event<D>>, n: nat)
    ensures
        keep_last(keep_last(a, n) + p, n) == keep_last(a + p, n),
{
    let x = keep_last(a, n) + p;
    let y = a + p;
    let lx = keep_last(x, n);
    let ly = keep_last(y, n);
    assert(lx.len() == ly.len());
    assert forall|i: int| 0 <= i < lx.len() implies lx[i] == ly[i] by {
        let ix = i + x.len() - lx.len();
        let iy = i + y.len() - ly.len();
        assert(lx[i] == x[ix]);
        assert(ly[i] == y[iy]);
        if iy >= a.len() {
            assert(y[iy] == p[iy - a.len()]);
            assert(x[ix] == p[ix - keep_last(a, n).len()]);
        } else {
            assert(y[iy] == a[iy]);
            assert(x[ix] == keep_last(a, n)[ix]);
        }
    }
    assert(lx =~= ly);
}

/// Sequences with the same headers keep the same headers when the same
/// events are appended and the last `n` are kept.
proof fn lemma_same_headers_keep_last<D>(
    a: Seq<Event<D>>,
    b: Seq<Event<D>>,
    p: Seq<Event<D>>,
    n: nat,
)
    requires
        same_headers(a, b),
    ensures
        same_headers(keep_last(a + p, n), keep_last(b + p, n)),
{
    let x = keep_last(a + p, n);
    let y = keep_last(b + p, n);
    assert forall|i: int| 0 <= i < x.len() implies (#[trigger] x[i]).same_header(y[i]) by {
        let j = i + (a + p).len() - x.len();
        assert(x[i] == (a + p)[j]);
        assert(y[i] == (b + p)[j]);
        if j < a.len() {
            assert(a[j].same_header(b[j]));
        }
    }
}

/// The history after the first `k` calls of a run is the newest
/// `max_history` of the events processed since the bus was made or since the
/// history was last cleared, oldest first, payloads aside (a clone in the run
/// holds clones of them); the limit never changes.
pub proof fn law_history_keeps_newest<D: Clone>(
    states: Seq<EventBus<D>>,
    calls: Seq<BusCall>,
    k: int,
)
    requires
        is_run(states, calls),
        0 <= k < states.len(),
    ensures
        states[k].spec_max_history() == states[0].spec_max_history(),
        same_headers(
            states[k].spec_history(),
            keep_last(processed_since_clear(states, calls, k), states[0].spec_max_history() as nat),
        ),
    decreases k,
{
    let n = states[0].spec_max_history() as nat;
    if k > 0 {
        law_history_keeps_newest(states, calls, k - 1);
        let prev = processed_since_clear(states, calls, k - 1);
        let h = states[k - 1].spec_history();
        assert(call_step(states[k - 1], states[k], calls[k - 1]));
        match calls[k - 1] {
            BusCall::Process => {
                let pend = states[k - 1].spec_pending();
                lemma_same_headers_keep_last(h, keep_last(prev, n), pend, n);
                lemma_keep_last_append(prev, pend, n);
            },
            BusCall::ClearHistory => {
                assert(keep_last(Seq::<Event<D>>::empty(), n) =~= Seq::<Event<D>>::empty());
            },
            BusCall::Cloned => {
                let hc = states[k].spec_history();
                let want = keep_last(prev, n);
                assert(copies_events(h, hc));
                assert forall|i: int| 0 <= i < hc.len() implies (#[trigger] hc[i]).same_header(
                    want[i],
                ) by {
                    assert(hc[i].same_header(h[i]));
                    assert(h[i].same_header(want[i]));
                }
            },
            _ => {},
        }
    }
}

} // verus!
