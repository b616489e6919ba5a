//! The simulation's scheduled events and the queue that releases them tick
//! by tick, earliest tick first and, within a tick, lowest priority number
//! first.

use vstd::prelude::*;

verus! {

/// What a scheduled event does when its tick comes.
#[derive(Debug)]
pub enum EventType {
    LinkStateChange { link_id: String, is_up: bool },
    LsaFlood { lsa_key: String, source_router_id: String, area_id: u32 },
    BgpSessionEvent { router_id: String, neighbor_ip: String, event: BgpFsmEvent },
    BgpUpdate { router_id: String, neighbor_ip: String },
    TrafficStart { generator_id: String },
    TrafficStop { generator_id: String },
    PolicyChange { policy_name: String },
}

/// An input to the BGP session state machine.
#[derive(Debug, Clone, Copy, PartialEq, Eq, Structural)]
pub enum BgpFsmEvent {
    Start,
    TcpEstablished,
    OpenReceived,
    KeepaliveReceived,
    HoldTimerExpired,
    Stop,
}

/// An event together with the tick at which it is due and its priority
/// within that tick (a lower number comes first).
#[derive(Debug)]
pub struct SimEvent {
    pub scheduled_tick: u64,
    pub priority: u32,
    pub event_type: EventType,
}

/// Whether `a` is due no later than `b`: earlier tick first, and within a
/// tick the lower priority number first.
pub open spec fn due_no_later(a: SimEvent, b: SimEvent) -> bool {
    a.scheduled_tick < b.scheduled_tick || (a.scheduled_tick == b.scheduled_tick && a.priority
        <= b.priority)
}

/// Events in the order in which they fall due.
pub open spec fn in_due_order(s: Seq<SimEvent>) -> bool {
    forall|i: int, j: int| 0 <= i < j < s.len() ==> due_no_later(#[trigger] s[i], #[trigger] s[j])
}

/// Where `e` goes among `s`: after every event due no later than it.
pub open spec fn insertion_point(s: Seq<SimEvent>, e: SimEvent) -> int
    decreases s.len(),
{
    if s.len() == 0 {
        0
    } else if due_no_later(s.last(), e) {
        s.len() as int
    } else {
        insertion_point(s.drop_last(), e)
    }
}

/// How many of the leading events are due at or before `tick`.
pub open spec fn due_count(s: Seq<SimEvent>, tick: u64) -> int
    decreases s.len(),
{
    if s.len() == 0 {
        0
    } else if s[0].scheduled_tick <= tick {
        1 + due_count(s.drop_first(), tick)
    } else {
        0
    }
}

/// Pending events, kept in due order.
#[derive(Debug)]
pub struct EventQueue {
    events: Vec<SimEvent>,
}

impl View for EventQueue {
    type V = Seq<SimEvent>;

    closed spec fn view(&self) -> Seq<SimEvent> {
        self.events@
    }
}

proof fn lemma_insertion_point_bounds(s: Seq<SimEvent>, e: SimEvent)
    requires
        in_due_order(s),
    ensures
        0 <= insertion_point(s, e) <= s.len(),
        forall|i: int| 0 <= i < insertion_point(s, e) ==> due_no_later(#[trigger] s[i], e),
        forall|i: int|
            insertion_point(s, e) <= i < s.len() ==> !due_no_later(#[trigger] s[i], e),
    decreases s.len(),
{
    if s.len() > 0 {
        if due_no_later(s.last(), e) {
            assert forall|i: int| 0 <= i < s.len() implies due_no_later(#[trigger] s[i], e) by {
                if i < s.len() - 1 {
                    assert(due_no_later(s[i], s[s.len() - 1]));
                }
            }
        } else {
            let t = s.drop_last();
            assert(in_due_order(t)) by {
                assert forall|i: int, j: int| 0 <= i < j < t.len() implies due_no_later(
                    #[trigger] t[i],
                    #[trigger] t[j],
                ) by {
                    assert(t[i] == s[i] && t[j] == s[j]);
                }
            }
            lemma_insertion_point_bounds(t, e);
            assert forall|i: int| 0 <= i < insertion_point(s, e) implies due_no_later(
                #[trigger] s[i],
                e,
            ) by {
                assert(s[i] == t[i]);
            }
            assert forall|i: int| insertion_point(s, e) <= i < s.len() implies !due_no_later(
                #[trigger] s[i],
                e,
            ) by {
                if i < s.len() - 1 {
                    assert(s[i] == t[i]);
                }
            }
        }
    }
}

proof fn lemma_due_count(s: Seq<SimEvent>, tick: u64, k: int)
    requires
        in_due_order(s),
        0 <= k <= s.len(),
        forall|i: int| 0 <= i < k ==> (#[trigger] s[i]).scheduled_tick <= tick,
        k < s.len() ==> s[k].scheduled_tick > tick,
    ensures
        due_count(s, tick) == k,
    decreases k,
{
    if k > 0 {
        let t = s.drop_first();
        assert(in_due_order(t)) by {
            assert forall|i: int, j: int| 0 <= i < j < t.len() implies due_no_later(
                #[trigger] t[i],
                #[trigger] t[j],
            ) by {
                assert(t[i] == s[i + 1] && t[j] == s[j + 1]);
            }
        }
        assert forall|i: int| 0 <= i < k - 1 implies (#[trigger] t[i]).scheduled_tick <= tick by {
            assert(t[i] == s[i + 1]);
        }
        if k < s.len() {
            assert(t[k - 1] == s[k]);
        }
        lemma_due_count(t, tick, k - 1);
    }
}

impl EventQueue {
    /// The queue's events are in due order.
    pub closed spec fn wf(&self) -> bool {
        in_due_order(self.events@)
    }

    /// An empty queue.
    pub fn new() -> (q: Self)
        ensures
            q.wf(),
            q@ == Seq::<SimEvent>::empty(),
    {
        EventQueue { events: Vec::new() }
    }

    /// Adds an event after every queued event that is due no later than it.
    pub fn push(&mut self, event: SimEvent)
        requires
            old(self).wf(),
        ensures
            final(self).wf(),
            final(self)@ == old(self)@.insert(insertion_point(old(self)@, event), event),
    {
        let ghost s = self.events@;
        let ghost e = event;
        proof {
            lemma_insertion_point_bounds(s, e);
        }
        let mut i = self.events.len();
        while i > 0 && !(self.events[i - 1].scheduled_tick < event.scheduled_tick || (
        self.events[i - 1].scheduled_tick == event.scheduled_tick && self.events[i - 1].priority
            <= event.priority))
            invariant
                self.events@ == s,
                e == event,
                in_due_order(s),
                0 <= i <= s.len(),
                insertion_point(s, e) <= i,
                0 <= insertion_point(s, e),
                forall|j: int| i <= j < s.len() ==> !due_no_later(#[trigger] s[j], e),
                forall|j: int| 0 <= j < insertion_point(s, e) ==> due_no_later(#[trigger] s[j], e),
            decreases i,
        {
            i -= 1;
        }
        proof {
            if i > 0 {
                assert(due_no_later(s[i - 1], e));
                assert(insertion_point(s, e) == i) by {
                    if insertion_point(s, e) < i {
                        assert(!due_no_later(s[i - 1], e));
                    }
                }
            }
        }
        self.events.insert(i, event);
        proof {
            lemma_insert_keeps_order(s, e);
        }
    }

    /// Queues `event_type` for `tick` with the given priority.
    pub fn schedule(&mut self, tick: u64, priority: u32, event_type: EventType)
        requires
            old(self).wf(),
        ensures
            final(self).wf(),
            ({
                let e = SimEvent { scheduled_tick: tick, priority, event_type };
                final(self)@ == old(self)@.insert(insertion_point(old(self)@, e), e)
            }),
    {
        self.push(SimEvent { scheduled_tick: tick, priority, event_type });
    }

    /// Takes out every event due at or before `tick`, in due order.
    pub fn drain_for_tick(&mut self, tick: u64) -> (events: Vec<SimEvent>)
        requires
            old(self).wf(),
        ensures
            final(self).wf(),
            events@ == old(self)@.take(due_count(old(self)@, tick)),
            final(self)@ == old(self)@.skip(due_count(old(self)@, tick)),
            forall|i: int| 0 <= i < events@.len() ==> (#[trigger] events@[i]).scheduled_tick <= tick,
            forall|i: int|
                0 <= i < final(self)@.len() ==> (#[trigger] final(self)@[i]).scheduled_tick > tick,
    {
        let ghost s = self.events@;
        let mut k: usize = 0;
        while k < self.events.len() && self.events[k].scheduled_tick <= tick
            invariant
                self.events@ == s,
                k <= s.len(),
                forall|i: int| 0 <= i < k ==> (#[trigger] s[i]).scheduled_tick <= tick,
            decreases s.len() - k,
        {
            k += 1;
        }
        proof {
            lemma_due_count(s, tick, k as int);
        }
        let mut taken = self.events.split_off(k);
        std::mem::swap(&mut self.events, &mut taken);
        proof {
            assert(taken@ =~= s.take(k as int));
            assert(self.events@ =~= s.skip(k as int));
            assert forall|i: int| 0 <= i < self.events@.len() implies (#[trigger] self.events@[
                i
            ]).scheduled_tick > tick by {
                assert(self.events@[i] == s[k + i]);
                if k < s.len() {
                    assert(s[k as int].scheduled_tick > tick);
                    if i > 0 {
                        assert(due_no_later(s[k as int], s[k + i]));
                    }
                }
            }
            let t = self.events@;
            assert forall|a: int, b: int| 0 <= a < b < t.len() implies due_no_later(
                #[trigger] t[a],
                #[trigger] t[b],
            ) by {
                assert(t[a] == s[k + a] && t[b] == s[k + b]);
            }
        }
        taken
    }

    /// A well-formed queue holds its events in due order.
    pub proof fn lemma_in_due_order(&self)
        requires
            self.wf(),
        ensures
            in_due_order(self@),
    {
    }

    /// The event at position `i`, in due order.
    pub fn get(&self, i: usize) -> (e: &SimEvent)
        requires
            i < self@.len(),
        ensures
            *e == self@[i as int],
    {
        &self.events[i]
    }

    /// Number of queued events.
    pub fn len(&self) -> (n: usize)
        ensures
            n == self@.len(),
    {
        self.events.len()
    }

    /// Whether no event is queued.
    pub fn is_empty(&self) -> (b: bool)
        ensures
            b == (self@.len() == 0),
    {
        self.events.len() == 0
    }
}

// ── Laws ──

/// In a queue in due order, the events due by `tick` are exactly the
/// leading `due_count` ones.
pub proof fn lemma_due_prefix(s: Seq<SimEvent>, tick: u64)
    requires
        in_due_order(s),
    ensures
        0 <= due_count(s, tick) <= s.len(),
        forall|i: int| 0 <= i < s.len() ==> (i < due_count(s, tick) <==> (#[trigger] s[i]).scheduled_tick <= tick),
    decreases s.len(),
{
    if s.len() > 0 {
        if s[0].scheduled_tick <= tick {
            let t = s.drop_first();
            assert(in_due_order(t)) by {
                assert forall|i: int, j: int| 0 <= i < j < t.len() implies due_no_later(
                    #[trigger] t[i],
                    #[trigger] t[j],
                ) by {
                    assert(t[i] == s[i + 1] && t[j] == s[j + 1]);
                }
            }
            lemma_due_prefix(t, tick);
            assert forall|i: int| 0 <= i < s.len() implies (i < due_count(s, tick) <==> (
            #[trigger] s[i]).scheduled_tick <= tick) by {
                if i > 0 {
                    assert(s[i] == t[i - 1]);
                }
            }
        } else {
            assert forall|i: int| 0 <= i < s.len() implies !((#[trigger] s[i]).scheduled_tick
                <= tick) by {
                if i > 0 {
                    assert(due_no_later(s[0], s[i]));
                }
            }
        }
    }
}

/// Adding an event where `push` puts it keeps the queue in due order.
pub proof fn lemma_insert_keeps_order(s: Seq<SimEvent>, e: SimEvent)
    requires
        in_due_order(s),
    ensures
        in_due_order(s.insert(insertion_point(s, e), e)),
{
    lemma_insertion_point_bounds(s, e);
    let i = insertion_point(s, e);
    let t = s.insert(i, e);
    assert forall|a: int, b: int| 0 <= a < b < t.len() implies due_no_later(
        #[trigger] t[a],
        #[trigger] t[b],
    ) by {
        if a < i && b < i {
            assert(t[a] == s[a] && t[b] == s[b]);
        } else if a < i && b == i {
            assert(t[a] == s[a]);
        } else if a < i {
            assert(t[a] == s[a] && t[b] == s[b - 1]);
            assert(due_no_later(s[a], e));
        } else if a == i {
            assert(t[b] == s[b - 1]);
            assert(!due_no_later(s[b - 1], e));
        } else {
            assert(t[a] == s[a - 1] && t[b] == s[b - 1]);
        }
    }
}

/// An event pushed onto a queue is released by a drain for `tick` exactly
/// when it is scheduled no later than `tick`: it lies within the drained
/// prefix if and only if it is due.
pub proof fn law_pushed_event_released_when_due(s: Seq<SimEvent>, e: SimEvent, tick: u64)
    requires
        in_due_order(s),
    ensures
        ({
            let q = s.insert(insertion_point(s, e), e);
            &&& q[insertion_point(s, e)] == e
            &&& (insertion_point(s, e) < due_count(q, tick) <==> e.scheduled_tick <= tick)
        }),
{
    lemma_insertion_point_bounds(s, e);
    lemma_insert_keeps_order(s, e);
    let q = s.insert(insertion_point(s, e), e);
    lemma_due_prefix(q, tick);
    assert(q[insertion_point(s, e)] == e);
}

/// Draining never releases an event before its tick, and what stays is all
/// due later: every released event is due by `tick` and every kept one is
/// not.
pub proof fn law_drain_splits_at_tick(s: Seq<SimEvent>, tick: u64)
    requires
        in_due_order(s),
    ensures
        forall|i: int| 0 <= i < due_count(s, tick) ==> (#[trigger] s.take(due_count(s, tick))[i]).scheduled_tick <= tick,
        forall|i: int|
            0 <= i < s.len() - due_count(s, tick) ==> (#[trigger] s.skip(due_count(s, tick))[i]).scheduled_tick > tick,
{
    lemma_due_prefix(s, tick);
    let k = due_count(s, tick);
    assert forall|i: int| 0 <= i < k implies (#[trigger] s.take(k)[i]).scheduled_tick <= tick by {
        assert(s.take(k)[i] == s[i]);
    }
    assert forall|i: int| 0 <= i < s.len() - k implies (#[trigger] s.skip(k)[i]).scheduled_tick > tick by {
        assert(s.skip(k)[i] == s[k + i]);
    }
}

} // verus!
