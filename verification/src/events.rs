//! Events of the simulation and the queue that orders them.

use crate::time::Duration;
use std::cmp::Ordering;
use std::collections::VecDeque;
use vstd::prelude::*;

verus! {

/// Network data operations.
#[derive(Debug, Clone, PartialEq, Eq)]
pub enum NetworkOperation {
    /// Deliver data to the receive buffer of a connection.
    DataDelivery {
        /// The bytes to deliver.
        data: Vec<u8>,
    },
    /// Process the next message of a connection's send buffer.
    ProcessSendBuffer,
}

/// Connection state changes.
#[derive(Debug, Clone, Copy, PartialEq, Eq, Structural)]
pub enum ConnectionStateChange {
    /// A listener finished binding.
    BindComplete,
    /// A connection was established.
    ConnectionReady,
    /// Clear the write clog of a connection.
    ClogClear,
    /// Clear the read clog of a connection.
    ReadClogClear,
    /// Restore expired partitions between pairs of addresses.
    PartitionRestore,
    /// Clear expired send partitions.
    SendPartitionClear,
    /// Clear expired receive partitions.
    RecvPartitionClear,
    /// Restore a connection that was cut for a time.
    CutRestore,
}

/// Events that can be scheduled in the simulation.
#[derive(Debug, Clone, PartialEq, Eq)]
pub enum Event {
    /// Wakes a sleeping task.
    Timer {
        /// The task to wake.
        task_id: u64,
    },
    /// Network data operations.
    Network {
        /// The connection involved.
        connection_id: u64,
        /// What to do.
        operation: NetworkOperation,
    },
    /// Connection state changes.
    Connection {
        /// The connection or listener.
        id: u64,
        /// What changes.
        state: ConnectionStateChange,
    },
    /// Wakes all tasks for a graceful end of the simulation.
    Shutdown,
}

/// What an [`Event`] says, with its data as a sequence of bytes.
pub ghost enum EventView {
    Timer { task_id: u64 },
    DataDelivery { connection_id: u64, data: Seq<u8> },
    ProcessSendBuffer { connection_id: u64 },
    Connection { id: u64, state: ConnectionStateChange },
    Shutdown,
}

impl View for Event {
    type V = EventView;

    open spec fn view(&self) -> EventView {
        match *self {
            Event::Timer { task_id } => EventView::Timer { task_id },
            Event::Network { connection_id, operation } => match operation {
                NetworkOperation::DataDelivery { data } => EventView::DataDelivery {
                    connection_id,
                    data: data@,
                },
                NetworkOperation::ProcessSendBuffer => EventView::ProcessSendBuffer {
                    connection_id,
                },
            },
            Event::Connection { id, state } => EventView::Connection { id, state },
            Event::Shutdown => EventView::Shutdown,
        }
    }
}

/// Whether an event only maintains the state of the network.
pub open spec fn is_infrastructure(e: EventView) -> bool {
    e matches EventView::Connection { state, .. } && (state == ConnectionStateChange::PartitionRestore
        || state == ConnectionStateChange::SendPartitionClear || state
        == ConnectionStateChange::RecvPartitionClear)
}

impl Event {
    /// Whether this event only maintains simulation state and stands for no
    /// application work. Such events can be ignored when deciding whether a
    /// simulation is over.
    pub fn is_infrastructure_event(&self) -> (b: bool)
        ensures
            b == is_infrastructure(self@),
    {
        match self {
            Event::Connection { state, .. } => match state {
                ConnectionStateChange::PartitionRestore => true,
                ConnectionStateChange::SendPartitionClear => true,
                ConnectionStateChange::RecvPartitionClear => true,
                _ => false,
            },
            _ => false,
        }
    }
}

/// An event scheduled for execution at a simulation time.
#[derive(Debug, Clone, PartialEq, Eq)]
pub struct ScheduledEvent {
    time: Duration,
    event: Event,
    sequence: u64,
}

/// What a [`ScheduledEvent`] says.
pub ghost struct ScheduledView {
    pub time: nat,
    pub event: EventView,
    pub sequence: u64,
}

impl View for ScheduledEvent {
    type V = ScheduledView;

    closed spec fn view(&self) -> ScheduledView {
        ScheduledView { time: self.time@, event: self.event@, sequence: self.sequence }
    }
}

/// Whether `a` is due strictly after `b`: at a later time, or at the same time
/// with a later sequence number.
pub open spec fn due_after(a: ScheduledView, b: ScheduledView) -> bool {
    a.time > b.time || (a.time == b.time && a.sequence > b.sequence)
}

impl ScheduledEvent {
    /// Creates a scheduled event.
    pub fn new(time: Duration, event: Event, sequence: u64) -> (s: Self)
        ensures
            s@ == (ScheduledView { time: time@, event: event@, sequence }),
    {
        ScheduledEvent { time, event, sequence }
    }

    /// The scheduled execution time.
    pub fn time(&self) -> (t: Duration)
        ensures
            t@ == self@.time,
    {
        self.time
    }

    /// The event.
    pub fn event(&self) -> (e: &Event)
        ensures
            e@ == self@.event,
    {
        &self.event
    }

    /// The number that orders events scheduled for the same time.
    pub fn sequence(&self) -> (n: u64)
        ensures
            n == self@.sequence,
    {
        self.sequence
    }

    /// Consumes the scheduled event and returns the event.
    pub fn into_event(self) -> (e: Event)
        ensures
            e@ == self@.event,
    {
        self.event
    }

    /// Whether this event is due strictly after `other`.
    pub fn is_due_after(&self, other: &ScheduledEvent) -> (b: bool)
        ensures
            b == due_after(self@, other@),
    {
        other.time.lt(&self.time) || (other.time.le(&self.time) && self.time.le(&other.time)
            && self.sequence > other.sequence)
    }
}

/// Scheduled events compare in the reverse of the order in which they are due,
/// so that the greatest is the next one.
impl PartialOrd for ScheduledEvent {
    fn partial_cmp(&self, other: &Self) -> (r: Option<Ordering>) {
        if self.is_due_after(other) {
            Some(Ordering::Less)
        } else if other.is_due_after(self) {
            Some(Ordering::Greater)
        } else {
            Some(Ordering::Equal)
        }
    }
}

impl vstd::std_specs::cmp::PartialOrdSpecImpl for ScheduledEvent {
    open spec fn obeys_partial_cmp_spec() -> bool {
        true
    }

    open spec fn partial_cmp_spec(&self, other: &Self) -> Option<Ordering> {
        if due_after(self@, other@) {
            Some(Ordering::Less)
        } else if due_after(other@, self@) {
            Some(Ordering::Greater)
        } else {
            Some(Ordering::Equal)
        }
    }
}

/// A priority queue of events in chronological order.
///
/// The view of the queue is the sequence of its events in the order in which
/// they will be taken out.
#[derive(Debug)]
pub struct EventQueue {
    events: VecDeque<ScheduledEvent>,
}

/// No event of the sequence is due after a later one.
pub open spec fn in_order(s: Seq<ScheduledView>) -> bool {
    forall|i: int, j: int| 0 <= i < j < s.len() ==> !due_after(#[trigger] s[i], #[trigger] s[j])
}

/// Where a new event goes: behind every event that is not due after it.
pub open spec fn slot_for(s: Seq<ScheduledView>, e: ScheduledView) -> int
    decreases s.len(),
{
    if s.len() == 0 || !due_after(s.last(), e) {
        s.len() as int
    } else {
        slot_for(s.drop_last(), e)
    }
}

/// The queue after scheduling `e`.
pub open spec fn scheduled(s: Seq<ScheduledView>, e: ScheduledView) -> Seq<ScheduledView> {
    s.insert(slot_for(s, e), e)
}

/// Whether only infrastructure events are queued.
pub open spec fn only_infrastructure(s: Seq<ScheduledView>) -> bool {
    forall|i: int| 0 <= i < s.len() ==> is_infrastructure((#[trigger] s[i]).event)
}

impl View for EventQueue {
    type V = Seq<ScheduledView>;

    closed spec fn view(&self) -> Seq<ScheduledView> {
        Seq::new(self.events@.len(), |i: int| self.events@[i]@)
    }
}

/// No event of the sequence is due before `e`.
pub open spec fn none_before(e: ScheduledView, s: Seq<ScheduledView>) -> bool {
    forall|i: int| 0 <= i < s.len() ==> !due_after(e, #[trigger] s[i])
}

impl EventQueue {
    /// The events are in the order in which they are due.
    pub closed spec fn wf(&self) -> bool {
        in_order(self@)
    }

    /// A queue is well formed if and only if its events are in order.
    pub proof fn lemma_wf(&self)
        ensures
            self.wf() == in_order(self@),
    {
    }

    /// Creates an empty queue.
    pub fn new() -> (q: Self)
        ensures
            q.wf(),
            q@ == Seq::<ScheduledView>::empty(),
    {
        EventQueue { events: VecDeque::new() }
    }

    /// Schedules an event for execution.
    pub fn schedule(&mut self, event: ScheduledEvent)
        requires
            old(self).wf(),
        ensures
            final(self).wf(),
            final(self)@ == scheduled(old(self)@, event@),
    {
        let mut slot: usize = self.events.len();
        assert(self@.take(slot as int) =~= self@);
        while slot > 0 && self.events[slot - 1].is_due_after(&event)
            invariant
                slot <= self.events@.len(),
                slot_for(self@, event@) == slot_for(self@.take(slot as int), event@),
            decreases slot,
        {
            proof {
                let s = self@.take(slot as int);
                assert(s.last() == self.events@[slot - 1]@);
                assert(s.drop_last() =~= self@.take(slot - 1));
            }
            slot -= 1;
        }
        proof {
            let s = self@.take(slot as int);
            assert(s.len() == slot);
            if slot > 0 {
                assert(s.last() == self.events@[slot - 1]@);
            }
            assert(slot_for(s, event@) == slot);
        }
        let ghost before = self@;
        let ghost e = event@;
        self.events.insert(slot, event);
        assert(self@ =~= before.insert(slot as int, e));
        proof {
            lemma_schedule_keeps_order(before, e);
        }
    }

    /// Removes and returns the earliest scheduled event.
    pub fn pop_earliest(&mut self) -> (r: Option<ScheduledEvent>)
        requires
            old(self).wf(),
        ensures
            final(self).wf(),
            match r {
                Some(e) => old(self)@.len() > 0 && e@ == old(self)@[0] && none_before(
                    e@,
                    old(self)@,
                ) && final(self)@ == old(self)@.drop_first(),
                None => old(self)@.len() == 0 && final(self)@ == old(self)@,
            },
    {
        let ghost before = self@;
        let r = self.events.pop_front();
        proof {
            if r.is_some() {
                assert(self@ =~= before.drop_first());
                lemma_earliest_first(before);
            } else {
                assert(self@ =~= before);
            }
        }
        r
    }

    /// Returns the earliest scheduled event without removing it.
    pub fn peek_earliest(&self) -> (r: Option<&ScheduledEvent>)
        requires
            self.wf(),
        ensures
            match r {
                Some(e) => self@.len() > 0 && e@ == self@[0] && none_before(e@, self@),
                None => self@.len() == 0,
            },
    {
        if self.events.len() == 0 {
            None
        } else {
            proof {
                lemma_earliest_first(self@);
            }
            Some(&self.events[0])
        }
    }

    /// Whether the queue is empty.
    pub fn is_empty(&self) -> (b: bool)
        ensures
            b == (self@.len() == 0),
    {
        self.events.len() == 0
    }

    /// The number of events in the queue.
    pub fn len(&self) -> (n: usize)
        ensures
            n == self@.len(),
    {
        self.events.len()
    }

    /// Whether the queue holds only infrastructure events, or none.
    pub fn has_only_infrastructure_events(&self) -> (b: bool)
        ensures
            b == only_infrastructure(self@),
    {
        let mut i: usize = 0;
        while i < self.events.len()
            invariant
                i <= self.events@.len(),
                forall|j: int| 0 <= j < i ==> is_infrastructure((#[trigger] self@[j]).event),
            decreases self.events@.len() - i,
        {
            if !self.events[i].event().is_infrastructure_event() {
                assert(!is_infrastructure(self@[i as int].event));
                return false;
            }
            i += 1;
        }
        true
    }
}

impl Default for EventQueue {
    fn default() -> (q: Self)
        ensures
            q.wf(),
            q@ == Seq::<ScheduledView>::empty(),
    {
        EventQueue::new()
    }
}

/// A new event goes behind the events that are not due after it and before those that
/// are.
pub proof fn lemma_slot_for(s: Seq<ScheduledView>, e: ScheduledView)
    requires
        in_order(s),
    ensures
        0 <= slot_for(s, e) <= s.len(),
        forall|i: int| 0 <= i < slot_for(s, e) ==> !due_after(#[trigger] s[i], e),
        forall|i: int| slot_for(s, e) <= i < s.len() ==> due_after(#[trigger] s[i], e),
    decreases s.len(),
{
    if s.len() > 0 {
        let t = s.drop_last();
        if due_after(s.last(), e) {
            assert(in_order(t)) by {
                assert forall|i: int, j: int| 0 <= i < j < t.len() implies !due_after(
                    #[trigger] t[i],
                    #[trigger] t[j],
                ) by {
                    assert(!due_after(s[i], s[j]));
                }
            }
            lemma_slot_for(t, e);
            assert forall|i: int| 0 <= i < slot_for(s, e) implies !due_after(#[trigger] s[i], e) by {
                assert(t[i] == s[i]);
            }
            assert forall|i: int| slot_for(s, e) <= i < s.len() implies due_after(
                #[trigger] s[i],
                e,
            ) by {
                if i < t.len() {
                    assert(t[i] == s[i]);
                }
            }
        } else {
            assert forall|i: int| 0 <= i < s.len() implies !due_after(#[trigger] s[i], e) by {
                if i < s.len() - 1 {
                    assert(!due_after(s[i], s[s.len() - 1]));
                }
            }
        }
    }
}

/// Scheduling keeps the queue in order and adds exactly the one event.
pub proof fn lemma_schedule_keeps_order(s: Seq<ScheduledView>, e: ScheduledView)
    requires
        in_order(s),
    ensures
        in_order(scheduled(s, e)),
        scheduled(s, e).len() == s.len() + 1,
        scheduled(s, e).to_multiset() == s.to_multiset().insert(e),
{
    lemma_slot_for(s, e);
    let p = slot_for(s, e);
    let t = scheduled(s, e);
    assert forall|i: int, j: int| 0 <= i < j < t.len() implies !due_after(
        #[trigger] t[i],
        #[trigger] t[j],
    ) by {
        let a = if i < p { i } else { i - 1 };
        let b = if j < p { j } else { j - 1 };
        if i != p && j != p {
            assert(t[i] == s[a] && t[j] == s[b]);
            assert(!due_after(s[a], s[b]));
        } else if i == p {
            assert(t[j] == s[b]);
            assert(due_after(s[b], e));
        } else {
            assert(t[i] == s[a]);
            assert(!due_after(s[a], e));
        }
    }
    assert(t.to_multiset() =~= s.to_multiset().insert(e)) by {
        broadcast use vstd::seq_lib::group_to_multiset_ensures;
    }
}

/// The first event of an ordered queue is due no later than any other.
pub proof fn lemma_earliest_first(s: Seq<ScheduledView>)
    requires
        in_order(s),
        s.len() > 0,
    ensures
        forall|i: int| 0 <= i < s.len() ==> !due_after(s[0], #[trigger] s[i]),
        in_order(s.drop_first()),
{
    assert forall|i: int| 0 <= i < s.len() implies !due_after(s[0], #[trigger] s[i]) by {
        if i > 0 {
            assert(!due_after(s[0], s[i]));
        }
    }
    let t = s.drop_first();
    assert forall|i: int, j: int| 0 <= i < j < t.len() implies !due_after(
        #[trigger] t[i],
        #[trigger] t[j],
    ) by {
        assert(t[i] == s[i + 1] && t[j] == s[j + 1]);
    }
}

/// Two events that differ in time or sequence number come out in the same
/// order whichever of them was scheduled first.
pub proof fn lemma_schedule_order_irrelevant(
    s: Seq<ScheduledView>,
    a: ScheduledView,
    b: ScheduledView,
)
    requires
        in_order(s),
        a.time != b.time || a.sequence != b.sequence,
    ensures
        scheduled(scheduled(s, a), b) == scheduled(scheduled(s, b), a),
{
    if due_after(a, b) {
        lemma_schedule_order_of(s, b, a);
    } else {
        lemma_schedule_order_of(s, a, b);
    }
}

proof fn lemma_schedule_order_of(s: Seq<ScheduledView>, a: ScheduledView, b: ScheduledView)
    requires
        in_order(s),
        due_after(b, a),
    ensures
        scheduled(scheduled(s, a), b) == scheduled(scheduled(s, b), a),
{
    lemma_slot_for(s, a);
    lemma_slot_for(s, b);
    let pa = slot_for(s, a);
    let pb = slot_for(s, b);
    assert(pa <= pb) by {
        if pb < pa {
            assert(!due_after(s[pb], a));
            assert(due_after(s[pb], b));
        }
    }
    let sa = scheduled(s, a);
    let sb = scheduled(s, b);
    lemma_schedule_keeps_order(s, a);
    lemma_schedule_keeps_order(s, b);
    lemma_slot_for(sa, b);
    lemma_slot_for(sb, a);
    // Where `b` goes once `a` is queued.
    let qb = slot_for(sa, b);
    assert(qb == pb + 1) by {
        if qb <= pb {
            assert(sa[pb] == (if pb == pa { a } else { s[pb - 1] }));
            assert(due_after(sa[pb], b));
        }
        if qb > pb + 1 {
            assert(sa[pb + 1] == s[pb]);
            assert(!due_after(sa[pb + 1], b));
        }
    }
    // Where `a` goes once `b` is queued.
    let qa = slot_for(sb, a);
    assert(qa == pa) by {
        if qa < pa {
            assert(sb[qa] == s[qa]);
            assert(due_after(sb[qa], a));
        }
        if qa > pa {
            assert(sb[pa] == (if pa == pb { b } else { s[pa] }));
            assert(!due_after(sb[pa], a));
        }
    }
    assert(scheduled(sa, b) =~= scheduled(sb, a));
}

/// The queue after events were scheduled one after the other, from an empty one on.
pub open spec fn all_scheduled(events: Seq<ScheduledView>) -> Seq<ScheduledView>
    decreases events.len(),
{
    if events.len() == 0 {
        Seq::empty()
    } else {
        scheduled(all_scheduled(events.drop_last()), events.last())
    }
}

proof fn lemma_slot_in_range(s: Seq<ScheduledView>, e: ScheduledView)
    ensures
        0 <= slot_for(s, e) <= s.len(),
    decreases s.len(),
{
    if s.len() > 0 {
        lemma_slot_in_range(s.drop_last(), e);
    }
}

/// An event that was scheduled is in the queue, with all that were before, and nothing
/// else is.
pub proof fn lemma_scheduled_holds(q: Seq<ScheduledView>, e: ScheduledView)
    ensures
        scheduled(q, e).len() == q.len() + 1,
        scheduled(q, e).contains(e),
        forall|x: ScheduledView| #[trigger]
            scheduled(q, e).contains(x) <==> q.contains(x) || x == e,
{
    lemma_slot_in_range(q, e);
    let p = slot_for(q, e);
    let t = scheduled(q, e);
    assert(t[p] == e);
    assert forall|x: ScheduledView| #[trigger] t.contains(x) <==> q.contains(x) || x == e by {
        if t.contains(x) {
            let i = choose|i: int| 0 <= i < t.len() && t[i] == x;
            if i < p {
                assert(q[i] == x);
            } else if i > p {
                assert(q[i - 1] == x);
            }
        }
        if q.contains(x) {
            let i = choose|i: int| 0 <= i < q.len() && q[i] == x;
            if i < p {
                assert(t[i] == x);
            } else {
                assert(t[i + 1] == x);
            }
        }
    }
}

/// The queue after its first event was taken out `n` times.
pub open spec fn popped(q: Seq<ScheduledView>, n: nat) -> Seq<ScheduledView>
    decreases n,
{
    if n == 0 {
        q
    } else {
        popped(q, (n - 1) as nat).drop_first()
    }
}

/// No two events agree in time and sequence number.
pub open spec fn keys_apart(events: Seq<ScheduledView>) -> bool {
    forall|i: int, j: int|
        0 <= i < j < events.len() ==> (#[trigger] events[i]).time != (#[trigger] events[j]).time
            || events[i].sequence != events[j].sequence
}

proof fn lemma_popped(q: Seq<ScheduledView>, n: nat)
    requires
        n <= q.len(),
    ensures
        popped(q, n) == q.skip(n as int),
    decreases n,
{
    if n > 0 {
        lemma_popped(q, (n - 1) as nat);
        assert(q.skip(n - 1).drop_first() =~= q.skip(n as int));
    } else {
        assert(q.skip(0) =~= q);
    }
}

proof fn lemma_all_scheduled(events: Seq<ScheduledView>)
    ensures
        in_order(all_scheduled(events)),
        all_scheduled(events).len() == events.len(),
        all_scheduled(events).to_multiset() == events.to_multiset(),
        keys_apart(events) ==> keys_apart(all_scheduled(events)),
    decreases events.len(),
{
    broadcast use vstd::seq_lib::group_to_multiset_ensures;

    if events.len() == 0 {
        assert(events =~= Seq::<ScheduledView>::empty());
    } else {
        let before = events.drop_last();
        let e = events.last();
        let q = all_scheduled(before);
        lemma_all_scheduled(before);
        lemma_schedule_keeps_order(q, e);
        lemma_slot_for(q, e);
        assert(before.push(e) =~= events);
        if keys_apart(events) {
            assert forall|i: int, j: int| 0 <= i < j < before.len() implies (
            #[trigger] before[i]).time != (#[trigger] before[j]).time || before[i].sequence
                != before[j].sequence by {
                assert(before[i] == events[i] && before[j] == events[j]);
            }
            assert forall|k: int| 0 <= k < q.len() implies (#[trigger] q[k]).time != e.time
                || q[k].sequence != e.sequence by {
                assert(q.contains(q[k]));
                assert(before.to_multiset().count(q[k]) > 0);
                assert(before.contains(q[k]));
                let m = choose|m: int| 0 <= m < before.len() && before[m] == q[k];
                assert(events[m] == q[k]);
                assert(events[events.len() - 1] == e);
            }
            let p = slot_for(q, e);
            let t = scheduled(q, e);
            assert forall|i: int, j: int| 0 <= i < j < t.len() implies (#[trigger] t[i]).time != (
            #[trigger] t[j]).time || t[i].sequence != t[j].sequence by {
                let a = if i < p { i } else { i - 1 };
                let b = if j < p { j } else { j - 1 };
                if i == p {
                    assert(t[j] == q[b]);
                } else if j == p {
                    assert(t[i] == q[a]);
                } else {
                    assert(t[i] == q[a] && t[j] == q[b]);
                }
            }
        }
    }
}

/// Events come out in the order of their times and, at one time, of their sequence
/// numbers, in whatever order they were scheduled: as many as went in, just those that
/// went in, and then none.
pub proof fn lemma_events_come_out_in_order(events: Seq<ScheduledView>)
    requires
        keys_apart(events),
    ensures
        ({
            let q = all_scheduled(events);
            let out = Seq::new(events.len(), |i: int| popped(q, i as nat)[0]);
            &&& forall|i: int|
                0 <= i < events.len() ==> (#[trigger] popped(q, i as nat)).len() == events.len() - i
            &&& popped(q, events.len()) == Seq::<ScheduledView>::empty()
            &&& out.to_multiset() == events.to_multiset()
            &&& forall|i: int, j: int|
                0 <= i < j < out.len() ==> due_after(#[trigger] out[j], #[trigger] out[i])
        }),
{
    let q = all_scheduled(events);
    let out = Seq::new(events.len(), |i: int| popped(q, i as nat)[0]);
    lemma_all_scheduled(events);
    assert forall|i: int| 0 <= i < events.len() implies (#[trigger] popped(q, i as nat)).len()
        == events.len() - i && popped(q, i as nat)[0] == q[i] by {
        lemma_popped(q, i as nat);
    }
    assert(out =~= q);
    lemma_popped(q, events.len());
    assert(q.skip(events.len() as int) =~= Seq::<ScheduledView>::empty());
    assert forall|i: int, j: int| 0 <= i < j < out.len() implies due_after(
        #[trigger] out[j],
        #[trigger] out[i],
    ) by {
        assert(!due_after(q[i], q[j]));
        assert(q[i].time != q[j].time || q[i].sequence != q[j].sequence);
    }
}

} // verus!
