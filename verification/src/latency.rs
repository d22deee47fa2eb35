//! Why messages and operations take as long as they are configured to.

use crate::config::duration_draw;
use crate::connections::{asleep, sleep_end};
use crate::events::{ConnectionStateChange, EventView, ScheduledView, lemma_scheduled_holds};
use crate::random::{RandomProvider, range_or_start_draw};
use crate::state::{ConnectionId, IpAddr, connection_partitioned};
use crate::stream::{ConnectOutcome, accept_polled, bound, connect_attempted, connect_fault, connected};
use crate::time::{DurationRange, MAX_NANOS};
use crate::world::{
    WorldView, arrival_time, bytes_sent, data_sent, event_handled, event_scheduled, message_sent,
    message_taken, remainder_kept, send_processed, stepped, travel_delay,
};
use vstd::prelude::*;

verus! {

/// Whether a range of spans can be drawn from: its bounds are numbers of nanoseconds
/// that fit in 64 bits.
pub open spec fn drawable(r: DurationRange) -> bool {
    r.start@ <= u64::MAX && r.end@ <= u64::MAX
}

/// The longest span that can be drawn from a range, or a bound on it.
pub open spec fn longest(r: DurationRange) -> nat {
    if r.start@ <= r.end@ {
        r.end@
    } else {
        r.start@
    }
}

/// The least of a delay that is a connection's own, or else drawn from a range.
pub open spec fn least_delay(own: Option<nat>, r: DurationRange) -> nat {
    match own {
        Some(d) => d,
        None => r.start@,
    }
}

/// The most of a delay that is a connection's own, or else drawn from a range.
pub open spec fn most_delay(own: Option<nat>, r: DurationRange) -> nat {
    match own {
        Some(d) => d,
        None => longest(r),
    }
}

/// Whether an event was scheduled, and after that perhaps one more at the same place.
pub open spec fn is_queued(q: Seq<ScheduledView>, time: nat, event: EventView) -> bool {
    exists|i: int| 0 <= i < q.len() && (#[trigger] q[i]).time == time && q[i].event == event
}

/// A drawn span lies within its range: not below the start and, where the range is not
/// empty, below the end. An empty range gives its start.
pub proof fn lemma_drawn_span_is_in_range<R: RandomProvider>(rng: R, r: DurationRange)
    requires
        drawable(r),
    ensures
        r.start@ <= duration_draw(rng, r).0 <= longest(r),
        r.start@ < r.end@ ==> duration_draw(rng, r).0 < r.end@,
        r.start@ >= r.end@ ==> duration_draw(rng, r) == (r.start@ as u64, rng),
{
    rng.lemma_draws(r.start@ as u64, r.end@ as u64);
}

/// A number that is drawn from a range, or its start where it is empty, lies in it.
pub proof fn lemma_drawn_number_is_in_range<R: RandomProvider>(rng: R, start: u64, end: u64)
    ensures
        start < end ==> start <= range_or_start_draw(rng, start, end).0 < end,
        start >= end ==> range_or_start_draw(rng, start, end) == (start, rng),
{
    rng.lemma_draws(start, end);
}

/// An event that was scheduled is queued with its time, and what was queued still is.
pub proof fn lemma_event_is_queued<R>(w: WorldView<R>, time: nat, event: EventView)
    ensures
        is_queued(event_scheduled(w, time, event).queue, time, event),
        event_scheduled(w, time, event).queue.len() == w.queue.len() + 1,
        forall|t: nat, e: EventView|
            is_queued(w.queue, t, e) ==> is_queued(event_scheduled(w, time, event).queue, t, e),
        event_scheduled(w, time, event).net == w.net,
        event_scheduled(w, time, event).now == w.now,
{
    let s = ScheduledView { time, event, sequence: w.next_sequence };
    let q = event_scheduled(w, time, event).queue;
    lemma_scheduled_holds(w.queue, s);
    let i = choose|i: int| 0 <= i < q.len() && q[i] == s;
    assert(q[i].time == time && q[i].event == event);
    assert forall|t: nat, e: EventView| is_queued(w.queue, t, e) implies is_queued(q, t, e) by {
        let j = choose|j: int|
            0 <= j < w.queue.len() && (#[trigger] w.queue[j]).time == t && w.queue[j].event == e;
        assert(w.queue.contains(w.queue[j]));
        assert(q.contains(w.queue[j]));
        let k = choose|k: int| 0 <= k < q.len() && q[k] == w.queue[j];
        assert(q[k].time == t && q[k].event == e);
    }
}

/// How many bytes of its first message a sender kept back.
pub open spec fn kept_bytes(before: Seq<Seq<u8>>, after: Seq<Seq<u8>>) -> nat {
    if after.len() == before.len() {
        after[0].len()
    } else {
        0
    }
}

/// The first message of a connection that can send leaves for the other end, or a part of
/// it from its start, and arrives after the delays of both ends: at the sending end a
/// nanosecond where more is to be sent, else the connection's own delay, else the configured
/// write latency; at the receiving end that connection's own delay, else the configured
/// read latency. It arrives no earlier than that, and later only behind what was sent
/// before. What is not sent is kept and comes next.
pub proof fn lemma_messages_take_their_latency<R: RandomProvider>(w: WorldView<R>, id: u64, to: u64)
    requires
        w.net.connections.contains_key(id),
        w.net.connections[id].send_buffer.len() > 0,
        w.net.connections[id].paired_connection == Some(ConnectionId(to)),
        w.net.connections.contains_key(to),
        to != id,
        !connection_partitioned(w.net, id, w.now),
        drawable(w.net.config.write_latency),
        drawable(w.net.config.read_latency),
        w.now <= MAX_NANOS,
    ensures
        ({
            let c = w.net.connections[id];
            let v = event_handled(w, EventView::ProcessSendBuffer { connection_id: id });
            let d = v.net.connections[id];
            let message = c.send_buffer[0];
            let others = c.send_buffer.skip(1);
            let sent = message.len() - kept_bytes(c.send_buffer, d.send_buffer);
            let here = w.net.connections[to].recv_delay;
            let last = d.send_buffer.len() == 0;
            let least = w.now + (if last {
                least_delay(c.send_delay, w.net.config.write_latency)
            } else {
                1
            }) + least_delay(here, w.net.config.read_latency);
            let most = w.now + (if last {
                most_delay(c.send_delay, w.net.config.write_latency)
            } else {
                1
            }) + most_delay(here, w.net.config.read_latency);
            &&& 0 <= sent <= message.len()
            &&& d.send_buffer == others || d.send_buffer == seq![message.skip(sent)] + others
            &&& exists|t: nat| #[trigger]
                is_queued(
                    v.queue,
                    t,
                    EventView::DataDelivery { connection_id: to, data: message.take(sent) },
                ) && t <= MAX_NANOS && (t >= least || t == MAX_NANOS) && (t >= c.next_send_time || t
                    == MAX_NANOS) && (t <= most || t <= c.next_send_time)
            &&& !last ==> is_queued(
                v.queue,
                w.now,
                EventView::ProcessSendBuffer { connection_id: id },
            )
            &&& v.now == w.now
        }),
{
    let c = w.net.connections[id];
    let v = send_processed(w, id);
    let message = c.send_buffer[0];
    let others = c.send_buffer.skip(1);
    assert(c.send_buffer.drop_first() =~= others);
    let w0 = message_taken(w, id);
    let (n, w1) = bytes_sent(w0, message.len());
    assert(w1.net == w0.net && w1.queue == w.queue && w1.now == w.now);
    let w2 = remainder_kept(w1, id, message, n);
    let c2 = w2.net.connections[id];
    assert(n <= message.len());
    let (delay, w3) = travel_delay(w2, id);
    let (there, w2a) = crate::world::send_delay(w2, id);
    lemma_drawn_span_is_in_range(w2.rng, w.net.config.write_latency);
    lemma_drawn_span_is_in_range(w2a.rng, w.net.config.read_latency);
    assert(w2.net.connections[to] == w.net.connections[to]);
    let t = arrival_time(w3, id, delay);
    let data = message.take(n as int);
    let event = EventView::DataDelivery { connection_id: to, data };
    let w4 = data_sent(w3, id, t, data);
    let w3a = crate::world::conn_updated(
        w3,
        id,
        crate::state::ConnView {
            next_send_time: crate::time::plus_nanos(t, 1),
            ..w3.net.connections[id]
        },
    );
    assert(w4 == event_scheduled(w3a, t, event));
    lemma_event_is_queued(w3a, t, event);
    if w4.net.connections[id].send_buffer.len() > 0 {
        lemma_event_is_queued(w4, w.now, EventView::ProcessSendBuffer { connection_id: id });
    }
    assert(v == crate::world::sender_continued(w4, id));
    assert(v.net.connections[id].send_buffer == c2.send_buffer);
    if n < message.len() {
        assert(c2.send_buffer == seq![message.skip(n as int)] + others);
        assert(c2.send_buffer.len() == others.len() + 1);
        assert(c2.send_buffer[0] == message.skip(n as int));
    } else {
        assert(c2.send_buffer == others);
    }
    let d = v.net.connections[id];
    let sent = message.len() - kept_bytes(c.send_buffer, d.send_buffer);
    assert(sent == n);
    let last = d.send_buffer.len() == 0;
    let here = w.net.connections[to].recv_delay;
    let least = w.now + (if last {
        least_delay(c.send_delay, w.net.config.write_latency)
    } else {
        1
    }) + least_delay(here, w.net.config.read_latency);
    let most = w.now + (if last {
        most_delay(c.send_delay, w.net.config.write_latency)
    } else {
        1
    }) + most_delay(here, w.net.config.read_latency);
    assert(t <= MAX_NANOS);
    assert(t >= least || t == MAX_NANOS);
    assert(t >= c.next_send_time || t == MAX_NANOS);
    assert(t <= most || t <= c.next_send_time);
    assert(v == event_handled(w, EventView::ProcessSendBuffer { connection_id: id }));
    assert(is_queued(
        v.queue,
        t,
        EventView::DataDelivery { connection_id: to, data: message.take(sent) },
    ));
    assert(d.send_buffer == others || d.send_buffer == seq![message.skip(sent)] + others);
    assert(!last ==> is_queued(v.queue, w.now, EventView::ProcessSendBuffer { connection_id: id }));
    assert(v.now == w.now);
}

/// Where no faults are injected a message is sent whole.
pub proof fn lemma_messages_are_sent_whole<R: RandomProvider>(w: WorldView<R>, id: u64)
    requires
        w.net.connections.contains_key(id),
        w.net.connections[id].send_buffer.len() > 0,
        !connection_partitioned(w.net, id, w.now),
        !w.buggify.enabled,
    ensures
        event_handled(
            w,
            EventView::ProcessSendBuffer { connection_id: id },
        ).net.connections[id].send_buffer == w.net.connections[id].send_buffer.skip(1),
{
    let c = w.net.connections[id];
    assert(c.send_buffer.drop_first() =~= c.send_buffer.skip(1));
    assert(event_handled(w, EventView::ProcessSendBuffer { connection_id: id }) == message_sent(
        w,
        id,
    ));
}

/// When the only message that a connection holds is sent, it arrives no earlier than the
/// configured write latency after it was sent, where the connection has no delay of its own;
/// and where nothing is on its way before it, no later than the longest latencies of both ends.
pub proof fn lemma_only_message_takes_write_latency<R: RandomProvider>(
    w: WorldView<R>,
    id: u64,
    to: u64,
)
    requires
        w.net.connections.contains_key(id),
        w.net.connections[id].send_buffer.len() == 1,
        w.net.connections[id].send_delay is None,
        w.net.connections[id].paired_connection == Some(ConnectionId(to)),
        w.net.connections.contains_key(to),
        w.net.connections[to].recv_delay is None,
        to != id,
        !connection_partitioned(w.net, id, w.now),
        drawable(w.net.config.write_latency),
        drawable(w.net.config.read_latency),
        w.now + longest(w.net.config.write_latency) + longest(w.net.config.read_latency)
            < MAX_NANOS,
        event_handled(
            w,
            EventView::ProcessSendBuffer { connection_id: id },
        ).net.connections[id].send_buffer.len() == 0,
    ensures
        exists|t: nat| #[trigger]
            is_queued(
                event_handled(w, EventView::ProcessSendBuffer { connection_id: id }).queue,
                t,
                EventView::DataDelivery {
                    connection_id: to,
                    data: w.net.connections[id].send_buffer[0],
                },
            ) && t >= w.now + w.net.config.write_latency.start@
                + w.net.config.read_latency.start@ && (w.net.connections[id].next_send_time <= w.now
                ==> t <= w.now + longest(w.net.config.write_latency) + longest(
                w.net.config.read_latency,
            )),
{
    let c = w.net.connections[id];
    let v = event_handled(w, EventView::ProcessSendBuffer { connection_id: id });
    let message = c.send_buffer[0];
    lemma_messages_take_their_latency(w, id, to);
    assert(v.net.connections[id].send_buffer =~= c.send_buffer.skip(1));
    assert(message.take(message.len() as int) =~= message);
    let event = EventView::DataDelivery { connection_id: to, data: message };
    let least = w.now + w.net.config.write_latency.start@ + w.net.config.read_latency.start@;
    let most = w.now + longest(w.net.config.write_latency) + longest(w.net.config.read_latency);
    let t = choose|t: nat| #[trigger]
        is_queued(v.queue, t, event) && t <= MAX_NANOS && (t >= least || t == MAX_NANOS) && (t
            >= c.next_send_time || t == MAX_NANOS) && (t <= most || t <= c.next_send_time);
    assert(is_queued(v.queue, t, event));
}

/// What is delivered has arrived at the time of its event, and a task that reads it is
/// woken; where no faults are injected it is what was sent.
pub proof fn lemma_delivery_arrives<R: RandomProvider>(w: WorldView<R>, id: u64, data: Seq<u8>)
    requires
        w.net.connections.contains_key(id),
    ensures
        ({
            let v = event_handled(w, EventView::DataDelivery { connection_id: id, data });
            let before = w.net.connections[id].receive_buffer;
            let after = v.net.connections[id].receive_buffer;
            &&& after.len() == before.len() + data.len()
            &&& after.take(before.len() as int) == before
            &&& !w.buggify.enabled ==> after == before + data
            &&& w.wakers.read_wakers.contains_key(id) ==> v.woken == w.woken.push(
                w.wakers.read_wakers[id],
            ) && !v.wakers.read_wakers.contains_key(id)
            &&& !w.wakers.read_wakers.contains_key(id) ==> v.woken == w.woken
            &&& forall|other: u64|
                other != id ==> #[trigger] v.net.connections[other] == w.net.connections[other]
        }),
{
    let v = event_handled(w, EventView::DataDelivery { connection_id: id, data });
    let before = w.net.connections[id].receive_buffer;
    let (arrived, w1) = crate::world::corrupted(w, data);
    crate::fault_laws::lemma_corruption_keeps_length(w, data);
    assert(v.net.connections[id].receive_buffer == before + arrived);
    assert((before + arrived).take(before.len() as int) =~= before);
    if w.wakers.read_wakers.contains_key(id) {
        assert(v.woken =~= w.woken.push(w.wakers.read_wakers[id]));
    } else {
        assert(v.woken =~= w.woken);
    }
}

/// A task that goes to sleep is to be woken no earlier than it wanted, and no later than
/// the longest extra delay allows, and the timer goes off then.
pub proof fn lemma_sleepers_are_woken<R: RandomProvider>(w: WorldView<R>, duration: nat)
    requires
        w.now <= MAX_NANOS,
    ensures
        ({
            let v = asleep(w, duration);
            let chaos = w.net.config.chaos;
            let extra = if chaos.buggified_delay_enabled {
                chaos.buggified_delay_max@
            } else {
                0
            };
            exists|t: nat| #[trigger]
                is_queued(v.queue, t, EventView::Timer { task_id: w.next_task_id }) && t
                    <= MAX_NANOS && (t >= w.now + duration || t == MAX_NANOS) && t <= w.now
                    + duration + extra
        }),
        asleep(w, duration).now == w.now,
        asleep(w, duration).net == w.net,
{
    crate::connections::lemma_sleep_bounds(w, duration);
    let w1 = WorldView {
        next_task_id: crate::counts::next_count(w.next_task_id),
        rng: crate::connections::extra_delay(w.net.config.chaos, w.rng).1,
        ..w
    };
    let t = sleep_end(w, duration);
    let event = EventView::Timer { task_id: w.next_task_id };
    lemma_event_is_queued(w1, t, event);
    assert(is_queued(asleep(w, duration).queue, t, event));
}

/// A timer that goes off wakes the task that waits for it, which is awake from then on, and
/// no other.
pub proof fn lemma_timers_wake<R: RandomProvider>(w: WorldView<R>, task_id: u64, other: u64)
    ensures
        ({
            let v = event_handled(w, EventView::Timer { task_id });
            &&& v.awakened.contains(task_id)
            &&& other != task_id ==> v.awakened.contains(other) == w.awakened.contains(other)
            &&& w.wakers.task_wakers.contains_key(task_id) ==> v.woken == w.woken.push(
                w.wakers.task_wakers[task_id],
            )
            &&& !w.wakers.task_wakers.contains_key(task_id) ==> v.woken == w.woken
            &&& v.net == w.net
            &&& v.queue == w.queue
        }),
{
    let v = event_handled(w, EventView::Timer { task_id });
    if w.wakers.task_wakers.contains_key(task_id) {
        assert(v.woken =~= w.woken.push(w.wakers.task_wakers[task_id]));
    } else {
        assert(v.woken =~= w.woken);
    }
}

/// Each step of a world takes the event that is due first out of the queue, moves the time
/// to it, counts it, and lets it do what it is for in the world without expired clogs.
pub proof fn lemma_step_takes_the_first_event<R: RandomProvider>(w: WorldView<R>)
    requires
        w.queue.len() > 0,
        w.events_processed < u64::MAX,
        w.net.config.chaos.partition_probability == 0,
    ensures
        stepped(w).now == w.queue[0].time,
        stepped(w).events_processed == w.events_processed + 1,
        ({
            let cleared = crate::world::clogs_cleared(
                (WorldView { now: w.queue[0].time, queue: w.queue.drop_first(), ..w }),
            );
            &&& stepped(w) == event_handled(
                (WorldView { events_processed: (w.events_processed + 1) as u64, ..cleared }),
                w.queue[0].event,
            )
            &&& cleared.net.connections == w.net.connections
            &&& forall|id: u64| #[trigger]
                cleared.net.connection_clogs.contains_key(id)
                    <==> w.net.connection_clogs.contains_key(id) && w.queue[0].time
                    < w.net.connection_clogs[id]
        }),
{
    let cleared = crate::world::clogs_cleared(
        (WorldView { now: w.queue[0].time, queue: w.queue.drop_first(), ..w }),
    );
    lemma_handling_keeps_time(
        (WorldView { events_processed: (w.events_processed + 1) as u64, ..cleared }),
        w.queue[0].event,
    );
}

proof fn lemma_handling_keeps_time<R: RandomProvider>(w: WorldView<R>, event: EventView)
    ensures
        event_handled(w, event).now == w.now,
        event_handled(w, event).events_processed == w.events_processed,
{
}

/// Binding, accepting and connecting take as long as they are configured to.
pub proof fn lemma_operations_take_their_latency<R: RandomProvider>(
    w: WorldView<R>,
    addr: Seq<char>,
    server_ip: Option<IpAddr>,
    token: u64,
)
    requires
        w.now <= MAX_NANOS,
        drawable(w.net.config.bind_latency),
        drawable(w.net.config.accept_latency),
        drawable(w.net.config.connect_latency),
        w.net.next_connection_id <= u64::MAX - 2,
    ensures
        happens_within(
            bound(w, addr).queue,
            EventView::Connection {
                id: w.net.next_listener_id,
                state: ConnectionStateChange::BindComplete,
            },
            w.now,
            w.net.config.bind_latency,
        ),
        accept_polled(w, addr, token).0 matches Some(id) ==> happens_within(
            accept_polled(w, addr, token).1.queue,
            EventView::Connection { id: id.0, state: ConnectionStateChange::ConnectionReady },
            w.now,
            w.net.config.accept_latency,
        ),
        connect_attempted(w, addr, server_ip).0 matches ConnectOutcome::Connected(id)
            ==> happens_within(
            connect_attempted(w, addr, server_ip).1.queue,
            EventView::Connection { id: id.0, state: ConnectionStateChange::ConnectionReady },
            w.now,
            w.net.config.connect_latency,
        ),
{
    let (nanos, rng) = duration_draw(w.rng, w.net.config.bind_latency);
    lemma_drawn_span_is_in_range(w.rng, w.net.config.bind_latency);
    let w1 = crate::connections::listener_created(WorldView { rng, ..w }, addr);
    let event = EventView::Connection {
        id: w.net.next_listener_id,
        state: ConnectionStateChange::BindComplete,
    };
    let t = crate::time::plus_nanos(w.now, nanos as nat);
    lemma_event_is_queued(w1, t, event);
    assert(is_queued(bound(w, addr).queue, t, event));
    if let Some(id) = accept_polled(w, addr, token).0 {
        let (nanos, rng) = duration_draw(w.rng, w.net.config.accept_latency);
        lemma_drawn_span_is_in_range(w.rng, w.net.config.accept_latency);
        let event = EventView::Connection {
            id: id.0,
            state: ConnectionStateChange::ConnectionReady,
        };
        let t = crate::time::plus_nanos(w.now, nanos as nat);
        let w1 = WorldView {
            rng,
            net: crate::state::NetView {
                pending_connections: w.net.pending_connections.remove(addr),
                ..w.net
            },
            ..w
        };
        lemma_event_is_queued(w1, t, event);
        assert(is_queued(accept_polled(w, addr, token).1.queue, t, event));
    }
    if let ConnectOutcome::Connected(id) = connect_attempted(w, addr, server_ip).0 {
        let (fault, w1) = connect_fault(w);
        if fault is None {
            let (nanos, rng) = duration_draw(w1.rng, w.net.config.connect_latency);
            lemma_drawn_span_is_in_range(w1.rng, w.net.config.connect_latency);
            let t = crate::time::plus_nanos(w.now, nanos as nat);
            let event = EventView::Connection {
                id: id.0,
                state: ConnectionStateChange::ConnectionReady,
            };
            let w2 = crate::connections::pending_stored(
                crate::connections::pair_created(
                    WorldView { rng, ..w1 },
                    "client-addr"@,
                    addr,
                    None,
                    server_ip,
                ),
                addr,
                crate::connections::listener_key_of(addr),
                (w.net.next_connection_id + 1) as u64,
            );
            lemma_event_is_queued(w2, t, event);
            assert(connected(w1, addr, server_ip) == event_scheduled(w2, t, event));
            assert(is_queued(connect_attempted(w, addr, server_ip).1.queue, t, event));
        }
    }
}

/// Whether an event is queued for a time that lies within a range of spans from now.
pub open spec fn happens_within(
    q: Seq<ScheduledView>,
    event: EventView,
    now: nat,
    r: DurationRange,
) -> bool {
    exists|t: nat| #[trigger]
        is_queued(q, t, event) && t <= MAX_NANOS && (t >= now + r.start@ || t == MAX_NANOS) && t
            <= now + longest(r)
}

} // verus!
