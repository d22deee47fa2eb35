//! Why bytes arrive in the order in which they were sent.
//!
//! What a sender has written and its receiver has not read yet is a stream: what the
//! receiver has received, then what is on its way in the order of its arrival, then
//! what the sender still holds. Writing appends to the stream, reading takes from its
//! front, and the world moves bytes along it without changing it.

use crate::config::{NetworkConfiguration, duration_draw};
use crate::connections::{at_most, bytes_read, clog_decided, message_buffered, pair_created};
use crate::events::{
    EventView, ScheduledView, due_after, in_order, lemma_earliest_first,
    lemma_schedule_keeps_order, lemma_slot_for, only_infrastructure, scheduled, slot_for,
};
use crate::random::{RandomProvider, ratio_below};
use crate::state::{
    CloseReason, ConnView, ConnectionId, NetView, connection_partitioned, partitioned,
};
use crate::stream::{StreamPoll, read_polled, write_polled};
use crate::time::plus_nanos;
use crate::world::{
    WorldView, arrival_time, bytes_sent, clogs_cleared, conn_updated, corrupted, data_sent,
    empty_world, event_processed, event_scheduled, message_sent, message_taken, partition_rolled,
    partitions_rolled, partitions_triggered, ran, remainder_kept,
    send_processed, sender_continued, sender_idle, stepped, travel_delay, within_span,
};
use crate::counts::next_count;
use vstd::prelude::*;

verus! {

/// Whether an event delivers data to a connection.
pub open spec fn is_for(e: ScheduledView, to: u64) -> bool {
    e.event matches EventView::DataDelivery { connection_id, .. } && connection_id == to
}

/// The bytes that an event delivers to a connection.
pub open spec fn arriving(e: ScheduledView, to: u64) -> Seq<u8> {
    match e.event {
        EventView::DataDelivery { connection_id, data } => if connection_id == to {
            data
        } else {
            Seq::empty()
        },
        _ => Seq::empty(),
    }
}

/// The bytes on their way to a connection, in the order of their arrival.
pub open spec fn on_the_way(q: Seq<ScheduledView>, to: u64) -> Seq<u8>
    decreases q.len(),
{
    if q.len() == 0 {
        Seq::empty()
    } else {
        on_the_way(q.drop_last(), to) + arriving(q.last(), to)
    }
}

/// The bytes of messages, one after the other.
pub open spec fn flat(messages: Seq<Seq<u8>>) -> Seq<u8>
    decreases messages.len(),
{
    if messages.len() == 0 {
        Seq::empty()
    } else {
        messages[0] + flat(messages.drop_first())
    }
}

/// What the connection `from` has written and the connection `to` has not read yet.
pub open spec fn stream<R>(w: WorldView<R>, from: u64, to: u64) -> Seq<u8> {
    w.net.connections[to].receive_buffer + on_the_way(w.queue, to) + flat(
        w.net.connections[from].send_buffer,
    )
}

/// By when all that is on its way from one connection to the other has arrived.
pub open spec fn latest_arrival(n: NetView, from: u64) -> nat {
    within_span(n.connections[from].next_send_time)
}

/// The connection `from` sends to the connection `to`, no other one does, and what is on
/// its way arrives before anything that is sent later.
pub open spec fn flowing<R>(w: WorldView<R>, from: u64, to: u64) -> bool {
    &&& from != to
    &&& w.net.connections.contains_key(from)
    &&& w.net.connections.contains_key(to)
    &&& w.net.connections[from].paired_connection == Some(ConnectionId(to))
    &&& forall|id: u64| #[trigger]
        w.net.connections.contains_key(id) && w.net.connections[id].paired_connection == Some(
            ConnectionId(to),
        ) ==> id == from
    &&& in_order(w.queue)
    &&& forall|i: int|
        0 <= i < w.queue.len() ==> (#[trigger] w.queue[i]).sequence < w.next_sequence
    &&& forall|i: int|
        0 <= i < w.queue.len() && is_for(#[trigger] w.queue[i], to) ==> w.queue[i].time
            <= latest_arrival(w.net, from)
}

/// Whether the sender of a connection is due to run.
pub open spec fn sender_due(q: Seq<ScheduledView>, id: u64) -> bool {
    exists|i: int|
        0 <= i < q.len() && (#[trigger] q[i]).event == EventView::ProcessSendBuffer {
            connection_id: id,
        }
}

/// A connection that holds messages is sending, and its sender is due to run.
pub open spec fn sending<R>(w: WorldView<R>, id: u64) -> bool {
    let c = w.net.connections[id];
    &&& c.send_buffer.len() > 0 ==> c.send_in_progress
    &&& c.send_in_progress ==> sender_due(w.queue, id)
}

/// The world in which the next event is processed: time moved to the event, expired
/// clogs went and partitions came.
pub open spec fn readied<R: RandomProvider>(w: WorldView<R>) -> WorldView<R> {
    partitions_triggered(
        clogs_cleared(
            (WorldView { now: w.queue[0].time, queue: w.queue.drop_first(), ..w }),
        ),
    )
}

/// The next event loses no message of the connection `from` and corrupts none for the
/// connection `to`.
pub open spec fn faultless<R: RandomProvider>(w: WorldView<R>, from: u64, to: u64) -> bool {
    let r = readied(w);
    match w.queue[0].event {
        EventView::ProcessSendBuffer { connection_id } => connection_id == from
            ==> !connection_partitioned(r.net, from, r.now),
        EventView::DataDelivery { connection_id, data } => connection_id == to ==> corrupted(
            (WorldView { events_processed: next_count(r.events_processed), ..r }),
            data,
        ).0 == data,
        _ => true,
    }
}

proof fn lemma_way_concat(x: Seq<ScheduledView>, y: Seq<ScheduledView>, to: u64)
    ensures
        on_the_way(x + y, to) == on_the_way(x, to) + on_the_way(y, to),
    decreases y.len(),
{
    if y.len() == 0 {
        assert(x + y =~= x);
        assert(on_the_way(x, to) + on_the_way(y, to) =~= on_the_way(x, to));
    } else {
        lemma_way_concat(x, y.drop_last(), to);
        assert((x + y).drop_last() =~= x + y.drop_last());
        assert((x + y).last() == y.last());
        assert(on_the_way(x + y, to) =~= on_the_way(x, to) + on_the_way(y, to));
    }
}

proof fn lemma_way_single(e: ScheduledView, to: u64)
    ensures
        on_the_way(seq![e], to) == arriving(e, to),
{
    let q = seq![e];
    assert(q.drop_last() =~= Seq::empty());
    assert(on_the_way(q.drop_last(), to) =~= Seq::empty());
    assert(on_the_way(q, to) =~= arriving(e, to));
}

proof fn lemma_way_empty(q: Seq<ScheduledView>, to: u64)
    requires
        forall|i: int| 0 <= i < q.len() ==> !is_for(#[trigger] q[i], to),
    ensures
        on_the_way(q, to) == Seq::<u8>::empty(),
    decreases q.len(),
{
    if q.len() > 0 {
        let t = q.drop_last();
        assert forall|i: int| 0 <= i < t.len() implies !is_for(#[trigger] t[i], to) by {
            assert(t[i] == q[i]);
        }
        lemma_way_empty(t, to);
        assert(!is_for(q[q.len() - 1], to));
        assert(on_the_way(q, to) =~= Seq::<u8>::empty());
    }
}

/// The first event is what arrives first.
proof fn lemma_way_first(q: Seq<ScheduledView>, to: u64)
    requires
        q.len() > 0,
    ensures
        on_the_way(q, to) == arriving(q[0], to) + on_the_way(q.drop_first(), to),
{
    lemma_way_concat(seq![q[0]], q.drop_first(), to);
    lemma_way_single(q[0], to);
    assert(seq![q[0]] + q.drop_first() =~= q);
}

/// A new event that is not due before any delivery to a connection delivers behind them.
proof fn lemma_way_scheduled(q: Seq<ScheduledView>, e: ScheduledView, to: u64)
    requires
        in_order(q),
        is_for(e, to) ==> forall|i: int|
            0 <= i < q.len() && is_for(#[trigger] q[i], to) ==> !due_after(q[i], e),
    ensures
        on_the_way(scheduled(q, e), to) == on_the_way(q, to) + arriving(e, to),
{
    lemma_slot_for(q, e);
    let p = slot_for(q, e);
    let x = q.take(p);
    let y = q.skip(p);
    assert(scheduled(q, e) =~= x + (seq![e] + y));
    assert(q =~= x + y);
    lemma_way_concat(x, seq![e] + y, to);
    lemma_way_concat(seq![e], y, to);
    lemma_way_concat(x, y, to);
    lemma_way_single(e, to);
    if is_for(e, to) {
        assert forall|i: int| 0 <= i < y.len() implies !is_for(#[trigger] y[i], to) by {
            assert(y[i] == q[p + i]);
            assert(due_after(q[p + i], e));
        }
        lemma_way_empty(y, to);
    }
    assert(on_the_way(scheduled(q, e), to) =~= on_the_way(q, to) + arriving(e, to));
}

proof fn lemma_flat_first(m: Seq<u8>, rest: Seq<Seq<u8>>)
    ensures
        flat(seq![m] + rest) == m + flat(rest),
{
    let s = seq![m] + rest;
    assert(s.drop_first() =~= rest);
    assert(s[0] == m);
}

proof fn lemma_flat_push(s: Seq<Seq<u8>>, m: Seq<u8>)
    ensures
        flat(s.push(m)) == flat(s) + m,
    decreases s.len(),
{
    if s.len() == 0 {
        assert(s.push(m) =~= seq![m] + s);
        lemma_flat_first(m, s);
        assert(m + flat(s) =~= flat(s) + m);
    } else {
        assert(s.push(m).drop_first() =~= s.drop_first().push(m));
        lemma_flat_push(s.drop_first(), m);
        assert(flat(s.push(m)) =~= flat(s) + m);
    }
}

/// Between the same ends, with the same events.
spec fn same_routes<R>(w: WorldView<R>, v: WorldView<R>, from: u64) -> bool {
    &&& v.queue == w.queue
    &&& v.next_sequence == w.next_sequence
    &&& v.net.connections.dom() == w.net.connections.dom()
    &&& forall|id: u64| #[trigger]
        w.net.connections.contains_key(id) ==> v.net.connections[id].paired_connection
            == w.net.connections[id].paired_connection
    &&& v.net.connections[from].next_send_time == w.net.connections[from].next_send_time
}

proof fn lemma_routes<R>(w: WorldView<R>, v: WorldView<R>, from: u64, to: u64)
    requires
        flowing(w, from, to),
        same_routes(w, v, from),
    ensures
        flowing(v, from, to),
{
    assert forall|id: u64| #[trigger]
        v.net.connections.contains_key(id) && v.net.connections[id].paired_connection == Some(
            ConnectionId(to),
        ) implies id == from by {
        assert(w.net.connections.contains_key(id));
    }
    assert(w.net.connections.contains_key(to));
    assert(w.net.connections.contains_key(from));
    assert(latest_arrival(v.net, from) == latest_arrival(w.net, from));
}

/// The events of a queue with one more are that one and those before.
proof fn lemma_scheduled_elements(q: Seq<ScheduledView>, e: ScheduledView)
    requires
        in_order(q),
    ensures
        in_order(scheduled(q, e)),
        scheduled(q, e).len() == q.len() + 1,
        forall|i: int|
            0 <= i < scheduled(q, e).len() ==> #[trigger] scheduled(q, e)[i] == e || exists|j: int|
                0 <= j < q.len() && q[j] == scheduled(q, e)[i],
        forall|j: int|
            0 <= j < q.len() ==> exists|i: int|
                0 <= i < scheduled(q, e).len() && #[trigger] scheduled(q, e)[i] == #[trigger] q[j],
        exists|i: int| 0 <= i < scheduled(q, e).len() && #[trigger] scheduled(q, e)[i] == e,
{
    lemma_schedule_keeps_order(q, e);
    lemma_slot_for(q, e);
    let p = slot_for(q, e);
    let t = scheduled(q, e);
    assert forall|i: int| 0 <= i < t.len() implies #[trigger] t[i] == e || exists|j: int|
        0 <= j < q.len() && q[j] == t[i] by {
        if i < p {
            assert(q[i] == t[i]);
        } else if i > p {
            assert(q[i - 1] == t[i]);
        }
    }
    assert forall|j: int| 0 <= j < q.len() implies exists|i: int|
        0 <= i < t.len() && #[trigger] t[i] == #[trigger] q[j] by {
        if j < p {
            assert(t[j] == q[j]);
        } else {
            assert(t[j + 1] == q[j]);
        }
    }
    assert(t[p] == e);
}

/// A sender that is due stays due when another event is scheduled.
pub proof fn lemma_still_due(q: Seq<ScheduledView>, e: ScheduledView, id: u64)
    requires
        in_order(q),
    ensures
        sender_due(q, id) ==> sender_due(scheduled(q, e), id),
        e.event == (EventView::ProcessSendBuffer { connection_id: id }) ==> sender_due(
            scheduled(q, e),
            id,
        ),
{
    lemma_scheduled_elements(q, e);
    let t = scheduled(q, e);
    if sender_due(q, id) {
        let j = choose|j: int|
            0 <= j < q.len() && (#[trigger] q[j]).event == EventView::ProcessSendBuffer {
                connection_id: id,
            };
        let i = choose|i: int| 0 <= i < t.len() && #[trigger] t[i] == q[j];
        assert(t[i].event == EventView::ProcessSendBuffer { connection_id: id });
    }
    if e.event == (EventView::ProcessSendBuffer { connection_id: id }) {
        let i = choose|i: int| 0 <= i < t.len() && #[trigger] t[i] == e;
        assert(t[i].event == EventView::ProcessSendBuffer { connection_id: id });
    }
}

/// An event that delivers nothing to a connection leaves its stream as it is.
pub proof fn lemma_other_events_leave_stream<R>(
    w: WorldView<R>,
    time: nat,
    event: EventView,
    from: u64,
    to: u64,
)
    requires
        flowing(w, from, to),
        w.next_sequence < u64::MAX,
        !is_for(ScheduledView { time, event, sequence: w.next_sequence }, to),
    ensures
        flowing(event_scheduled(w, time, event), from, to),
        stream(event_scheduled(w, time, event), from, to) == stream(w, from, to),
        sending(w, from) ==> sending(event_scheduled(w, time, event), from),
{
    let e = ScheduledView { time, event, sequence: w.next_sequence };
    let v = event_scheduled(w, time, event);
    lemma_way_scheduled(w.queue, e, to);
    assert(on_the_way(w.queue, to) + arriving(e, to) =~= on_the_way(w.queue, to));
    lemma_scheduled_elements(w.queue, e);
    lemma_still_due(w.queue, e, from);
    assert forall|i: int| 0 <= i < v.queue.len() implies (#[trigger] v.queue[i]).sequence
        < v.next_sequence by {
        if v.queue[i] != e {
            let j = choose|j: int| 0 <= j < w.queue.len() && w.queue[j] == v.queue[i];
            assert(w.queue[j].sequence < w.next_sequence);
        }
    }
    assert forall|i: int| 0 <= i < v.queue.len() && is_for(#[trigger] v.queue[i], to) implies v.queue[i].time
        <= latest_arrival(v.net, from) by {
        let j = choose|j: int| 0 <= j < w.queue.len() && w.queue[j] == v.queue[i];
        assert(is_for(w.queue[j], to));
    }
}

/// Data that leaves the sender joins the bytes on their way at their end.
proof fn lemma_data_sent<R>(w: WorldView<R>, from: u64, to: u64, delay: nat, data: Seq<u8>)
    requires
        flowing(w, from, to),
        w.next_sequence < u64::MAX,
    ensures
        ({
            let v = data_sent(w, from, arrival_time(w, from, delay), data);
            &&& flowing(v, from, to)
            &&& on_the_way(v.queue, to) == on_the_way(w.queue, to) + data
            &&& v.net.connections[to].receive_buffer == w.net.connections[to].receive_buffer
            &&& v.net.connections[from].send_buffer == w.net.connections[from].send_buffer
            &&& v.net.connections[from].send_in_progress
                == w.net.connections[from].send_in_progress
            &&& sender_due(w.queue, from) ==> sender_due(v.queue, from)
            &&& v.next_sequence == w.next_sequence + 1
            &&& v.now == w.now
        }),
{
    let arrival = arrival_time(w, from, delay);
    let v = data_sent(w, from, arrival, data);
    let c = w.net.connections[from];
    let e = ScheduledView {
        time: arrival,
        event: EventView::DataDelivery { connection_id: to, data },
        sequence: w.next_sequence,
    };
    assert(v.queue == scheduled(w.queue, e));
    assert forall|i: int| 0 <= i < w.queue.len() && is_for(#[trigger] w.queue[i], to) implies !due_after(
        w.queue[i],
        e,
    ) by {
        assert(w.queue[i].time <= latest_arrival(w.net, from));
        assert(w.queue[i].sequence < e.sequence);
    }
    lemma_way_scheduled(w.queue, e, to);
    lemma_scheduled_elements(w.queue, e);
    lemma_still_due(w.queue, e, from);
    assert(v.net.connections.dom() =~= w.net.connections.dom());
    assert forall|id: u64| #[trigger]
        v.net.connections.contains_key(id) && v.net.connections[id].paired_connection == Some(
            ConnectionId(to),
        ) implies id == from by {
        assert(w.net.connections.contains_key(id));
    }
    assert forall|i: int| 0 <= i < v.queue.len() implies (#[trigger] v.queue[i]).sequence
        < v.next_sequence by {
        if v.queue[i] != e {
            let j = choose|j: int| 0 <= j < w.queue.len() && w.queue[j] == v.queue[i];
            assert(w.queue[j].sequence < w.next_sequence);
        }
    }
    assert forall|i: int| 0 <= i < v.queue.len() && is_for(#[trigger] v.queue[i], to) implies v.queue[i].time
        <= latest_arrival(v.net, from) by {
        if v.queue[i] != e {
            let j = choose|j: int| 0 <= j < w.queue.len() && w.queue[j] == v.queue[i];
            assert(is_for(w.queue[j], to));
            assert(w.queue[j].time <= latest_arrival(w.net, from));
        }
    }
}

/// A sender that goes on where messages are left, and is done where not, changes nothing
/// else.
proof fn lemma_sender_continued<R>(w: WorldView<R>, id: u64, from: u64, to: u64)
    requires
        flowing(w, from, to),
        w.net.connections.contains_key(id),
        w.next_sequence < u64::MAX,
        id == from ==> w.net.connections[from].send_in_progress,
        id != from ==> sending(w, from),
    ensures
        flowing(sender_continued(w, id), from, to),
        stream(sender_continued(w, id), from, to) == stream(w, from, to),
        sending(sender_continued(w, id), from),
        sender_continued(w, id).next_sequence <= w.next_sequence + 1,
{
    if w.net.connections[id].send_buffer.len() > 0 {
        let event = EventView::ProcessSendBuffer { connection_id: id };
        lemma_other_events_leave_stream(w, w.now, event, from, to);
        lemma_still_due(
            w.queue,
            ScheduledView { time: w.now, event, sequence: w.next_sequence },
            id,
        );
    } else {
        let v = sender_idle(w, id);
        assert(v.net.connections.dom() =~= w.net.connections.dom());
        lemma_routes(w, v, from, to);
    }
}

/// Of the first message of a connection, what is not sent stays in front of the others.
proof fn lemma_message_parted<R: RandomProvider>(w: WorldView<R>, from: u64)
    requires
        w.net.connections.contains_key(from),
        w.net.connections[from].send_buffer.len() > 0,
    ensures
        ({
            let message = w.net.connections[from].send_buffer[0];
            let (n, w2) = bytes_sent(message_taken(w, from), message.len());
            let (delay, v) = travel_delay(remainder_kept(w2, from, message, n), from);
            &&& same_routes(w, v, from)
            &&& message.take(n as int) + flat(v.net.connections[from].send_buffer) == flat(
                w.net.connections[from].send_buffer,
            )
            &&& v.net.connections[from].send_in_progress
                == w.net.connections[from].send_in_progress
            &&& v.net.connections[from].receive_buffer == w.net.connections[from].receive_buffer
            &&& forall|id: u64|
                #![trigger v.net.connections[id]]
                id != from ==> v.net.connections[id] == w.net.connections[id]
        }),
{
    let messages = w.net.connections[from].send_buffer;
    let message = messages[0];
    let rest = messages.drop_first();
    assert(messages =~= seq![message] + rest);
    lemma_flat_first(message, rest);
    let w1 = message_taken(w, from);
    let (n, w2) = bytes_sent(w1, message.len());
    let w3 = remainder_kept(w2, from, message, n);
    let (delay, v) = travel_delay(w3, from);
    assert(v.net == w3.net);
    assert(v.net.connections.dom() =~= w.net.connections.dom());
    lemma_flat_first(message.skip(n as int), rest);
    if n < message.len() {
        assert(w1.net.connections[from].send_buffer == rest);
        assert(v.net.connections[from].send_buffer == seq![message.skip(n as int)] + rest);
        assert(message.take(n as int) + (message.skip(n as int) + flat(rest)) =~= message + flat(
            rest,
        ));
    } else {
        assert(v.net.connections[from].send_buffer == rest);
        assert(message.take(n as int) =~= message);
    }
}

/// A message that is sent moves from the sender to the bytes on their way.
proof fn lemma_message_sent<R: RandomProvider>(w: WorldView<R>, from: u64, to: u64)
    requires
        flowing(w, from, to),
        w.net.connections[from].send_buffer.len() > 0,
        w.net.connections[from].send_in_progress,
        w.next_sequence + 2 <= u64::MAX,
    ensures
        flowing(message_sent(w, from), from, to),
        stream(message_sent(w, from), from, to) == stream(w, from, to),
        sending(message_sent(w, from), from),
        message_sent(w, from).next_sequence <= w.next_sequence + 2,
{
    let message = w.net.connections[from].send_buffer[0];
    let (n, w2) = bytes_sent(message_taken(w, from), message.len());
    let (delay, w4) = travel_delay(remainder_kept(w2, from, message, n), from);
    lemma_message_parted(w, from);
    lemma_routes(w, w4, from, to);
    let data = message.take(n as int);
    lemma_message_on_its_way(w, w4, from, to, delay, data);
}

/// The part of a message that is sent joins the bytes on their way.
proof fn lemma_message_on_its_way<R>(
    w: WorldView<R>,
    v: WorldView<R>,
    from: u64,
    to: u64,
    delay: nat,
    data: Seq<u8>,
)
    requires
        flowing(v, from, to),
        v.queue == w.queue,
        v.next_sequence == w.next_sequence,
        data + flat(v.net.connections[from].send_buffer) == flat(
            w.net.connections[from].send_buffer,
        ),
        v.net.connections[to] == w.net.connections[to],
        v.net.connections[from].send_in_progress,
        w.next_sequence + 2 <= u64::MAX,
    ensures
        ({
            let u = sender_continued(
                data_sent(v, from, arrival_time(v, from, delay), data),
                from,
            );
            &&& flowing(u, from, to)
            &&& stream(u, from, to) == stream(w, from, to)
            &&& sending(u, from)
            &&& u.next_sequence <= w.next_sequence + 2
        }),
{
    lemma_data_sent(v, from, to, delay, data);
    let u = data_sent(v, from, arrival_time(v, from, delay), data);
    let received = w.net.connections[to].receive_buffer;
    let way = on_the_way(w.queue, to);
    let left = flat(v.net.connections[from].send_buffer);
    assert(received + (way + data) + left =~= received + way + (data + left));
    assert(stream(u, from, to) == stream(w, from, to));
    lemma_sender_continued(u, from, from, to);
}

/// A message of another connection changes nothing for this one.
proof fn lemma_other_message_sent<R: RandomProvider>(w: WorldView<R>, id: u64, from: u64, to: u64)
    requires
        flowing(w, from, to),
        sending(w, from),
        id != from,
        w.net.connections.contains_key(id),
        w.net.connections[id].send_buffer.len() > 0,
        w.next_sequence + 2 <= u64::MAX,
    ensures
        flowing(message_sent(w, id), from, to),
        stream(message_sent(w, id), from, to) == stream(w, from, to),
        sending(message_sent(w, id), from),
        message_sent(w, id).next_sequence <= w.next_sequence + 2,
{
    let message = w.net.connections[id].send_buffer[0];
    let (n, w2) = bytes_sent(message_taken(w, id), message.len());
    let (delay, w4) = travel_delay(remainder_kept(w2, id, message, n), id);
    lemma_message_parted(w, id);
    assert(w4.net.connections[from] == w.net.connections[from]);
    assert(to != id ==> w4.net.connections[to] == w.net.connections[to]);
    lemma_routes(w, w4, from, to);
    lemma_other_data_sent(w4, id, from, to, arrival_time(w4, id, delay), message.take(n as int));
}

/// Data that leaves another connection changes nothing for this one.
proof fn lemma_other_data_sent<R>(
    w: WorldView<R>,
    id: u64,
    from: u64,
    to: u64,
    arrival: nat,
    data: Seq<u8>,
)
    requires
        flowing(w, from, to),
        sending(w, from),
        id != from,
        w.net.connections.contains_key(id),
        w.next_sequence + 2 <= u64::MAX,
    ensures
        ({
            let u = sender_continued(data_sent(w, id, arrival, data), id);
            &&& flowing(u, from, to)
            &&& stream(u, from, to) == stream(w, from, to)
            &&& sending(u, from)
            &&& u.next_sequence <= w.next_sequence + 2
        }),
{
    let c = w.net.connections[id];
    let w1 = conn_updated(w, id, ConnView { next_send_time: plus_nanos(arrival, 1), ..c });
    assert(w1.net.connections.dom() =~= w.net.connections.dom());
    lemma_routes(w, w1, from, to);
    assert(stream(w1, from, to) == stream(w, from, to));
    let w2 = data_sent(w, id, arrival, data);
    if let Some(p) = c.paired_connection {
        assert(p.0 != to) by {
            if p.0 == to {
                assert(p == ConnectionId(to));
            }
        }
        lemma_other_events_leave_stream(
            w1,
            arrival,
            EventView::DataDelivery { connection_id: p.0, data },
            from,
            to,
        );
    }
    lemma_sender_continued(w2, id, from, to);
}

/// Processing a send buffer changes no stream, unless a message of it is lost.
proof fn lemma_send_processed<R: RandomProvider>(w: WorldView<R>, id: u64, from: u64, to: u64)
    requires
        flowing(w, from, to),
        id != from ==> sending(w, from),
        w.net.connections[from].send_buffer.len() > 0
            ==> w.net.connections[from].send_in_progress,
        id == from ==> !connection_partitioned(w.net, from, w.now),
        w.next_sequence + 2 <= u64::MAX,
    ensures
        flowing(send_processed(w, id), from, to),
        stream(send_processed(w, id), from, to) == stream(w, from, to),
        sending(send_processed(w, id), from),
        send_processed(w, id).next_sequence <= w.next_sequence + 2,
{
    if w.net.connections.contains_key(id) {
        if w.net.connections[id].send_buffer.len() == 0 {
            let v = sender_idle(w, id);
            assert(v.net.connections.dom() =~= w.net.connections.dom());
            lemma_routes(w, v, from, to);
        } else if connection_partitioned(w.net, id, w.now) {
            let v = message_taken(w, id);
            assert(v.net.connections.dom() =~= w.net.connections.dom());
            lemma_routes(w, v, from, to);
            lemma_sender_continued(v, id, from, to);
        } else if id == from {
            lemma_message_sent(w, from, to);
        } else {
            lemma_other_message_sent(w, id, from, to);
        }
    }
}

/// Partitions that are rolled for change no stream.
proof fn lemma_partitions_rolled<R: RandomProvider>(
    w: WorldView<R>,
    upto: int,
    from: u64,
    to: u64,
)
    requires
        flowing(w, from, to),
        0 <= upto <= u64::MAX,
        w.next_sequence + upto <= u64::MAX,
    ensures
        ({
            let v = partitions_rolled(w, upto);
            &&& flowing(v, from, to)
            &&& stream(v, from, to) == stream(w, from, to)
            &&& on_the_way(v.queue, to) == on_the_way(w.queue, to)
            &&& v.net.connections == w.net.connections
            &&& v.next_sequence <= w.next_sequence + upto
            &&& sender_due(w.queue, from) ==> sender_due(v.queue, from)
            &&& v.now == w.now
        }),
    decreases upto,
{
    if upto > 0 {
        lemma_partitions_rolled(w, upto - 1, from, to);
        let u = partitions_rolled(w, upto - 1);
        let id = (upto - 1) as u64;
        let v = partition_rolled(u, id);
        let c = u.net.connections[id];
        let (ratio, rng) = u.rng.ratio_draw();
        if u.net.connections.contains_key(id) && c.local_ip is Some && c.remote_ip is Some
            && !partitioned(u.net, c.local_ip->0, c.remote_ip->0, u.now) && ratio_below(
            ratio,
            u.net.config.chaos.partition_probability,
        ) {
            let (nanos, rng) = crate::config::duration_draw(
                rng,
                u.net.config.chaos.partition_duration,
            );
            let expires_at = plus_nanos(u.now, nanos as nat);
            let u1 = WorldView {
                rng,
                net: NetView {
                    ip_partitions: u.net.ip_partitions.insert(
                        (c.local_ip->0, c.remote_ip->0),
                        expires_at,
                    ),
                    ..u.net
                },
                ..u
            };
            let event = EventView::Connection {
                id: 0,
                state: crate::events::ConnectionStateChange::PartitionRestore,
            };
            lemma_routes(u, u1, from, to);
            lemma_other_events_leave_stream(u1, expires_at, event, from, to);
            let e = ScheduledView { time: expires_at, event, sequence: u1.next_sequence };
            lemma_way_scheduled(u1.queue, e, to);
            assert(on_the_way(u1.queue, to) + arriving(e, to) =~= on_the_way(u1.queue, to));
            lemma_still_due(u1.queue, e, from);
            assert(v == event_scheduled(u1, expires_at, event));
        } else {
            lemma_routes(u, v, from, to);
        }
    }
}

/// The world in which the next event is processed has the streams of the world before,
/// without the bytes that the event delivers.
proof fn lemma_readied<R: RandomProvider>(w: WorldView<R>, from: u64, to: u64)
    requires
        flowing(w, from, to),
        w.queue.len() > 0,
        w.next_sequence + w.net.next_connection_id <= u64::MAX,
    ensures
        ({
            let r = readied(w);
            &&& flowing(r, from, to)
            &&& on_the_way(w.queue, to) == arriving(w.queue[0], to) + on_the_way(r.queue, to)
            &&& r.net.connections == w.net.connections
            &&& r.next_sequence <= w.next_sequence + w.net.next_connection_id
            &&& sender_due(w.queue.drop_first(), from) ==> sender_due(r.queue, from)
        }),
{
    let w1 = WorldView { now: w.queue[0].time, queue: w.queue.drop_first(), ..w };
    let w2 = clogs_cleared(w1);
    lemma_earliest_first(w.queue);
    lemma_way_first(w.queue, to);
    assert forall|i: int| 0 <= i < w2.queue.len() implies (#[trigger] w2.queue[i]).sequence
        < w2.next_sequence by {
        assert(w2.queue[i] == w.queue[i + 1]);
    }
    assert forall|i: int| 0 <= i < w2.queue.len() && is_for(#[trigger] w2.queue[i], to) implies w2.queue[i].time
        <= latest_arrival(w2.net, from) by {
        assert(w2.queue[i] == w.queue[i + 1]);
    }
    assert(flowing(w2, from, to));
    if w2.net.config.chaos.partition_probability != 0 {
        lemma_partitions_rolled(w2, w2.net.next_connection_id as int, from, to);
    }
}

/// A sender that is due and is not what comes next stays due.
proof fn lemma_due_later(q: Seq<ScheduledView>, id: u64)
    requires
        q.len() > 0,
        sender_due(q, id),
        q[0].event != (EventView::ProcessSendBuffer { connection_id: id }),
    ensures
        sender_due(q.drop_first(), id),
{
    let i = choose|i: int|
        0 <= i < q.len() && (#[trigger] q[i]).event == EventView::ProcessSendBuffer {
            connection_id: id,
        };
    assert(q.drop_first()[i - 1] == q[i]);
}

/// The next event moves bytes along a stream and does not change it, unless it loses or
/// corrupts a message.
pub proof fn lemma_step_keeps_stream<R: RandomProvider>(w: WorldView<R>, from: u64, to: u64)
    requires
        flowing(w, from, to),
        sending(w, from),
        w.queue.len() > 0,
        faultless(w, from, to),
        w.next_sequence + w.net.next_connection_id + 2 <= u64::MAX,
    ensures
        flowing(stepped(w), from, to),
        sending(stepped(w), from),
        stream(stepped(w), from, to) == stream(w, from, to),
        stepped(w).next_sequence <= w.next_sequence + w.net.next_connection_id + 2,
{
    lemma_readied(w, from, to);
    let e = w.queue[0];
    let r = readied(w);
    let r1 = WorldView { events_processed: next_count(r.events_processed), ..r };
    lemma_routes(r, r1, from, to);
    if e.event != (EventView::ProcessSendBuffer { connection_id: from })
        && w.net.connections[from].send_in_progress {
        lemma_due_later(w.queue, from);
    }
    let v = stepped(w);
    assert(v == event_processed(r, e.event));
    match e.event {
        EventView::DataDelivery { connection_id, data } => {
            if w.net.connections.contains_key(connection_id) {
                let (arrived, r2) = corrupted(r1, data);
                assert(v.net.connections.dom() =~= w.net.connections.dom());
                lemma_routes(r1, v, from, to);
                if connection_id == to {
                    assert(stream(v, from, to) =~= stream(w, from, to));
                } else {
                    assert(arriving(e, to) + on_the_way(r.queue, to) =~= on_the_way(r.queue, to));
                    assert(stream(v, from, to) == stream(w, from, to));
                }
            } else {
                assert(arriving(e, to) + on_the_way(r.queue, to) =~= on_the_way(r.queue, to));
            }
        },
        EventView::ProcessSendBuffer { connection_id } => {
            assert(arriving(e, to) + on_the_way(r.queue, to) =~= on_the_way(r.queue, to));
            lemma_send_processed(r1, connection_id, from, to);
        },
        EventView::Connection { id, state } => {
            assert(arriving(e, to) + on_the_way(r.queue, to) =~= on_the_way(r.queue, to));
            assert(v.net.connections.dom() =~= w.net.connections.dom());
            lemma_routes(r1, v, from, to);
        },
        EventView::Timer { task_id } => {
            assert(arriving(e, to) + on_the_way(r.queue, to) =~= on_the_way(r.queue, to));
            lemma_routes(r1, v, from, to);
        },
        EventView::Shutdown => {
            assert(arriving(e, to) + on_the_way(r.queue, to) =~= on_the_way(r.queue, to));
            lemma_routes(r1, v, from, to);
        },
    }
}

/// What is written comes last in the stream.
pub proof fn lemma_write_appends<R>(w: WorldView<R>, from: u64, to: u64, data: Seq<u8>)
    requires
        flowing(w, from, to),
        sending(w, from),
        w.next_sequence < u64::MAX,
    ensures
        flowing(message_buffered(w, from, data), from, to),
        sending(message_buffered(w, from, data), from),
        stream(message_buffered(w, from, data), from, to) == stream(w, from, to) + data,
{
    let c = w.net.connections[from];
    lemma_flat_push(c.send_buffer, data);
    let w1 = conn_updated(
        w,
        from,
        ConnView { send_buffer: c.send_buffer.push(data), send_in_progress: true, ..c },
    );
    assert(w1.net.connections.dom() =~= w.net.connections.dom());
    lemma_routes(w, w1, from, to);
    assert(stream(w1, from, to) =~= stream(w, from, to) + data);
    if !c.send_in_progress {
        let event = EventView::ProcessSendBuffer { connection_id: from };
        lemma_other_events_leave_stream(w1, w.now, event, from, to);
        lemma_still_due(
            w1.queue,
            ScheduledView { time: w.now, event, sequence: w1.next_sequence },
            from,
        );
    }
}

/// The world after a task came to wait for the end of a cut or of a clog, or a clog came:
/// no stream changes.
pub proof fn lemma_waiting_leaves_stream<R>(w: WorldView<R>, v: WorldView<R>, from: u64, to: u64)
    requires
        flowing(w, from, to),
        sending(w, from),
        v.net.connections == w.net.connections,
        v.queue == w.queue,
        v.next_sequence == w.next_sequence,
    ensures
        flowing(v, from, to),
        sending(v, from),
        stream(v, from, to) == stream(w, from, to),
{
    lemma_routes(w, v, from, to);
}

/// A write either takes all of its bytes or none: where it is ready it says so of all
/// bytes, and they, whole and unchanged, follow what was written before; where it is not,
/// nothing of them is ever read. A write is ready wherever the connection is open and
/// neither cut nor clogged and clogs are not drawn. No other connection changes.
pub proof fn lemma_write_takes_all<R: RandomProvider>(
    w: WorldView<R>,
    from: u64,
    to: u64,
    data: Seq<u8>,
    token: u64,
)
    requires
        flowing(w, from, to),
        sending(w, from),
        w.next_sequence < u64::MAX,
        data.len() <= usize::MAX,
    ensures
        ({
            let (r, v) = write_polled(w, from, data, token);
            let c = w.net.connections[from];
            &&& flowing(v, from, to)
            &&& sending(v, from)
            &&& v.now == w.now
            &&& r matches StreamPoll::Ready(n) ==> n == data.len() && stream(v, from, to)
                == stream(w, from, to) + data
            &&& !(r is Ready) ==> stream(v, from, to) == stream(w, from, to)
                && v.net.connections == w.net.connections
            &&& !c.is_closed && !c.send_closed && !(c.is_cut && c.cut_expiry is Some && w.now
                < c.cut_expiry->0) && !(w.net.connection_clogs.contains_key(from) && w.now
                < w.net.connection_clogs[from]) && w.net.config.chaos.clog_probability == 0
                ==> r is Ready
            &&& c.is_closed || c.send_closed ==> r is Failed && v == w
            &&& v.net.connections.dom() == w.net.connections.dom()
            &&& forall|id: u64|
                id != from ==> #[trigger] v.net.connections[id] == w.net.connections[id]
        }),
{
    let (r, v) = write_polled(w, from, data, token);
    let (clogs, w1) = clog_decided(w, w.net.connection_clogs, from);
    assert(w1.net == w.net && w1.queue == w.queue && w1.next_sequence == w.next_sequence && w1.now
        == w.now);
    lemma_waiting_leaves_stream(w, w1, from, to);
    if r is Ready {
        lemma_write_appends(w1, from, to, data);
        assert(v == message_buffered(w1, from, data));
        assert(v.net.connections.dom() =~= w.net.connections.dom());
    } else if v.next_sequence == w.next_sequence {
        lemma_waiting_leaves_stream(w, v, from, to);
    } else {
        let (nanos, rng) = duration_draw(w1.rng, w1.net.config.chaos.clog_duration);
        let until = plus_nanos(w1.now, nanos as nat);
        let w2 = WorldView {
            rng,
            net: NetView {
                connection_clogs: w1.net.connection_clogs.insert(from, until),
                ..w1.net
            },
            ..w1
        };
        let event = EventView::Connection {
            id: from,
            state: crate::events::ConnectionStateChange::ClogClear,
        };
        lemma_waiting_leaves_stream(w, w2, from, to);
        lemma_other_events_leave_stream(w2, until, event, from, to);
        lemma_still_due(
            w2.queue,
            ScheduledView { time: until, event, sequence: w2.next_sequence },
            from,
        );
        let w3 = event_scheduled(w2, until, event);
        lemma_waiting_leaves_stream(w3, v, from, to);
    }
}

/// A read that is ready gives the bytes that were written first and not read yet, as many
/// as there is room for or have arrived, and they are gone then; bytes that have arrived
/// are given to the next read that has room, unless the connection is cut or was reset. Where
/// a read is not ready no stream changes. A read of nothing is the end of a closed stream.
pub proof fn lemma_read_gives_front<R: RandomProvider>(
    w: WorldView<R>,
    from: u64,
    to: u64,
    max: nat,
    token: u64,
)
    requires
        flowing(w, from, to),
        sending(w, from),
        max <= usize::MAX,
    ensures
        ({
            let (r, v) = read_polled(w, to, max, token);
            let c = w.net.connections[to];
            let cut = c.is_cut && c.cut_expiry is Some && w.now < c.cut_expiry->0;
            &&& flowing(v, from, to)
            &&& sending(v, from)
            &&& v.now == w.now
            &&& r matches StreamPoll::Ready(n) ==> {
                &&& n <= max
                &&& n <= c.receive_buffer.len()
                &&& n == max || n == c.receive_buffer.len()
                &&& c.receive_buffer.take(n as int) == stream(w, from, to).take(n as int)
                &&& stream(v, from, to) == stream(w, from, to).skip(n as int)
                &&& n == 0 ==> c.is_closed || c.recv_closed
            }
            &&& !(r is Ready) ==> stream(v, from, to) == stream(w, from, to)
            &&& max > 0 && c.receive_buffer.len() > 0 && (c.is_closed || !cut) && !(c.is_closed
                && c.close_reason == CloseReason::Aborted) ==> r is Ready
            &&& r is Failed <==> c.is_closed && c.close_reason == CloseReason::Aborted
            &&& !c.is_closed && cut ==> r is Pending
            &&& c.receive_buffer.len() == 0 && !c.is_closed && !c.recv_closed ==> r is Pending
            &&& c.receive_buffer.len() == 0 && c.is_closed && c.close_reason
                != CloseReason::Aborted ==> r == StreamPoll::Ready(0)
            &&& c.receive_buffer.len() == 0 && c.recv_closed && !c.is_closed && !cut ==> r
                == StreamPoll::Ready(0)
        }),
{
    let (r, v) = read_polled(w, to, max, token);
    let c = w.net.connections[to];
    lemma_read_takes_front(w, from, to, max);
    if r is Ready && max > 0 && c.receive_buffer.len() > 0 {
        assert(v == bytes_read(w, to, max));
    } else {
        lemma_waiting_leaves_stream(w, v, from, to);
        assert(stream(v, from, to) == stream(w, from, to));
        assert(stream(w, from, to).skip(0) =~= stream(w, from, to));
        assert(c.receive_buffer.take(0) =~= stream(w, from, to).take(0));
    }
}

/// What is read comes first in the stream, and is then gone from it.
pub proof fn lemma_read_takes_front<R>(w: WorldView<R>, from: u64, to: u64, max: nat)
    requires
        flowing(w, from, to),
        sending(w, from),
    ensures
        ({
            let received = w.net.connections[to].receive_buffer;
            let n = at_most(max, received.len()) as int;
            let v = bytes_read(w, to, max);
            &&& flowing(v, from, to)
            &&& sending(v, from)
            &&& received.take(n) == stream(w, from, to).take(n)
            &&& stream(v, from, to) == stream(w, from, to).skip(n)
        }),
{
    let received = w.net.connections[to].receive_buffer;
    let n = at_most(max, received.len()) as int;
    let v = bytes_read(w, to, max);
    assert(v.net.connections.dom() =~= w.net.connections.dom());
    lemma_routes(w, v, from, to);
    assert(received.take(n) =~= stream(w, from, to).take(n));
    assert(stream(v, from, to) =~= stream(w, from, to).skip(n));
}

/// Events and connections that were given out are all that there are.
pub open spec fn orderly<R>(w: WorldView<R>) -> bool {
    &&& in_order(w.queue)
    &&& forall|i: int|
        0 <= i < w.queue.len() ==> (#[trigger] w.queue[i]).sequence < w.next_sequence
    &&& forall|i: int, to: u64|
        0 <= i < w.queue.len() && #[trigger] is_for(w.queue[i], to) ==> to
            < w.net.next_connection_id
    &&& forall|id: u64| #[trigger]
        w.net.connections.contains_key(id) ==> id < w.net.next_connection_id && (
        w.net.connections[id].paired_connection matches Some(p) ==> p.0
            < w.net.next_connection_id)
}

/// A world before anything happened is orderly.
pub proof fn lemma_empty_world_is_orderly<R>(config: NetworkConfiguration, rng: R)
    ensures
        orderly(empty_world(config, rng)),
{
}

/// An event keeps a world orderly, unless it delivers to a connection that there is not.
pub proof fn lemma_event_keeps_orderly<R>(w: WorldView<R>, time: nat, event: EventView)
    requires
        orderly(w),
        w.next_sequence < u64::MAX,
        event matches EventView::DataDelivery { connection_id, .. } ==> connection_id
            < w.net.next_connection_id,
    ensures
        orderly(event_scheduled(w, time, event)),
{
    let e = ScheduledView { time, event, sequence: w.next_sequence };
    let v = event_scheduled(w, time, event);
    lemma_scheduled_elements(w.queue, e);
    assert forall|i: int| 0 <= i < v.queue.len() implies (#[trigger] v.queue[i]).sequence
        < v.next_sequence by {
        if v.queue[i] != e {
            let j = choose|j: int| 0 <= j < w.queue.len() && w.queue[j] == v.queue[i];
            assert(w.queue[j].sequence < w.next_sequence);
        }
    }
    assert forall|i: int, to: u64|
        0 <= i < v.queue.len() && #[trigger] is_for(v.queue[i], to) implies to
        < v.net.next_connection_id by {
        if v.queue[i] != e {
            let j = choose|j: int| 0 <= j < w.queue.len() && w.queue[j] == v.queue[i];
            assert(is_for(w.queue[j], to));
        }
    }
}

/// With the same events and between the same ends a world is as orderly.
proof fn lemma_orderly_routes<R>(w: WorldView<R>, v: WorldView<R>)
    requires
        orderly(w),
        v.queue == w.queue,
        v.next_sequence == w.next_sequence,
        v.net.next_connection_id == w.net.next_connection_id,
        v.net.connections.dom() == w.net.connections.dom(),
        forall|id: u64| #[trigger]
            w.net.connections.contains_key(id) ==> v.net.connections[id].paired_connection
                == w.net.connections[id].paired_connection,
    ensures
        orderly(v),
{
    assert forall|id: u64| #[trigger] v.net.connections.contains_key(id) implies id
        < v.net.next_connection_id && (v.net.connections[id].paired_connection matches Some(p)
        ==> p.0 < v.net.next_connection_id) by {
        assert(w.net.connections.contains_key(id));
    }
}

proof fn lemma_rolls_keep_orderly<R: RandomProvider>(w: WorldView<R>, upto: int)
    requires
        orderly(w),
        0 <= upto <= u64::MAX,
        w.next_sequence + upto <= u64::MAX,
    ensures
        ({
            let v = partitions_rolled(w, upto);
            &&& orderly(v)
            &&& v.net.connections == w.net.connections
            &&& v.net.next_connection_id == w.net.next_connection_id
            &&& v.next_sequence <= w.next_sequence + upto
        }),
    decreases upto,
{
    if upto > 0 {
        lemma_rolls_keep_orderly(w, upto - 1);
        let u = partitions_rolled(w, upto - 1);
        let id = (upto - 1) as u64;
        let v = partition_rolled(u, id);
        let c = u.net.connections[id];
        let (ratio, rng) = u.rng.ratio_draw();
        if u.net.connections.contains_key(id) && c.local_ip is Some && c.remote_ip is Some
            && !partitioned(u.net, c.local_ip->0, c.remote_ip->0, u.now) && ratio_below(
            ratio,
            u.net.config.chaos.partition_probability,
        ) {
            let (nanos, rng) = crate::config::duration_draw(
                rng,
                u.net.config.chaos.partition_duration,
            );
            let expires_at = plus_nanos(u.now, nanos as nat);
            let u1 = WorldView {
                rng,
                net: NetView {
                    ip_partitions: u.net.ip_partitions.insert(
                        (c.local_ip->0, c.remote_ip->0),
                        expires_at,
                    ),
                    ..u.net
                },
                ..u
            };
            let event = EventView::Connection {
                id: 0,
                state: crate::events::ConnectionStateChange::PartitionRestore,
            };
            lemma_orderly_routes(u, u1);
            lemma_event_keeps_orderly(u1, expires_at, event);
            assert(v == event_scheduled(u1, expires_at, event));
        } else {
            lemma_orderly_routes(u, v);
        }
    }
}

proof fn lemma_continuing_keeps_orderly<R>(w: WorldView<R>, id: u64)
    requires
        orderly(w),
        w.net.connections.contains_key(id),
        w.next_sequence < u64::MAX,
    ensures
        orderly(sender_continued(w, id)),
        sender_continued(w, id).net.next_connection_id == w.net.next_connection_id,
{
    if w.net.connections[id].send_buffer.len() > 0 {
        lemma_event_keeps_orderly(w, w.now, EventView::ProcessSendBuffer { connection_id: id });
    } else {
        let v = sender_idle(w, id);
        assert(v.net.connections.dom() =~= w.net.connections.dom());
        lemma_orderly_routes(w, v);
    }
}

/// Sending off the front message keeps a world orderly.
proof fn lemma_message_keeps_orderly<R: RandomProvider>(w: WorldView<R>, id: u64)
    requires
        orderly(w),
        w.net.connections.contains_key(id),
        w.net.connections[id].send_buffer.len() > 0,
        w.next_sequence + 2 <= u64::MAX,
    ensures
        ({
            let message = w.net.connections[id].send_buffer[0];
            let (n, w2) = bytes_sent(message_taken(w, id), message.len());
            let (delay, w4) = travel_delay(remainder_kept(w2, id, message, n), id);
            let w6 = data_sent(w4, id, arrival_time(w4, id, delay), message.take(n as int));
            &&& orderly(w6)
            &&& w6.net.connections.contains_key(id)
            &&& w6.next_sequence < u64::MAX
            &&& w6.net.next_connection_id == w.net.next_connection_id
        }),
{
    let message = w.net.connections[id].send_buffer[0];
    let (n, w2) = bytes_sent(message_taken(w, id), message.len());
    let (delay, w4) = travel_delay(remainder_kept(w2, id, message, n), id);
    let c = w4.net.connections[id];
    let arrival = arrival_time(w4, id, delay);
    let w5 = conn_updated(w4, id, ConnView { next_send_time: plus_nanos(arrival, 1), ..c });
    assert(w5.net.connections.dom() =~= w.net.connections.dom());
    lemma_orderly_routes(w, w5);
    let w6 = data_sent(w4, id, arrival, message.take(n as int));
    if c.paired_connection is Some {
        assert(c.paired_connection == w.net.connections[id].paired_connection);
        lemma_event_keeps_orderly(
            w5,
            arrival,
            EventView::DataDelivery {
                connection_id: (c.paired_connection->0).0,
                data: message.take(n as int),
            },
        );
    }
}

proof fn lemma_sending_keeps_orderly<R: RandomProvider>(w: WorldView<R>, id: u64)
    requires
        orderly(w),
        w.next_sequence + 2 <= u64::MAX,
    ensures
        orderly(send_processed(w, id)),
        send_processed(w, id).net.next_connection_id == w.net.next_connection_id,
{
    if w.net.connections.contains_key(id) {
        if w.net.connections[id].send_buffer.len() == 0 {
            let v = sender_idle(w, id);
            assert(v.net.connections.dom() =~= w.net.connections.dom());
            lemma_orderly_routes(w, v);
        } else if connection_partitioned(w.net, id, w.now) {
            let v = message_taken(w, id);
            assert(v.net.connections.dom() =~= w.net.connections.dom());
            lemma_orderly_routes(w, v);
            lemma_continuing_keeps_orderly(v, id);
        } else {
            let message = w.net.connections[id].send_buffer[0];
            let (n, w2) = bytes_sent(message_taken(w, id), message.len());
            let (delay, w4) = travel_delay(remainder_kept(w2, id, message, n), id);
            let w6 = data_sent(w4, id, arrival_time(w4, id, delay), message.take(n as int));
            lemma_message_keeps_orderly(w, id);
            lemma_continuing_keeps_orderly(w6, id);
            assert(send_processed(w, id) == sender_continued(w6, id));
        }
    }
}

/// The next event keeps a world orderly.
pub proof fn lemma_step_keeps_orderly<R: RandomProvider>(w: WorldView<R>)
    requires
        orderly(w),
        w.next_sequence + w.net.next_connection_id + 2 <= u64::MAX,
    ensures
        orderly(stepped(w)),
        stepped(w).net.next_connection_id == w.net.next_connection_id,
{
    if w.queue.len() > 0 {
        let w1 = WorldView { now: w.queue[0].time, queue: w.queue.drop_first(), ..w };
        let w2 = clogs_cleared(w1);
        lemma_earliest_first(w.queue);
        assert forall|i: int| 0 <= i < w2.queue.len() implies (#[trigger] w2.queue[i]).sequence
            < w2.next_sequence by {
            assert(w2.queue[i] == w.queue[i + 1]);
        }
        assert forall|i: int, to: u64|
            0 <= i < w2.queue.len() && #[trigger] is_for(w2.queue[i], to) implies to
            < w2.net.next_connection_id by {
            assert(is_for(w.queue[i + 1], to));
        }
        assert(orderly(w2));
        if w2.net.config.chaos.partition_probability != 0 {
            lemma_rolls_keep_orderly(w2, w2.net.next_connection_id as int);
        }
        let r = readied(w);
        let r1 = WorldView { events_processed: next_count(r.events_processed), ..r };
        lemma_orderly_routes(r, r1);
        let v = stepped(w);
        assert(v == event_processed(r, w.queue[0].event));
        match w.queue[0].event {
            EventView::ProcessSendBuffer { connection_id } => {
                lemma_sending_keeps_orderly(r1, connection_id);
            },
            _ => {
                assert(v.net.connections.dom() =~= r1.net.connections.dom());
                lemma_orderly_routes(r1, v);
            },
        }
    }
}

/// Writing and reading keep a world orderly.
pub proof fn lemma_streams_keep_orderly<R>(w: WorldView<R>, id: u64, data: Seq<u8>, max: nat)
    requires
        orderly(w),
        w.net.connections.contains_key(id),
        w.next_sequence < u64::MAX,
    ensures
        orderly(message_buffered(w, id, data)),
        orderly(bytes_read(w, id, max)),
{
    let c = w.net.connections[id];
    let w1 = conn_updated(
        w,
        id,
        ConnView { send_buffer: c.send_buffer.push(data), send_in_progress: true, ..c },
    );
    assert(w1.net.connections.dom() =~= w.net.connections.dom());
    lemma_orderly_routes(w, w1);
    if !c.send_in_progress {
        lemma_event_keeps_orderly(w1, w.now, EventView::ProcessSendBuffer { connection_id: id });
    }
    let v = bytes_read(w, id, max);
    assert(v.net.connections.dom() =~= w.net.connections.dom());
    lemma_orderly_routes(w, v);
}

/// Both streams of a new connection are empty and flow.
pub proof fn lemma_new_streams_are_empty<R: RandomProvider>(
    w: WorldView<R>,
    client_addr: Seq<char>,
    server_addr: Seq<char>,
    client_ip: Option<crate::state::IpAddr>,
    server_ip: Option<crate::state::IpAddr>,
)
    requires
        orderly(w),
        w.net.next_connection_id <= u64::MAX - 2,
    ensures
        ({
            let v = pair_created(w, client_addr, server_addr, client_ip, server_ip);
            let client = w.net.next_connection_id;
            let server = (client + 1) as u64;
            &&& orderly(v)
            &&& flowing(v, client, server)
            &&& flowing(v, server, client)
            &&& sending(v, client)
            &&& sending(v, server)
            &&& stream(v, client, server) == Seq::<u8>::empty()
            &&& stream(v, server, client) == Seq::<u8>::empty()
        }),
{
    let v = pair_created(w, client_addr, server_addr, client_ip, server_ip);
    let client = w.net.next_connection_id;
    let server = (client + 1) as u64;
    assert forall|i: int| 0 <= i < v.queue.len() implies !is_for(#[trigger] v.queue[i], client)
        && !is_for(v.queue[i], server) by {
        assert(v.queue[i] == w.queue[i]);
        assert(is_for(w.queue[i], client) ==> client < w.net.next_connection_id);
        assert(is_for(w.queue[i], server) ==> server < w.net.next_connection_id);
    }
    lemma_way_empty(v.queue, client);
    lemma_way_empty(v.queue, server);
    assert forall|id: u64| #[trigger] v.net.connections.contains_key(id) implies id
        < v.net.next_connection_id && (v.net.connections[id].paired_connection matches Some(p)
        ==> p.0 < v.net.next_connection_id) && (v.net.connections[id].paired_connection == Some(
        ConnectionId(client),
    ) ==> id == server) && (v.net.connections[id].paired_connection == Some(ConnectionId(server))
        ==> id == client) by {
        if id != client && id != server {
            assert(w.net.connections.contains_key(id));
        }
    }
    assert(stream(v, client, server) =~= Seq::<u8>::empty());
    assert(stream(v, server, client) =~= Seq::<u8>::empty());
}

/// No fault is injected and no address is cut off.
pub open spec fn calm<R>(w: WorldView<R>) -> bool {
    &&& !w.buggify.enabled
    &&& w.net.config.chaos.partition_probability == 0
    &&& w.net.ip_partitions == Map::<(crate::state::IpAddr, crate::state::IpAddr), nat>::empty()
    &&& w.net.send_partitions == Map::<crate::state::IpAddr, nat>::empty()
    &&& w.net.recv_partitions == Map::<crate::state::IpAddr, nat>::empty()
}

/// In a calm world no event loses or corrupts a message, and the world stays calm.
pub proof fn lemma_calm_is_faultless<R: RandomProvider>(w: WorldView<R>, from: u64, to: u64)
    requires
        calm(w),
        w.queue.len() > 0,
    ensures
        faultless(w, from, to),
        calm(stepped(w)),
        stepped(w).net.next_connection_id == w.net.next_connection_id,
{
    let r = readied(w);
    let v = stepped(w);
    assert(v == event_processed(r, w.queue[0].event));
    match w.queue[0].event {
        EventView::Connection { id, state } => {
            assert(v.net.ip_partitions =~= w.net.ip_partitions);
            assert(v.net.send_partitions =~= w.net.send_partitions);
            assert(v.net.recv_partitions =~= w.net.recv_partitions);
        },
        EventView::ProcessSendBuffer { connection_id } => {
            assert(v.net.ip_partitions == w.net.ip_partitions);
        },
        _ => {},
    }
}

/// In a calm world a run changes no stream.
proof fn lemma_run_keeps_stream<R: RandomProvider>(
    w: WorldView<R>,
    limit: nat,
    from: u64,
    to: u64,
)
    requires
        flowing(w, from, to),
        sending(w, from),
        calm(w),
        w.next_sequence + limit * (w.net.next_connection_id + 2) <= u64::MAX,
    ensures
        flowing(ran(w, limit).0, from, to),
        sending(ran(w, limit).0, from),
        stream(ran(w, limit).0, from, to) == stream(w, from, to),
        ran(w, limit).1 ==> only_infrastructure(ran(w, limit).0.queue),
    decreases limit,
{
    if limit > 0 {
        let v = stepped(w);
        if w.queue.len() > 0 {
            let each = w.net.next_connection_id + 2;
            assert(limit * each == each + (limit - 1) * each) by (nonlinear_arith)
                requires
                    limit > 0,
            ;
            assert((limit - 1) * each >= 0) by (nonlinear_arith)
                requires
                    limit > 0,
                    each >= 0,
            ;
            lemma_calm_is_faultless(w, from, to);
            lemma_step_keeps_stream(w, from, to);
            if !(v.queue.len() == 0 || (v.events_processed
                % crate::world::TERMINATION_CHECK_INTERVAL == 0 && only_infrastructure(v.queue))) {
                lemma_run_keeps_stream(v, (limit - 1) as nat, from, to);
            }
        } else {
            assert(v == w);
        }
    }
}

/// What is written to a connection arrives at its other end, whole and in order: once a
/// calm world has run to its end, all that was written and not read has been received.
pub proof fn lemma_all_arrives_in_order<R: RandomProvider>(
    w: WorldView<R>,
    limit: nat,
    from: u64,
    to: u64,
)
    requires
        flowing(w, from, to),
        sending(w, from),
        calm(w),
        ran(w, limit).1,
        w.next_sequence + limit * (w.net.next_connection_id + 2) <= u64::MAX,
    ensures
        ran(w, limit).0.net.connections[to].receive_buffer == stream(w, from, to),
{
    lemma_run_keeps_stream(w, limit, from, to);
    let v = ran(w, limit).0;
    assert forall|i: int| 0 <= i < v.queue.len() implies !is_for(#[trigger] v.queue[i], to) by {
        assert(crate::events::is_infrastructure(v.queue[i].event));
    }
    lemma_way_empty(v.queue, to);
    if sender_due(v.queue, from) {
        let i = choose|i: int|
            0 <= i < v.queue.len() && (#[trigger] v.queue[i]).event
                == EventView::ProcessSendBuffer { connection_id: from };
        assert(crate::events::is_infrastructure(v.queue[i].event));
    }
    assert(v.net.connections[from].send_buffer.len() == 0);
    assert(stream(v, from, to) =~= v.net.connections[to].receive_buffer);
}

/// What a ready write reported as written is received: once a calm world has run to its
/// end, the other end has received all that was on its way before and then exactly the
/// bytes of the write.
pub proof fn lemma_what_is_written_arrives<R: RandomProvider>(
    w: WorldView<R>,
    limit: nat,
    from: u64,
    to: u64,
    data: Seq<u8>,
    token: u64,
)
    requires
        flowing(w, from, to),
        sending(w, from),
        calm(w),
        data.len() <= usize::MAX,
        write_polled(w, from, data, token).0 is Ready,
        ran(write_polled(w, from, data, token).1, limit).1,
        w.next_sequence + 1 + limit * (w.net.next_connection_id + 2) <= u64::MAX,
    ensures
        write_polled(w, from, data, token).0 == StreamPoll::Ready(data.len() as usize),
        ran(
            write_polled(w, from, data, token).1,
            limit,
        ).0.net.connections[to].receive_buffer == stream(w, from, to) + data,
{
    assert(limit * (w.net.next_connection_id + 2) >= 0) by (nonlinear_arith)
        requires
            limit >= 0,
            w.net.next_connection_id >= 0,
    ;
    let (r, v) = write_polled(w, from, data, token);
    lemma_write_takes_all(w, from, to, data, token);
    assert(v.next_sequence <= w.next_sequence + 1);
    assert(v.net.next_connection_id == w.net.next_connection_id);
    assert(calm(v));
    lemma_all_arrives_in_order(v, limit, from, to);
}

} // verus!
