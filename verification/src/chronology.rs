//! Why simulated time never runs backwards.

use crate::config::{NetworkConfiguration, duration_draw};
use crate::counts::next_count;
use crate::events::{
    ConnectionStateChange, EventView, ScheduledView, in_order, lemma_earliest_first,
    lemma_schedule_keeps_order, lemma_slot_for, slot_for,
};
use crate::random::{RandomProvider, ratio_below};
use crate::state::{ConnView, NetView, connection_partitioned, partitioned};
use crate::time::{MAX_NANOS, plus_nanos};
use crate::world::{
    WorldView, arrival_time, bytes_sent, clogs_cleared, conn_updated, data_sent, empty_world,
    event_processed, event_scheduled, message_taken, partition_rolled, partitions_rolled,
    partitions_triggered, ran, remainder_kept, send_processed,
    sender_continued, sender_idle, stepped, travel_delay,
};
use vstd::prelude::*;

verus! {

/// The events to come are in order and none of them is in the past.
pub open spec fn looks_ahead<R>(w: WorldView<R>) -> bool {
    &&& in_order(w.queue)
    &&& w.now <= MAX_NANOS
    &&& forall|i: int|
        0 <= i < w.queue.len() ==> w.now <= (#[trigger] w.queue[i]).time <= MAX_NANOS
}

/// A world before anything happened looks ahead.
pub proof fn lemma_empty_world_looks_ahead<R>(config: NetworkConfiguration, rng: R)
    ensures
        looks_ahead(empty_world(config, rng)),
{
}

/// A world that looks ahead still does with an event that is not in its past.
pub proof fn lemma_event_ahead<R>(w: WorldView<R>, time: nat, event: EventView)
    requires
        looks_ahead(w),
        w.now <= time <= MAX_NANOS,
    ensures
        looks_ahead(event_scheduled(w, time, event)),
{
    let e = ScheduledView { time, event, sequence: w.next_sequence };
    let v = event_scheduled(w, time, event);
    lemma_schedule_keeps_order(w.queue, e);
    lemma_slot_for(w.queue, e);
    let p = slot_for(w.queue, e);
    assert forall|i: int| 0 <= i < v.queue.len() implies v.now <= (#[trigger] v.queue[i]).time
        <= MAX_NANOS by {
        if i < p {
            assert(v.queue[i] == w.queue[i]);
        } else if i > p {
            assert(v.queue[i] == w.queue[i - 1]);
        }
    }
}

/// An event after a delay is not in the past.
pub proof fn lemma_delay_is_ahead<R>(w: WorldView<R>, delay: nat, event: EventView)
    requires
        looks_ahead(w),
    ensures
        looks_ahead(event_scheduled(w, plus_nanos(w.now, delay), event)),
{
    lemma_event_ahead(w, plus_nanos(w.now, delay), event);
}

proof fn lemma_rolls_ahead<R: RandomProvider>(w: WorldView<R>, upto: int)
    requires
        looks_ahead(w),
        0 <= upto <= u64::MAX,
    ensures
        looks_ahead(partitions_rolled(w, upto)),
        partitions_rolled(w, upto).now == w.now,
    decreases upto,
{
    if upto > 0 {
        lemma_rolls_ahead(w, upto - 1);
        let u = partitions_rolled(w, upto - 1);
        let id = (upto - 1) as u64;
        let c = u.net.connections[id];
        let (ratio, rng) = u.rng.ratio_draw();
        if u.net.connections.contains_key(id) && c.local_ip is Some && c.remote_ip is Some
            && !partitioned(u.net, c.local_ip->0, c.remote_ip->0, u.now) && ratio_below(
            ratio,
            u.net.config.chaos.partition_probability,
        ) {
            let (nanos, rng) = duration_draw(rng, u.net.config.chaos.partition_duration);
            let expires_at = plus_nanos(u.now, nanos as nat);
            let u1 = WorldView {
                rng,
                net: NetView {
                    ip_partitions: u.net.ip_partitions.insert(
                        (c.local_ip->0, c.remote_ip->0),
                        expires_at,
                    ),
                    ..u.net
                },
                ..u
            };
            let event = EventView::Connection {
                id: 0,
                state: ConnectionStateChange::PartitionRestore,
            };
            lemma_event_ahead(u1, expires_at, event);
            assert(partition_rolled(u, id) == event_scheduled(u1, expires_at, event));
        }
    }
}

proof fn lemma_continuing_ahead<R>(w: WorldView<R>, id: u64)
    requires
        looks_ahead(w),
    ensures
        looks_ahead(sender_continued(w, id)),
        sender_continued(w, id).now == w.now,
{
    if w.net.connections[id].send_buffer.len() > 0 {
        lemma_event_ahead(w, w.now, EventView::ProcessSendBuffer { connection_id: id });
    }
}

proof fn lemma_sending_ahead<R: RandomProvider>(w: WorldView<R>, id: u64)
    requires
        looks_ahead(w),
    ensures
        looks_ahead(send_processed(w, id)),
        send_processed(w, id).now == w.now,
{
    if w.net.connections.contains_key(id) && w.net.connections[id].send_buffer.len() > 0 {
        if connection_partitioned(w.net, id, w.now) {
            lemma_continuing_ahead(message_taken(w, id), id);
        } else {
            let message = w.net.connections[id].send_buffer[0];
            let (n, w2) = bytes_sent(message_taken(w, id), message.len());
            let (delay, w4) = travel_delay(remainder_kept(w2, id, message, n), id);
            let c = w4.net.connections[id];
            let arrival = arrival_time(w4, id, delay);
            let w5 = conn_updated(w4, id, ConnView { next_send_time: plus_nanos(arrival, 1), ..c });
            let w6 = data_sent(w4, id, arrival, message.take(n as int));
            if c.paired_connection is Some {
                lemma_event_ahead(
                    w5,
                    arrival,
                    EventView::DataDelivery {
                        connection_id: (c.paired_connection->0).0,
                        data: message.take(n as int),
                    },
                );
            }
            lemma_continuing_ahead(w6, id);
            assert(send_processed(w, id) == sender_continued(w6, id));
        }
    } else if w.net.connections.contains_key(id) {
        assert(send_processed(w, id) == sender_idle(w, id));
    }
}

/// Time moves on from event to event and never back.
pub proof fn lemma_time_moves_on<R: RandomProvider>(w: WorldView<R>)
    requires
        looks_ahead(w),
    ensures
        looks_ahead(stepped(w)),
        w.now <= stepped(w).now,
        w.queue.len() > 0 ==> stepped(w).now == w.queue[0].time,
{
    if w.queue.len() > 0 {
        let w1 = WorldView { now: w.queue[0].time, queue: w.queue.drop_first(), ..w };
        let w2 = clogs_cleared(w1);
        lemma_earliest_first(w.queue);
        assert forall|i: int| 0 <= i < w2.queue.len() implies w2.now <= (
        #[trigger] w2.queue[i]).time <= MAX_NANOS by {
            assert(w2.queue[i] == w.queue[i + 1]);
        }
        assert(looks_ahead(w2));
        if w2.net.config.chaos.partition_probability != 0 {
            lemma_rolls_ahead(w2, w2.net.next_connection_id as int);
        }
        let r = partitions_triggered(w2);
        let r1 = WorldView { events_processed: next_count(r.events_processed), ..r };
        let v = stepped(w);
        assert(v == event_processed(r, w.queue[0].event));
        match w.queue[0].event {
            EventView::ProcessSendBuffer { connection_id } => {
                lemma_sending_ahead(r1, connection_id);
            },
            _ => {
                assert(v.queue == r1.queue);
                assert(v.now == r1.now);
            },
        }
    }
}

/// In a run of any length time never runs backwards.
pub proof fn lemma_run_moves_on<R: RandomProvider>(w: WorldView<R>, limit: nat)
    requires
        looks_ahead(w),
    ensures
        looks_ahead(ran(w, limit).0),
        w.now <= ran(w, limit).0.now,
    decreases limit,
{
    if limit > 0 {
        lemma_time_moves_on(w);
        lemma_run_moves_on(stepped(w), (limit - 1) as nat);
    }
}

} // verus!
