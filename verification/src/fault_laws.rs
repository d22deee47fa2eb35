//! What faults do, when they are injected and when not.

use crate::buggify::{BuggifyView, buggify_draw};
use crate::connections::{clog_decided, is_cut_now, latency_set, random_close_rolled};
use crate::events::{ConnectionStateChange, EventView};
use crate::faults::{
    base_latency, cut_for, delays_set, pair_partitioned_for, pair_restored, read_clogged,
    recv_partitioned_for, send_partitioned_for, write_clogged,
};
use crate::latency::{
    drawable, is_queued, lemma_drawn_number_is_in_range, lemma_drawn_span_is_in_range,
    lemma_event_is_queued, longest,
};
use crate::random::RandomProvider;
use crate::state::{ConnectionId, IpAddr, NetView, partitioned};
use crate::stream::{read_polled, write_polled};
use crate::time::MAX_NANOS;
use crate::world::{
    WorldView, at_delivery, bits_flipped, bytes_sent, corrupted, event_handled, flip_bit_count,
    partition_rolled, partitions_rolled, partitions_triggered, receive_delay, send_delay,
};
use vstd::prelude::*;

verus! {

/// While fault injection is on, an active location fires if and only if the ratio that is
/// drawn for the call lies below the given probability; in particular it always fires where
/// that is one. Whether a location is active is decided by a ratio that is drawn at its first
/// call, against the probability that locations are active with. Nothing fires and nothing is
/// drawn while fault injection is off, or where the probability is zero.
pub proof fn lemma_active_locations_fire<R: RandomProvider>(
    b: BuggifyView,
    rng: R,
    ppm: u32,
    at: Seq<char>,
)
    ensures
        ({
            let (fires, after, left) = buggify_draw(b, rng, ppm, at);
            let first = rng.ratio_draw();
            let second = first.1.ratio_draw();
            &&& !b.enabled || ppm == 0 ==> !fires && after == b && left == rng
            &&& b.enabled && ppm > 0 && b.active.contains_key(at) && b.active[at] ==> {
                &&& fires <==> first.0 * 1_000_000 < ppm * 9_007_199_254_740_992
                &&& ppm >= 1_000_000 ==> fires
                &&& left == first.1
                &&& after == b
            }
            &&& b.enabled && ppm > 0 && b.active.contains_key(at) && !b.active[at] ==> !fires
                && after == b && left == rng
            &&& b.enabled && ppm > 0 && !b.active.contains_key(at) ==> {
                let active = first.0 * 1_000_000 < b.activation * 9_007_199_254_740_992;
                &&& after == BuggifyView { active: b.active.insert(at, active), ..b }
                &&& fires <==> active && second.0 * 1_000_000 < ppm * 9_007_199_254_740_992
                &&& b.activation >= 1_000_000 && ppm >= 1_000_000 ==> fires
                &&& b.activation == 0 ==> !active
                &&& left == (if active {
                    second.1
                } else {
                    first.1
                })
            }
        }),
{
    rng.lemma_draws(0, 0);
    rng.ratio_draw().1.lemma_draws(0, 0);
}

/// Flipping bits keeps the length of data and changes no more bytes than there are flips.
proof fn lemma_flips_keep_length<R: RandomProvider>(
    rng: R,
    data: Seq<u8>,
    flipped: Set<(u64, u64)>,
    n: nat,
)
    requires
        data.len() > 0,
    ensures
        bits_flipped(rng, data, flipped, n).0.len() == data.len(),
    decreases n,
{
    if n > 0 {
        let (a, rng) = rng.number_draw();
        let (b, rng) = rng.number_draw();
        let byte = (a as int % data.len() as int) as u64;
        let bit = (b % 8) as u64;
        if flipped.contains((byte, bit)) {
            lemma_flips_keep_length(rng, data, flipped, (n - 1) as nat);
        } else {
            lemma_flips_keep_length(
                rng,
                data.update(byte as int, data[byte as int] ^ (1u8 << (bit as u8))),
                flipped.insert((byte, bit)),
                (n - 1) as nat,
            );
        }
    }
}

/// However data is corrupted, as many bytes arrive as were sent; without fault injection,
/// and where bits are not to be flipped, those that were sent.
pub proof fn lemma_corruption_keeps_length<R: RandomProvider>(w: WorldView<R>, data: Seq<u8>)
    ensures
        corrupted(w, data).0.len() == data.len(),
        corrupted(w, data).1.net == w.net,
        corrupted(w, data).1.wakers == w.wakers,
        corrupted(w, data).1.woken == w.woken,
        corrupted(w, data).1.queue == w.queue,
        corrupted(w, data).1.now == w.now,
        !w.buggify.enabled || w.net.config.chaos.bit_flip_probability == 0 ==> corrupted(w, data)
            == (data, w),
{
    let chaos = w.net.config.chaos;
    let (fires, buggify, rng) = buggify_draw(
        w.buggify,
        w.rng,
        chaos.bit_flip_probability,
        crate::world::at_delivery(),
    );
    let (number, rng) = rng.number_draw();
    let count = crate::world::flip_bit_count(
        (number % 0x1_0000_0000) as u32,
        chaos.bit_flip_min_bits,
        chaos.bit_flip_max_bits,
    );
    if data.len() > 0 {
        lemma_flips_keep_length(rng, data, Set::empty(), count as nat);
    }
}

/// Whether a time is an end of a span that begins now, of a length within a range.
pub open spec fn ends_within(
    until: nat,
    now: nat,
    r: crate::time::DurationRange,
) -> bool {
    until <= MAX_NANOS && (until >= now + r.start@ || until == MAX_NANOS) && until <= now + longest(
        r,
    )
}

/// A clog lasts for a time within its range: while it does nothing can be written, and the
/// task that tries waits; its end is scheduled, and then the tasks that waited are woken in the
/// order in which they came, and the clog is gone.
pub proof fn lemma_clogs_last_and_end<R: RandomProvider>(
    w: WorldView<R>,
    id: u64,
    data: Seq<u8>,
    token: u64,
)
    requires
        drawable(w.net.config.chaos.clog_duration),
        w.now <= MAX_NANOS,
    ensures
        ({
            let v = write_clogged(w, id);
            let until = v.net.connection_clogs[id];
            let over = event_handled(
                v,
                EventView::Connection { id, state: ConnectionStateChange::ClogClear },
            );
            &&& v.net.connection_clogs.contains_key(id)
            &&& ends_within(until, w.now, w.net.config.chaos.clog_duration)
            &&& is_queued(
                v.queue,
                until,
                EventView::Connection { id, state: ConnectionStateChange::ClogClear },
            )
            &&& v.net.connections == w.net.connections
            &&& w.now < until ==> !(write_polled(v, id, data, token).0 is Ready)
            &&& !over.net.connection_clogs.contains_key(id)
            &&& w.wakers.clog_wakers.contains_key(id) ==> over.woken == w.woken
                + w.wakers.clog_wakers[id]
            &&& !w.wakers.clog_wakers.contains_key(id) ==> over.woken == w.woken
            &&& !over.wakers.clog_wakers.contains_key(id)
        }),
{
    let chaos = w.net.config.chaos;
    lemma_drawn_span_is_in_range(w.rng, chaos.clog_duration);
    let (nanos, rng) = crate::config::duration_draw(w.rng, chaos.clog_duration);
    let until = crate::time::plus_nanos(w.now, nanos as nat);
    let clogged = WorldView {
        rng,
        net: crate::state::NetView {
            connection_clogs: w.net.connection_clogs.insert(id, until),
            ..w.net
        },
        ..w
    };
    lemma_event_is_queued(
        clogged,
        until,
        EventView::Connection { id, state: ConnectionStateChange::ClogClear },
    );
    let v = write_clogged(w, id);
    let over = event_handled(
        v,
        EventView::Connection { id, state: ConnectionStateChange::ClogClear },
    );
    if !w.wakers.clog_wakers.contains_key(id) {
        assert(over.woken =~= w.woken);
    }
}

/// A clog of what a connection reads lasts for a time within its range; its end is scheduled,
/// and then the tasks that waited are woken in the order in which they came, and the clog is
/// gone.
pub proof fn lemma_read_clogs_last_and_end<R: RandomProvider>(w: WorldView<R>, id: u64)
    requires
        drawable(w.net.config.chaos.clog_duration),
        w.now <= MAX_NANOS,
    ensures
        ({
            let v = read_clogged(w, id);
            let until = v.net.read_clogs[id];
            let over = event_handled(
                v,
                EventView::Connection { id, state: ConnectionStateChange::ReadClogClear },
            );
            &&& v.net.read_clogs.contains_key(id)
            &&& ends_within(until, w.now, w.net.config.chaos.clog_duration)
            &&& is_queued(
                v.queue,
                until,
                EventView::Connection { id, state: ConnectionStateChange::ReadClogClear },
            )
            &&& v.net.connections == w.net.connections
            &&& !over.net.read_clogs.contains_key(id)
            &&& w.wakers.read_clog_wakers.contains_key(id) ==> over.woken == w.woken
                + w.wakers.read_clog_wakers[id]
            &&& !w.wakers.read_clog_wakers.contains_key(id) ==> over.woken == w.woken
        }),
{
    let chaos = w.net.config.chaos;
    lemma_drawn_span_is_in_range(w.rng, chaos.clog_duration);
    let (nanos, rng) = crate::config::duration_draw(w.rng, chaos.clog_duration);
    let until = crate::time::plus_nanos(w.now, nanos as nat);
    let stuck = WorldView {
        rng,
        net: crate::state::NetView {
            read_clogs: w.net.read_clogs.insert(id, until),
            ..w.net
        },
        ..w
    };
    lemma_event_is_queued(
        stuck,
        until,
        EventView::Connection { id, state: ConnectionStateChange::ReadClogClear },
    );
    let u = read_clogged(w, id);
    let after = event_handled(
        u,
        EventView::Connection { id, state: ConnectionStateChange::ReadClogClear },
    );
    if !w.wakers.read_clog_wakers.contains_key(id) {
        assert(after.woken =~= w.woken);
    }
}

/// A write to an open connection that is neither cut nor clogged comes to a clog exactly where
/// the ratio that is drawn for it lies below the probability: then it waits, the connection is
/// clogged for a time within the range, and the task is among those that wait for the end. A
/// task that finds a clog joins those that wait for its end.
pub proof fn lemma_writes_clog_by_chance<R: RandomProvider>(
    w: WorldView<R>,
    id: u64,
    data: Seq<u8>,
    token: u64,
)
    requires
        w.net.connections.contains_key(id),
        !w.net.connections[id].is_closed,
        !w.net.connections[id].send_closed,
        !w.net.connections[id].is_cut,
        drawable(w.net.config.chaos.clog_duration),
        w.now <= MAX_NANOS,
    ensures
        ({
            let (r, v) = write_polled(w, id, data, token);
            let ppm = w.net.config.chaos.clog_probability;
            let clogged = w.net.connection_clogs.contains_key(id);
            &&& !clogged ==> (r is Pending <==> ppm > 0 && w.rng.ratio_draw().0 * 1_000_000 < ppm
                * 9_007_199_254_740_992)
            &&& !clogged && ppm >= 1_000_000 ==> r is Pending
            &&& clogged ==> (r is Pending <==> w.now < w.net.connection_clogs[id])
            &&& r is Pending || r is Ready
            &&& r is Pending ==> {
                &&& v.wakers.clog_wakers.contains_key(id)
                &&& v.wakers.clog_wakers[id].last() == token
                &&& w.wakers.clog_wakers.contains_key(id) ==> v.wakers.clog_wakers[id]
                    == w.wakers.clog_wakers[id].push(token)
                &&& v.net.connection_clogs.contains_key(id)
                &&& !clogged ==> ends_within(
                    v.net.connection_clogs[id],
                    w.now,
                    w.net.config.chaos.clog_duration,
                )
            }
        }),
        ({
            let (b, v) = clog_decided(w, w.net.read_clogs, id);
            let ppm = w.net.config.chaos.clog_probability;
            &&& w.net.read_clogs.contains_key(id) ==> (b <==> w.now < w.net.read_clogs[id])
            &&& !w.net.read_clogs.contains_key(id) ==> (b <==> ppm > 0 && w.rng.ratio_draw().0
                * 1_000_000 < ppm * 9_007_199_254_740_992)
        }),
{
    w.rng.lemma_draws(0, 0);
    let chaos = w.net.config.chaos;
    let (clogs, w1) = clog_decided(w, w.net.connection_clogs, id);
    lemma_drawn_span_is_in_range(w1.rng, chaos.clog_duration);
}

/// A connection that was cut is cut for just that time: until then nothing can be read or
/// written at that end and the tasks that try wait for the end of the cut; its end is
/// scheduled, and then the connection works again and the tasks that waited are woken in the
/// order in which they came.
pub proof fn lemma_cuts_last_and_end<R: RandomProvider>(
    w: WorldView<R>,
    id: u64,
    duration: nat,
    later: nat,
    data: Seq<u8>,
    max: nat,
    token: u64,
)
    requires
        w.net.connections.contains_key(id),
        !w.net.connections[id].is_closed,
        !w.net.connections[id].send_closed,
        w.now + duration <= MAX_NANOS,
    ensures
        ({
            let v = cut_for(w, id, duration);
            let at = WorldView { now: later, ..v };
            let restored = event_handled(
                v,
                EventView::Connection { id, state: ConnectionStateChange::CutRestore },
            );
            let (read, read_after) = read_polled(at, id, max, token);
            let (write, write_after) = write_polled(at, id, data, token);
            &&& is_cut_now(at, id) <==> later < w.now + duration
            &&& later < w.now + duration ==> {
                &&& read is Pending && write is Pending
                &&& read_after.wakers.cut_wakers[id].last() == token
                &&& write_after.wakers.cut_wakers[id].last() == token
                &&& read_after.net == v.net && write_after.net == v.net
            }
            &&& later >= w.now + duration && max > 0 && v.net.connections[id].receive_buffer.len()
                > 0 ==> read is Ready
            &&& is_queued(
                v.queue,
                w.now + duration,
                EventView::Connection { id, state: ConnectionStateChange::CutRestore },
            )
            &&& v.net.connections[id].receive_buffer == w.net.connections[id].receive_buffer
            &&& v.net.connections[id].send_buffer == w.net.connections[id].send_buffer
            &&& !is_cut_now(restored, id)
            &&& !restored.net.connections[id].is_cut
            &&& w.wakers.cut_wakers.contains_key(id) ==> restored.woken == w.woken
                + w.wakers.cut_wakers[id]
            &&& !w.wakers.cut_wakers.contains_key(id) ==> restored.woken == w.woken
        }),
{
    let v = cut_for(w, id, duration);
    let until = w.now + duration;
    let cut = crate::world::conn_updated(
        w,
        id,
        crate::state::ConnView {
            is_cut: true,
            cut_expiry: Some(until),
            ..w.net.connections[id]
        },
    );
    lemma_event_is_queued(
        cut,
        until,
        EventView::Connection { id, state: ConnectionStateChange::CutRestore },
    );
    let restored = event_handled(
        v,
        EventView::Connection { id, state: ConnectionStateChange::CutRestore },
    );
    if !w.wakers.cut_wakers.contains_key(id) {
        assert(restored.woken =~= w.woken);
    }
}

/// Whether nothing gets from one address to another, told by what blocks it: the pair, the
/// sender or the receiver.
pub open spec fn cut_off<R>(w: WorldView<R>, from: IpAddr, to: IpAddr, now: nat) -> bool {
    ||| w.net.ip_partitions.contains_key((from, to)) && now < w.net.ip_partitions[(from, to)]
    ||| w.net.send_partitions.contains_key(from) && now < w.net.send_partitions[from]
    ||| w.net.recv_partitions.contains_key(to) && now < w.net.recv_partitions[to]
}

/// A partition blocks, for just the time that it was made for, what it was made for: the way
/// from one address to another but not the way back, all that an address sends, or all that it
/// receives. Its end is scheduled, and what is over is forgotten then.
pub proof fn lemma_partitions_last_and_end<R: RandomProvider>(
    w: WorldView<R>,
    from: IpAddr,
    to: IpAddr,
    duration: nat,
    later: nat,
    a: IpAddr,
    b: IpAddr,
)
    requires
        w.now + duration <= MAX_NANOS,
    ensures
        partitioned(w.net, a, b, later) <==> cut_off(w, a, b, later),
        ({
            let v = pair_partitioned_for(w, from, to, duration);
            let at_end = WorldView { now: later, ..v };
            let over = event_handled(
                at_end,
                EventView::Connection { id: 0, state: ConnectionStateChange::PartitionRestore },
            );
            &&& later < w.now + duration ==> partitioned(v.net, from, to, later)
            &&& (a, b) != (from, to) ==> (partitioned(v.net, a, b, later) <==> partitioned(
                w.net,
                a,
                b,
                later,
            ))
            &&& is_queued(
                v.queue,
                w.now + duration,
                EventView::Connection { id: 0, state: ConnectionStateChange::PartitionRestore },
            )
            &&& later >= w.now + duration ==> !over.net.ip_partitions.contains_key((from, to))
            &&& later < w.now + duration ==> over.net.ip_partitions.contains_key((from, to))
            &&& partitioned(over.net, a, b, later) <==> partitioned(v.net, a, b, later)
        }),
        ({
            let v = send_partitioned_for(w, from, duration);
            &&& later < w.now + duration ==> partitioned(v.net, from, b, later)
            &&& a != from ==> (partitioned(v.net, a, b, later) <==> partitioned(
                w.net,
                a,
                b,
                later,
            ))
            &&& later >= w.now + duration && !cut_off(
                (WorldView {
                    net: crate::state::NetView {
                        send_partitions: w.net.send_partitions.remove(from),
                        ..w.net
                    },
                    ..w
                }),
                from,
                b,
                later,
            ) ==> !partitioned(v.net, from, b, later)
            &&& is_queued(
                v.queue,
                w.now + duration,
                EventView::Connection { id: 0, state: ConnectionStateChange::SendPartitionClear },
            )
        }),
        ({
            let v = recv_partitioned_for(w, to, duration);
            &&& later < w.now + duration ==> partitioned(v.net, a, to, later)
            &&& b != to ==> (partitioned(v.net, a, b, later) <==> partitioned(w.net, a, b, later))
            &&& is_queued(
                v.queue,
                w.now + duration,
                EventView::Connection { id: 0, state: ConnectionStateChange::RecvPartitionClear },
            )
        }),
{
    let until = w.now + duration;
    let w1 = WorldView {
        net: crate::state::NetView {
            ip_partitions: w.net.ip_partitions.insert((from, to), until),
            ..w.net
        },
        ..w
    };
    lemma_event_is_queued(
        w1,
        until,
        EventView::Connection { id: 0, state: ConnectionStateChange::PartitionRestore },
    );
    let w2 = WorldView {
        net: crate::state::NetView {
            send_partitions: w.net.send_partitions.insert(from, until),
            ..w.net
        },
        ..w
    };
    lemma_event_is_queued(
        w2,
        until,
        EventView::Connection { id: 0, state: ConnectionStateChange::SendPartitionClear },
    );
    let w3 = WorldView {
        net: crate::state::NetView {
            recv_partitions: w.net.recv_partitions.insert(to, until),
            ..w.net
        },
        ..w
    };
    lemma_event_is_queued(
        w3,
        until,
        EventView::Connection { id: 0, state: ConnectionStateChange::RecvPartitionClear },
    );
}

/// A message that a connection would send while its way is blocked is lost, and no other: it
/// leaves the send buffer and nothing is on its way but what was.
pub proof fn lemma_partitions_lose_messages<R: RandomProvider>(
    w: WorldView<R>,
    id: u64,
    from: IpAddr,
    to: IpAddr,
)
    requires
        w.net.connections.contains_key(id),
        w.net.connections[id].local_ip == Some(from),
        w.net.connections[id].remote_ip == Some(to),
        w.net.connections[id].send_buffer.len() > 0,
        cut_off(w, from, to, w.now),
    ensures
        ({
            let v = event_handled(w, EventView::ProcessSendBuffer { connection_id: id });
            let before = w.net.connections[id].send_buffer;
            &&& v.net.connections[id].send_buffer == before.skip(1)
            &&& before.len() == 1 ==> v.queue == w.queue && !v.net.connections[id].send_in_progress
            &&& before.len() > 1 ==> v.queue == crate::world::event_scheduled(
                w,
                w.now,
                EventView::ProcessSendBuffer { connection_id: id },
            ).queue
            &&& forall|other: u64|
                other != id ==> #[trigger] v.net.connections[other] == w.net.connections[other]
        }),
{
    let before = w.net.connections[id].send_buffer;
    assert(before.drop_first() =~= before.skip(1));
}

/// Partitions come at random exactly where the ratio that is drawn for a connection lies
/// below the probability: for a connection with known addresses whose way is not blocked yet,
/// and then for a time within the range. Without a probability none comes and nothing is drawn.
pub proof fn lemma_partitions_come_by_chance<R: RandomProvider>(
    w: WorldView<R>,
    id: u64,
    from: IpAddr,
    to: IpAddr,
)
    requires
        w.net.connections.contains_key(id),
        w.net.connections[id].local_ip == Some(from),
        w.net.connections[id].remote_ip == Some(to),
        !cut_off(w, from, to, w.now),
        drawable(w.net.config.chaos.partition_duration),
        w.now <= MAX_NANOS,
    ensures
        w.net.config.chaos.partition_probability == 0 ==> partitions_triggered(w) == w,
        ({
            let v = partition_rolled(w, id);
            let ppm = w.net.config.chaos.partition_probability;
            let comes = w.rng.ratio_draw().0 * 1_000_000 < ppm * 9_007_199_254_740_992;
            &&& comes ==> v.net.ip_partitions.contains_key((from, to)) && ends_within(
                v.net.ip_partitions[(from, to)],
                w.now,
                w.net.config.chaos.partition_duration,
            ) && is_queued(
                v.queue,
                v.net.ip_partitions[(from, to)],
                EventView::Connection { id: 0, state: ConnectionStateChange::PartitionRestore },
            )
            &&& !comes ==> v.net == w.net && v.queue == w.queue
            &&& v.net.connections == w.net.connections
            &&& ppm >= 1_000_000 ==> comes
        }),
{
    w.rng.lemma_draws(0, 0);
    let (ratio, rng) = w.rng.ratio_draw();
    lemma_drawn_span_is_in_range(rng, w.net.config.chaos.partition_duration);
    let (nanos, rng1) = crate::config::duration_draw(rng, w.net.config.chaos.partition_duration);
    let until = crate::time::plus_nanos(w.now, nanos as nat);
    let w1 = WorldView {
        rng: rng1,
        net: crate::state::NetView {
            ip_partitions: w.net.ip_partitions.insert((from, to), until),
            ..w.net
        },
        ..w
    };
    lemma_event_is_queued(
        w1,
        until,
        EventView::Connection { id: 0, state: ConnectionStateChange::PartitionRestore },
    );
}

/// A connection is closed at random exactly where its fault fires and the last such close
/// is long enough ago. Then its sending side is closed, or the receiving side of its other end,
/// or both: never none. How the caller learns of it is drawn too.
pub proof fn lemma_random_closes_close<R: RandomProvider>(w: WorldView<R>, id: u64, other: u64)
    requires
        w.net.connections.contains_key(id),
        w.net.connections.contains_key(other),
        id != other,
        w.net.connections[id].paired_connection == Some(ConnectionId(other)),
        w.net.last_random_close_time <= w.now,
    ensures
        ({
            let (r, v) = random_close_rolled(w, id);
            let chaos = w.net.config.chaos;
            let (fires, _, rng) = buggify_draw(
                w.buggify,
                w.rng,
                chaos.random_close_probability,
                crate::world::at_random_close(),
            );
            let a = rng.ratio_draw();
            let b = a.1.ratio_draw();
            let due = w.now - w.net.last_random_close_time >= chaos.random_close_cooldown@;
            &&& r is Some <==> due && fires
            &&& !w.buggify.enabled || chaos.random_close_probability == 0 || !due ==> r is None
                && v.net == w.net
            &&& r is None ==> v.net == w.net
            &&& r is Some ==> {
                &&& v.net.connections[id].send_closed || v.net.connections[other].recv_closed
                &&& v.net.last_random_close_time == w.now
                &&& v.net.connections[id].send_closed <==> w.net.connections[id].send_closed
                    || a.0 * 1_000_000 > 330_000 * 9_007_199_254_740_992
                &&& v.net.connections[other].recv_closed <==> w.net.connections[other].recv_closed
                    || a.0 * 1_000_000 < 660_000 * 9_007_199_254_740_992
                &&& r->0 <==> b.0 * 1_000_000 < chaos.random_close_explicit_ratio
                    * 9_007_199_254_740_992
            }
        }),
{
}

/// A write is cut short only by its fault, and then at most so many bytes are sent at once as
/// is configured, and never more than there are. Without fault injection all are.
pub proof fn lemma_partial_writes_are_bounded<R: RandomProvider>(w: WorldView<R>, len: nat)
    requires
        w.net.config.chaos.partial_write_max_bytes < u64::MAX,
        len < u64::MAX,
    ensures
        ({
            let (n, v) = bytes_sent(w, len);
            let (fires, _, rng) = buggify_draw(
                w.buggify,
                w.rng,
                250_000,
                crate::world::at_send(),
            );
            let most = if len < w.net.config.chaos.partial_write_max_bytes {
                len
            } else {
                w.net.config.chaos.partial_write_max_bytes as nat
            };
            &&& n <= len
            &&& !w.buggify.enabled || !fires ==> n == len
            &&& fires ==> n <= most && n == rng.range_draw(0, (most + 1) as u64).0 || len == 0
            &&& v.net == w.net && v.queue == w.queue && v.now == w.now
        }),
{
    let (fires, _, rng) = buggify_draw(w.buggify, w.rng, 250_000, crate::world::at_send());
    let most: u64 = if len < w.net.config.chaos.partial_write_max_bytes {
        len as u64
    } else {
        w.net.config.chaos.partial_write_max_bytes
    };
    lemma_drawn_number_is_in_range(rng, 0, (most + 1) as u64);
    rng.lemma_draws(0, (most + 1) as u64);
}

/// How many bits are flipped lies within the configured bounds; where most random numbers
/// lie, in their upper half, it is the fewest, one where that is allowed.
pub proof fn lemma_flip_counts_are_bounded(random_value: u32, min_bits: u32, max_bits: u32)
    requires
        min_bits <= max_bits,
    ensures
        flip_bit_count(random_value, min_bits, max_bits) <= max_bits,
        flip_bit_count(random_value, min_bits, max_bits) >= min_bits || random_value == 0,
        random_value >= 0x8000_0000 && min_bits <= 1 <= max_bits ==> flip_bit_count(
            random_value,
            min_bits,
            max_bits,
        ) == 1,
{
    vstd::std_specs::bits::axiom_u32_leading_zeros(random_value);
    if vstd::std_specs::bits::u32_leading_zeros(random_value) >= 1 {
        assert((random_value >> 31u32) & 1u32 == 0u32);
        assert(random_value < 0x8000_0000u32) by (bit_vector)
            requires
                (random_value >> 31u32) & 1u32 == 0u32,
        ;
    }
}

/// The bit at a position of some data.
spec fn bit_of(data: Seq<u8>, p: (u64, u64)) -> bool {
    (data[p.0 as int] >> (p.1 as u8)) & 1u8 == 1u8
}

proof fn lemma_flip_one(x: u8, b: u8, c: u8)
    requires
        b < 8,
        c < 8,
    ensures
        ((x ^ (1u8 << b)) >> b) & 1u8 != (x >> b) & 1u8,
        c != b ==> ((x ^ (1u8 << b)) >> c) & 1u8 == (x >> c) & 1u8,
        (x >> b) & 1u8 == 0u8 || (x >> b) & 1u8 == 1u8,
        ((x ^ (1u8 << b)) >> b) & 1u8 == 0u8 || ((x ^ (1u8 << b)) >> b) & 1u8 == 1u8,
{
    assert(((x ^ (1u8 << b)) >> b) & 1u8 != (x >> b) & 1u8) by (bit_vector)
        requires
            b < 8,
    ;
    assert(c != b ==> ((x ^ (1u8 << b)) >> c) & 1u8 == (x >> c) & 1u8) by (bit_vector)
        requires
            b < 8,
            c < 8,
    ;
    assert((x >> b) & 1u8 == 0u8 || (x >> b) & 1u8 == 1u8) by (bit_vector);
    assert(((x ^ (1u8 << b)) >> b) & 1u8 == 0u8 || ((x ^ (1u8 << b)) >> b) & 1u8 == 1u8)
        by (bit_vector);
}

/// A position that was flipped is not flipped again.
proof fn lemma_flipped_stay<R: RandomProvider>(
    rng: R,
    data: Seq<u8>,
    flipped: Set<(u64, u64)>,
    n: nat,
    p: (u64, u64),
)
    requires
        0 < data.len() <= u64::MAX,
        flipped.contains(p),
        p.0 < data.len(),
        p.1 < 8,
    ensures
        bits_flipped(rng, data, flipped, n).0.len() == data.len(),
        bit_of(bits_flipped(rng, data, flipped, n).0, p) == bit_of(data, p),
    decreases n,
{
    if n > 0 {
        let (a, rng) = rng.number_draw();
        let (b, rng) = rng.number_draw();
        let byte = (a as int % data.len() as int) as u64;
        let bit = (b % 8) as u64;
        assert(0 <= a as int % data.len() as int && (a as int % data.len() as int) < data.len())
            by (nonlinear_arith)
            requires
                data.len() > 0,
                a >= 0,
        ;
        if flipped.contains((byte, bit)) {
            lemma_flipped_stay(rng, data, flipped, (n - 1) as nat, p);
        } else {
            let after = data.update(byte as int, data[byte as int] ^ (1u8 << (bit as u8)));
            lemma_flip_one(data[byte as int], bit as u8, p.1 as u8);
            assert(bit_of(after, p) == bit_of(data, p));
            lemma_flipped_stay(rng, after, flipped.insert((byte, bit)), (n - 1) as nat, p);
        }
    }
}

/// Where the fault that corrupts data fires, and the last such fault is long enough ago, what
/// arrives differs from what was sent; where it does not fire, it does not. The fault is asked
/// for exactly for data that is delivered after the cooldown.
pub proof fn lemma_bit_flips_flip<R: RandomProvider>(w: WorldView<R>, data: Seq<u8>)
    requires
        0 < data.len() <= u64::MAX,
        w.last_bit_flip <= w.now,
        1 <= w.net.config.chaos.bit_flip_min_bits <= w.net.config.chaos.bit_flip_max_bits,
    ensures
        ({
            let (arrived, v) = corrupted(w, data);
            let chaos = w.net.config.chaos;
            let due = w.now - w.last_bit_flip >= chaos.bit_flip_cooldown@;
            let fires = buggify_draw(
                w.buggify,
                w.rng,
                chaos.bit_flip_probability,
                at_delivery(),
            ).0;
            &&& due && fires ==> arrived != data && v.last_bit_flip == w.now
            &&& !(due && fires) ==> arrived == data && v.last_bit_flip == w.last_bit_flip
        }),
{
    let chaos = w.net.config.chaos;
    let (fires, buggify, rng0) = buggify_draw(
        w.buggify,
        w.rng,
        chaos.bit_flip_probability,
        at_delivery(),
    );
    if w.now - w.last_bit_flip >= chaos.bit_flip_cooldown@ && fires {
        let (number, rng) = rng0.number_draw();
        let value = (number % 0x1_0000_0000) as u32;
        let count = flip_bit_count(value, chaos.bit_flip_min_bits, chaos.bit_flip_max_bits);
        assert(count >= 1);
        let (a, rng1) = rng.number_draw();
        let (b, rng2) = rng1.number_draw();
        let byte = (a as int % data.len() as int) as u64;
        let bit = (b % 8) as u64;
        assert(0 <= a as int % data.len() as int && (a as int % data.len() as int) < data.len())
            by (nonlinear_arith)
            requires
                data.len() > 0,
                a >= 0,
        ;
        let p = (byte, bit);
        let after = data.update(byte as int, data[byte as int] ^ (1u8 << (bit as u8)));
        let flipped = Set::<(u64, u64)>::empty().insert(p);
        lemma_flip_one(data[byte as int], bit as u8, bit as u8);
        assert(bit_of(after, p) != bit_of(data, p));
        lemma_flipped_stay(rng2, after, flipped, (count - 1) as nat, p);
        let arrived = corrupted(w, data).0;
        assert(arrived == bits_flipped(rng2, after, flipped, (count - 1) as nat).0);
        assert(bit_of(arrived, p) != bit_of(data, p));
    }
}

/// The base latency between two ends is drawn once, within the configured write latency, and
/// is the same from then on.
pub proof fn lemma_base_latency_stays<R: RandomProvider>(w: WorldView<R>, id: u64)
    requires
        drawable(w.net.config.write_latency),
    ensures
        ({
            let (d, v) = base_latency(w, id);
            let pair = crate::connections::address_pair(w, id);
            &&& base_latency(v, id) == (d, v)
            &&& v.net.pair_latencies.contains_key(pair) && v.net.pair_latencies[pair] == d
            &&& !w.net.pair_latencies.contains_key(pair) ==> w.net.config.write_latency.start@ <= d
                <= longest(w.net.config.write_latency)
            &&& w.net.pair_latencies.contains_key(pair) ==> d == w.net.pair_latencies[pair] && v
                == w
        }),
{
    lemma_drawn_span_is_in_range(w.rng, w.net.config.write_latency);
}

/// Delays that are set for a connection are those of its messages, in each direction, until
/// others are set; those of other connections do not change.
pub proof fn lemma_set_delays_are_kept<R: RandomProvider>(
    w: WorldView<R>,
    id: u64,
    peer: u64,
    send: nat,
    receive: nat,
)
    requires
        w.net.connections.contains_key(id),
        w.net.connections[id].send_buffer.len() == 0,
        id != peer,
    ensures
        ({
            let v = delays_set(w, id, Some(send), Some(receive));
            let none = delays_set(v, id, None, None);
            &&& send_delay(v, id) == (send, v)
            &&& receive_delay(v, Some(ConnectionId(id))) == (receive, v)
            &&& none.net.connections[id].send_delay is None
            &&& none.net.connections[id].recv_delay is None
            &&& v.net.connections[peer] == w.net.connections[peer]
        }),
{
}

/// A partition between two addresses that is restored is over in that direction, and in that
/// one only.
pub proof fn lemma_restored_pairs_are_joined<R>(
    w: WorldView<R>,
    from_ip: IpAddr,
    to_ip: IpAddr,
    a: IpAddr,
    b: IpAddr,
)
    requires
        !partitioned((NetView { ip_partitions: Map::empty(), ..w.net }), from_ip, to_ip, w.now),
    ensures
        !partitioned(pair_restored(w, from_ip, to_ip).net, from_ip, to_ip, w.now),
        (a, b) != (from_ip, to_ip) ==> partitioned(
            pair_restored(w, from_ip, to_ip).net,
            a,
            b,
            w.now,
        ) == partitioned(w.net, a, b, w.now),
{
}

/// Where partitions are certain to come, each connection with known addresses is cut off by the
/// next step, and stays so until its partition ends.
pub proof fn lemma_certain_partitions_come<R: RandomProvider>(w: WorldView<R>, id: u64)
    requires
        w.net.config.chaos.partition_probability >= 1_000_000,
        drawable(w.net.config.chaos.partition_duration),
        w.net.config.chaos.partition_duration.start@ > 0,
        w.now < MAX_NANOS,
        w.net.connections.contains_key(id),
        id < w.net.next_connection_id,
        w.net.connections[id].local_ip is Some,
        w.net.connections[id].remote_ip is Some,
    ensures
        ({
            let v = partitions_triggered(w);
            let c = w.net.connections[id];
            &&& partitioned(v.net, c.local_ip->0, c.remote_ip->0, w.now)
            &&& v.net.connections == w.net.connections
            &&& v.now == w.now
        }),
{
    lemma_certain_partitions_so_far(w, w.net.next_connection_id as int);
    assert(is_cut_off(partitions_triggered(w), id));
}

proof fn lemma_certain_partitions_so_far<R: RandomProvider>(w: WorldView<R>, upto: int)
    requires
        w.net.config.chaos.partition_probability >= 1_000_000,
        drawable(w.net.config.chaos.partition_duration),
        w.net.config.chaos.partition_duration.start@ > 0,
        w.now < MAX_NANOS,
        upto <= w.net.next_connection_id,
    ensures
        ({
            let v = partitions_rolled(w, upto);
            &&& v.now == w.now
            &&& v.net.config == w.net.config
            &&& v.net.connections == w.net.connections
            &&& forall|id: u64|
                id < upto && w.net.connections.contains_key(id)
                    && w.net.connections[id].local_ip is Some
                    && w.net.connections[id].remote_ip is Some ==> #[trigger] is_cut_off(v, id)
        }),
    decreases upto,
{
    if upto > 0 {
        lemma_certain_partitions_so_far(w, upto - 1);
        let u = partitions_rolled(w, upto - 1);
        let v = partitions_rolled(w, upto);
        let last = (upto - 1) as u64;
        let c = u.net.connections[last];
        if u.net.connections.contains_key(last) && c.local_ip is Some && c.remote_ip is Some {
            if !partitioned(u.net, c.local_ip->0, c.remote_ip->0, u.now) {
                lemma_partitions_come_by_chance(u, last, c.local_ip->0, c.remote_ip->0);
            }
        }
        assert forall|id: u64|
            id < upto && w.net.connections.contains_key(id) && w.net.connections[id].local_ip is Some
                && w.net.connections[id].remote_ip is Some implies #[trigger] is_cut_off(v, id) by {
            if id < upto - 1 {
                assert(is_cut_off(u, id));
            }
        }
    }
}

/// Whether a connection with known addresses is cut off by a partition.
pub open spec fn is_cut_off<R>(w: WorldView<R>, id: u64) -> bool {
    partitioned(
        w.net,
        w.net.connections[id].local_ip->0,
        w.net.connections[id].remote_ip->0,
        w.now,
    )
}

/// The latency between two addresses is the first that is set for them, in one direction; other
/// ways keep theirs.
pub proof fn lemma_first_latency_stays<R>(
    w: WorldView<R>,
    pair: (IpAddr, IpAddr),
    other: (IpAddr, IpAddr),
    first: nat,
    second: nat,
)
    requires
        !w.net.pair_latencies.contains_key(pair),
        other != pair,
    ensures
        ({
            let v = latency_set(latency_set(w, pair, first), pair, second);
            &&& v.net.pair_latencies[pair] == first
            &&& v.net.pair_latencies.contains_key(other) == w.net.pair_latencies.contains_key(other)
            &&& v.net.pair_latencies[other] == w.net.pair_latencies[other]
        }),
{
}

} // verus!
