//! What tasks may rely on when they connect, wait for and close simulated streams.

use crate::connections::{
    buffered_bytes, bytes_read, bytes_written, closed, half_closed, listener_created,
    listener_key_of, message_buffered, pair_created, pending_stored, total_bytes,
};
use crate::events::EventView;
use crate::faults::{buffer_room, space_awaited};
use crate::ordering::{
    flowing, lemma_new_streams_are_empty, lemma_other_events_leave_stream, lemma_still_due,
    orderly, sending, stream,
};
use crate::random::RandomProvider;
use crate::state::{CloseReason, ConnectionId, IpAddr, PeerAddressView};
use crate::stream::{
    ConnectOutcome, StreamError, StreamPoll, accept_polled, connect_attempted, connect_fault,
    read_polled, sleep_polled, write_polled,
};
use crate::world::{WorldView, event_handled, message_taken, writers_woken};
use vstd::prelude::*;

verus! {

/// A client that connects has a connection of its own, whose other end waits to be accepted
/// at the address that it connected to: it is open, nothing was written to it in either
/// direction, and what will be flows. A task that waited for it is woken. Other connections
/// stay as they are.
pub proof fn lemma_connections_can_be_accepted<R: RandomProvider>(
    w: WorldView<R>,
    addr: Seq<char>,
    server_ip: Option<IpAddr>,
    token: u64,
    again: u64,
)
    requires
        orderly(w),
        w.net.next_connection_id <= u64::MAX - 2,
        w.next_sequence < u64::MAX,
        connect_attempted(w, addr, server_ip).0 is Connected,
    ensures
        ({
            let (r, v) = connect_attempted(w, addr, server_ip);
            let client = w.net.next_connection_id;
            let server = (client + 1) as u64;
            let (accepted, u) = accept_polled(v, addr, token);
            &&& r == ConnectOutcome::Connected(ConnectionId(client))
            &&& accepted == Some(ConnectionId(server))
            &&& accept_polled(u, addr, again).0 is None
            &&& flowing(v, client, server) && flowing(v, server, client)
            &&& sending(v, client) && sending(v, server)
            &&& stream(v, client, server) == Seq::<u8>::empty()
            &&& stream(v, server, client) == Seq::<u8>::empty()
            &&& !v.net.connections[client].is_closed && !v.net.connections[server].is_closed
            &&& !v.net.connections[client].is_cut && !v.net.connections[server].is_cut
            &&& !v.net.connections[client].send_closed && !v.net.connections[server].send_closed
            &&& !v.net.connections[client].recv_closed && !v.net.connections[server].recv_closed
            &&& v.net.connections[client].peer_address == PeerAddressView::Named(addr)
            &&& v.net.connections[client].send_delay is None
            &&& v.net.connections[server].recv_delay is None
            &&& v.net.next_connection_id == client + 2
            &&& u.net.connections == v.net.connections
            &&& forall|id: u64|
                w.net.connections.contains_key(id) ==> v.net.connections.contains_key(id)
                    && #[trigger] v.net.connections[id] == w.net.connections[id]
            &&& w.wakers.listener_wakers.contains_key(listener_key_of(addr)) ==> v.woken
                == w.woken.push(w.wakers.listener_wakers[listener_key_of(addr)])
        }),
{
    let (fault, w0) = connect_fault(w);
    assert(w0.net == w.net && w0.queue == w.queue && w0.next_sequence == w.next_sequence
        && w0.wakers == w.wakers && w0.woken == w.woken && w0.now == w.now);
    let (nanos, rng) = crate::config::duration_draw(w0.rng, w0.net.config.connect_latency);
    let w1 = WorldView { rng, ..w0 };
    assert(orderly(w1));
    lemma_new_streams_are_empty(w1, "client-addr"@, addr, None, server_ip);
    let w2 = pair_created(w1, "client-addr"@, addr, None, server_ip);
    let client = w.net.next_connection_id;
    let server = (client + 1) as u64;
    let w3 = pending_stored(w2, addr, listener_key_of(addr), server);
    let time = crate::time::plus_nanos(w0.now, nanos as nat);
    let event = EventView::Connection {
        id: client,
        state: crate::events::ConnectionStateChange::ConnectionReady,
    };
    let v = connect_attempted(w, addr, server_ip).1;
    assert(v == crate::world::event_scheduled(w3, time, event));
    crate::ordering::lemma_waiting_leaves_stream(w2, w3, client, server);
    crate::ordering::lemma_waiting_leaves_stream(w2, w3, server, client);
    lemma_other_events_leave_stream(w3, time, event, client, server);
    lemma_other_events_leave_stream(w3, time, event, server, client);
    let s = crate::events::ScheduledView { time, event, sequence: w3.next_sequence };
    lemma_still_due(w3.queue, s, client);
    lemma_still_due(w3.queue, s, server);
    assert forall|id: u64| w.net.connections.contains_key(id) implies v.net.connections.contains_key(
        id,
    ) && #[trigger] v.net.connections[id] == w.net.connections[id] by {
        assert(id < w.net.next_connection_id);
    }
    if w.wakers.listener_wakers.contains_key(listener_key_of(addr)) {
        assert(v.woken =~= w.woken.push(w.wakers.listener_wakers[listener_key_of(addr)]));
    }
}

/// A client is connected wherever connections do not fail by configuration, and wherever no
/// faults are injected. Where they do fail, one that always fails is refused, and one that fails
/// at random is refused where the ratio that is drawn lies above the probability, and hangs
/// where not.
pub proof fn lemma_connections_fail_as_configured<R: RandomProvider>(
    w: WorldView<R>,
    addr: Seq<char>,
    server_ip: Option<IpAddr>,
)
    ensures
        ({
            let r = connect_attempted(w, addr, server_ip).0;
            let chaos = w.net.config.chaos;
            &&& !w.buggify.enabled ==> r is Connected
            &&& chaos.connect_failure_mode == crate::config::ConnectFailureMode::Disabled
                ==> r is Connected
            &&& chaos.connect_failure_mode == crate::config::ConnectFailureMode::AlwaysFail ==> r
                == ConnectOutcome::RefusedAlways || r is Connected
            &&& r == ConnectOutcome::RefusedAlways ==> chaos.connect_failure_mode
                == crate::config::ConnectFailureMode::AlwaysFail
            &&& r == ConnectOutcome::RefusedAtRandom || r == ConnectOutcome::Hangs
                ==> chaos.connect_failure_mode == crate::config::ConnectFailureMode::Probabilistic
        }),
        ({
            let chaos = w.net.config.chaos;
            let (fires, _, rng) = crate::buggify::buggify_draw(
                w.buggify,
                w.rng,
                250_000,
                "connect: fail or hang"@,
            );
            let (always, _, _) = crate::buggify::buggify_draw(
                w.buggify,
                w.rng,
                250_000,
                "connect: always fail"@,
            );
            let r = connect_attempted(w, addr, server_ip).0;
            &&& chaos.connect_failure_mode == crate::config::ConnectFailureMode::AlwaysFail ==> (r
                == ConnectOutcome::RefusedAlways <==> always)
            &&& chaos.connect_failure_mode == crate::config::ConnectFailureMode::Probabilistic ==> {
                &&& r is Connected <==> !fires
                &&& fires ==> (r == ConnectOutcome::RefusedAtRandom <==> rng.ratio_draw().0
                    * 1_000_000 > chaos.connect_failure_probability * 9_007_199_254_740_992)
            }
        }),
{
}

/// A task that tries to accept and finds no connection is woken when one comes to the
/// address, and finds it then.
pub proof fn lemma_acceptors_are_woken<R: RandomProvider>(
    w: WorldView<R>,
    addr: Seq<char>,
    token: u64,
    id: u64,
    again: u64,
)
    requires
        !w.net.pending_connections.contains_key(addr),
    ensures
        ({
            let (r, v) = accept_polled(w, addr, token);
            let u = pending_stored(v, addr, listener_key_of(addr), id);
            &&& r is None
            &&& u.woken == w.woken.push(token)
            &&& accept_polled(u, addr, again).0 == Some(ConnectionId(id))
        }),
{
    let (r, v) = accept_polled(w, addr, token);
    let u = pending_stored(v, addr, listener_key_of(addr), id);
    assert(u.woken =~= w.woken.push(token));
}

/// A task that reads a stream and has to wait is woken when bytes arrive, and when the
/// stream is closed.
pub proof fn lemma_readers_are_woken<R: RandomProvider>(
    w: WorldView<R>,
    id: u64,
    max: nat,
    token: u64,
    data: Seq<u8>,
    reason: CloseReason,
)
    requires
        w.net.connections.contains_key(id),
        read_polled(w, id, max, token).0 is Pending,
        !w.net.connections[id].is_cut,
    ensures
        ({
            let v = read_polled(w, id, max, token).1;
            &&& event_handled(v, EventView::DataDelivery { connection_id: id, data }).woken
                == w.woken.push(token)
            &&& closed(v, id, reason).woken.contains(token)
        }),
{
    let v = read_polled(w, id, max, token).1;
    let d = event_handled(v, EventView::DataDelivery { connection_id: id, data });
    crate::fault_laws::lemma_corruption_keeps_length(v, data);
    assert(d.woken =~= w.woken.push(token));
    let u = closed(v, id, reason);
    assert(u.woken[w.woken.len() as int] == token);
}

/// What closing a connection does at its ends.
proof fn lemma_both_ends_close<R: RandomProvider>(
    w: WorldView<R>,
    id: u64,
    other: u64,
    reason: CloseReason,
    end: u64,
)
    requires
        w.net.connections.contains_key(id),
        w.net.connections.contains_key(other),
        id != other,
        w.net.connections[id].paired_connection == Some(ConnectionId(other)),
        !w.net.connections[id].is_closed,
        !w.net.connections[other].is_closed,
        end == id || end == other,
        reason == CloseReason::Graceful || reason == CloseReason::Aborted,
    ensures
        ({
            let v = closed(w, id, reason);
            &&& v.net.connections.contains_key(end)
            &&& v.net.connections[end].is_closed
            &&& v.net.connections[end].close_reason == reason
            &&& v.net.connections[end].receive_buffer == w.net.connections[end].receive_buffer
            &&& w.wakers.read_wakers.contains_key(end) ==> v.woken.contains(
                w.wakers.read_wakers[end],
            )
            &&& forall|k: u64|
                k != id && k != other ==> #[trigger] v.net.connections[k] == w.net.connections[k]
        }),
{
    let v = closed(w, id, reason);
    if w.wakers.read_wakers.contains_key(end) {
        let t = w.wakers.read_wakers[end];
        let n = w.woken.len() as int;
        if end == id {
            assert(v.woken[n] == t);
        } else if w.wakers.read_wakers.contains_key(id) {
            assert(v.woken[n + 1] == t);
        } else {
            assert(v.woken[n] == t);
        }
    }
}

/// What reading and writing give at an end that is closed.
proof fn lemma_closed_ends_poll<R: RandomProvider>(
    v: WorldView<R>,
    end: u64,
    max: nat,
    data: Seq<u8>,
    token: u64,
)
    requires
        v.net.connections.contains_key(end),
        v.net.connections[end].is_closed,
        max <= usize::MAX,
    ensures
        ({
            let c = v.net.connections[end];
            let received = c.receive_buffer;
            let read = read_polled(v, end, max, token);
            let write = write_polled(v, end, data, token);
            &&& c.close_reason == CloseReason::Aborted ==> read.0 == StreamPoll::Failed(
                StreamError::ConnectionReset,
            ) && write.0 == StreamPoll::Failed(StreamError::ConnectionReset)
            &&& c.close_reason == CloseReason::Graceful ==> {
                &&& write.0 == StreamPoll::Failed(StreamError::BrokenPipe)
                &&& received.len() == 0 || max == 0 ==> read.0 == StreamPoll::Ready(0)
                &&& received.len() > 0 && max > 0 ==> (read.0 matches StreamPoll::Ready(n) && n > 0
                    && n <= max && n <= received.len() && (n == max || n == received.len()))
            }
            &&& write.1 == v
        }),
{
}

/// Closing a connection closes both of its ends, for the given reason where they were open
/// before, and wakes the tasks that read them. What was received before can still be read,
/// then comes the end; nothing can be written any more. Where it was aborted both ends fail.
pub proof fn lemma_closing_shows_at_both_ends<R: RandomProvider>(
    w: WorldView<R>,
    id: u64,
    other: u64,
    reason: CloseReason,
    max: nat,
    data: Seq<u8>,
    token: u64,
    end: u64,
)
    requires
        w.net.connections.contains_key(id),
        w.net.connections.contains_key(other),
        id != other,
        w.net.connections[id].paired_connection == Some(ConnectionId(other)),
        !w.net.connections[id].is_closed,
        !w.net.connections[other].is_closed,
        end == id || end == other,
        max <= usize::MAX,
        reason == CloseReason::Graceful || reason == CloseReason::Aborted,
    ensures
        ({
            let v = closed(w, id, reason);
            let received = w.net.connections[end].receive_buffer;
            let read = read_polled(v, end, max, token);
            let write = write_polled(v, end, data, token);
            &&& v.net.connections[end].is_closed
            &&& v.net.connections[end].close_reason == reason
            &&& v.net.connections[end].receive_buffer == received
            &&& w.wakers.read_wakers.contains_key(end) ==> v.woken.contains(
                w.wakers.read_wakers[end],
            )
            &&& reason == CloseReason::Aborted ==> read.0 == StreamPoll::Failed(
                StreamError::ConnectionReset,
            ) && write.0 == StreamPoll::Failed(StreamError::ConnectionReset)
            &&& reason == CloseReason::Graceful ==> {
                &&& write.0 == StreamPoll::Failed(StreamError::BrokenPipe)
                &&& received.len() == 0 || max == 0 ==> read.0 == StreamPoll::Ready(0)
                &&& received.len() > 0 && max > 0 ==> (read.0 matches StreamPoll::Ready(n) && n > 0
                    && n <= max && n <= received.len() && (n == max || n == received.len()))
            }
            &&& write.1.net.connections == v.net.connections
        }),
        ({
            let v = closed(w, id, reason);
            forall|k: u64|
                k != id && k != other ==> #[trigger] v.net.connections[k] == w.net.connections[k]
        }),
{
    lemma_both_ends_close(w, id, other, reason, end);
    lemma_closed_ends_poll(closed(w, id, reason), end, max, data, token);
}

/// Closing the sending side of a connection ends what it writes, and closing the receiving
/// side ends what its other end reads once that has read what it received. The sides that are
/// not closed stay as they are.
pub proof fn lemma_half_closing_ends_one_direction<R: RandomProvider>(
    w: WorldView<R>,
    id: u64,
    other: u64,
    close_send: bool,
    close_recv: bool,
    data: Seq<u8>,
    max: nat,
    token: u64,
)
    requires
        w.net.connections.contains_key(id),
        w.net.connections.contains_key(other),
        id != other,
        w.net.connections[id].paired_connection == Some(ConnectionId(other)),
        !w.net.connections[id].is_closed,
        !w.net.connections[other].is_closed,
    ensures
        ({
            let v = half_closed(w, id, close_send, close_recv);
            let a = v.net.connections[id];
            let b = v.net.connections[other];
            &&& close_send ==> write_polled(v, id, data, token).0 == StreamPoll::Failed(
                StreamError::BrokenPipe,
            ) && a.send_buffer.len() == 0
            &&& !close_send ==> a == w.net.connections[id]
            &&& close_recv && b.receive_buffer.len() == 0 && !b.is_cut ==> read_polled(
                v,
                other,
                max,
                token,
            ).0 == StreamPoll::Ready(0)
            &&& !close_recv ==> b == w.net.connections[other]
            &&& a.receive_buffer == w.net.connections[id].receive_buffer
            &&& b.receive_buffer == w.net.connections[other].receive_buffer
            &&& b.send_buffer == w.net.connections[other].send_buffer
            &&& !a.is_closed && !b.is_closed
            &&& close_send && w.wakers.read_wakers.contains_key(id) ==> v.woken.contains(
                w.wakers.read_wakers[id],
            )
            &&& close_recv && w.wakers.read_wakers.contains_key(other) ==> v.woken.contains(
                w.wakers.read_wakers[other],
            )
        }),
{
    let v = half_closed(w, id, close_send, close_recv);
    let n = w.woken.len() as int;
    if close_send && w.wakers.read_wakers.contains_key(id) {
        assert(v.woken[n] == w.wakers.read_wakers[id]);
    }
    if close_recv && w.wakers.read_wakers.contains_key(other) {
        if close_send && w.wakers.read_wakers.contains_key(id) {
            assert(v.woken[n + 1] == w.wakers.read_wakers[other]);
        } else {
            assert(v.woken[n] == w.wakers.read_wakers[other]);
        }
    }
}

/// A task that sleeps is woken when its timer is due: once asked for, it is told so, and it is
/// awake when it asks again. One that is awake is not told again.
pub proof fn lemma_sleepers_wake_up<R: RandomProvider>(w: WorldView<R>, task_id: u64, token: u64)
    requires
        !w.awakened.contains(task_id),
    ensures
        ({
            let (awake, w1) = sleep_polled(w, task_id, token);
            let w2 = event_handled(w1, EventView::Timer { task_id });
            let (now_awake, w3) = sleep_polled(w2, task_id, token);
            &&& !awake
            &&& w2.woken.len() == w.woken.len() + 1
            &&& w2.woken.last() == token
            &&& now_awake
            &&& w3 == w2
        }),
{
    let (awake, w1) = sleep_polled(w, task_id, token);
    crate::latency::lemma_timers_wake(w1, task_id, task_id);
}

/// Bytes that are written to a connection can be read there, after those before them, each
/// once. Other connections do not change.
pub proof fn lemma_written_bytes_are_read_once<R>(
    w: WorldView<R>,
    id: u64,
    data: Seq<u8>,
    max: nat,
    other: u64,
)
    requires
        w.net.connections.contains_key(id),
    ensures
        ({
            let written = bytes_written(w, id, data);
            let read = bytes_read(written, id, max);
            let all = w.net.connections[id].receive_buffer + data;
            &&& written.net.connections[id].receive_buffer == all
            &&& max >= all.len() ==> read.net.connections[id].receive_buffer.len() == 0
            &&& max < all.len() ==> all == all.take(max as int)
                + read.net.connections[id].receive_buffer
            &&& read.net.connections[id].send_buffer == w.net.connections[id].send_buffer
            &&& other != id ==> read.net.connections[other] == w.net.connections[other]
            &&& read.queue == w.queue && read.now == w.now && read.woken == w.woken
        }),
{
    let all = w.net.connections[id].receive_buffer + data;
    if max < all.len() {
        assert(all =~= all.take(max as int) + all.skip(max as int));
    }
}

/// A message takes room for its bytes in the send buffer, as long as it waits there.
pub proof fn lemma_waiting_messages_take_room<R>(w: WorldView<R>, id: u64, data: Seq<u8>)
    requires
        w.net.connections.contains_key(id),
        buffered_bytes(w, id) + data.len() <= usize::MAX,
    ensures
        buffered_bytes(message_buffered(w, id, data), id) == buffered_bytes(w, id) + data.len(),
        w.net.connections[id].send_buffer.len() == 0 ==> buffered_bytes(w, id) == 0 && buffer_room(
            w,
            id,
        ) == w.net.connections[id].send_buffer_capacity,
        data.len() <= buffer_room(w, id) ==> buffer_room(message_buffered(w, id, data), id)
            == buffer_room(w, id) - data.len(),
        data.len() > buffer_room(w, id) ==> buffer_room(message_buffered(w, id, data), id) == 0,
{
    let s = w.net.connections[id].send_buffer;
    assert(s.push(data).drop_last() =~= s);
    if data.len() == 0 {
        assert(total_bytes(s.push(data)) == total_bytes(s));
    }
}

/// A server sees a client at an address near the client's own, and at a port from 40000 up to,
/// not including, 60000; the client sees the server at the address that it connected to. Both
/// ends of a new connection are open, uncut, without bytes and without delays of their own, and
/// each is the other's pair.
pub proof fn lemma_new_connections_are_open<R: RandomProvider>(
    w: WorldView<R>,
    client_addr: Seq<char>,
    server_addr: Seq<char>,
    client_ip: Option<IpAddr>,
    server_ip: Option<IpAddr>,
)
    requires
        w.net.next_connection_id < u64::MAX - 2,
    ensures
        ({
            let v = pair_created(w, client_addr, server_addr, client_ip, server_ip);
            let id = w.net.next_connection_id;
            let a = v.net.connections[id];
            let b = v.net.connections[(id + 1) as u64];
            &&& a.paired_connection == Some(ConnectionId((id + 1) as u64))
            &&& b.paired_connection == Some(ConnectionId(id))
            &&& a.local_ip == client_ip && a.remote_ip == server_ip
            &&& b.local_ip == server_ip && b.remote_ip == client_ip
            &&& a.peer_address == PeerAddressView::Named(server_addr)
            &&& client_ip is None ==> (b.peer_address matches PeerAddressView::EphemeralUnknown {
                port,
            } && 40_000 <= port < 60_000)
            &&& client_ip matches Some(IpAddr::V4(ip)) ==> (b.peer_address
                matches PeerAddressView::EphemeralV4 { ip: seen, port } && 40_000 <= port < 60_000
                && seen / 256 == ip / 256)
            &&& client_ip matches Some(IpAddr::V6(ip)) ==> (b.peer_address
                matches PeerAddressView::EphemeralV6 { ip: seen, port } && 40_000 <= port < 60_000
                && seen / 65_536 == ip / 65_536)
            &&& !a.is_closed && !a.send_closed && !a.recv_closed && !a.is_cut && !b.is_closed
                && !b.send_closed && !b.recv_closed && !b.is_cut
            &&& a.receive_buffer.len() == 0 && a.send_buffer.len() == 0
                && b.receive_buffer.len() == 0 && b.send_buffer.len() == 0
            &&& a.send_delay is None && a.recv_delay is None && b.send_delay is None
                && b.recv_delay is None
            &&& !a.send_in_progress && !b.send_in_progress
            &&& a.next_send_time == w.now && b.next_send_time == w.now
            &&& v.net.next_connection_id == id + 2
        }),
{
    w.rng.lemma_draws(0, 256);
    w.rng.range_draw(0, 256).1.lemma_draws(40_000, 60_000);
    w.rng.lemma_draws(40_000, 60_000);
}

/// Tasks that wait for space in a send buffer are woken when a message leaves it, in the order
/// in which they came, and then wait no longer.
pub proof fn lemma_space_wakes_writers<R: RandomProvider>(w: WorldView<R>, id: u64, token: u64)
    requires
        w.net.connections.contains_key(id),
        w.net.connections[id].send_buffer.len() > 0,
    ensures
        ({
            let v = space_awaited(w, id, token);
            let waiting = if w.wakers.send_buffer_wakers.contains_key(id) {
                w.wakers.send_buffer_wakers[id]
            } else {
                Seq::empty()
            };
            let u = event_handled(v, EventView::ProcessSendBuffer { connection_id: id });
            &&& v.woken == w.woken && v.net == w.net
            &&& u.woken == w.woken + waiting.push(token)
            &&& !u.wakers.send_buffer_wakers.contains_key(id)
        }),
{
    let v = space_awaited(w, id, token);
    let u = event_handled(v, EventView::ProcessSendBuffer { connection_id: id });
    let waiting = v.wakers.send_buffer_wakers[id];
    assert(writers_woken(v, id).woken == w.woken + waiting);
    assert(message_taken(v, id).woken == w.woken + waiting);
    assert(u.woken == message_taken(v, id).woken);
}

/// A shutdown wakes all tasks that sleep and all that read, each kind in the order of their
/// numbers, and none of them is woken for it again.
pub proof fn lemma_shutdown_wakes_all<R: RandomProvider>(
    w: WorldView<R>,
    sleepers: Seq<u64>,
    readers: Seq<u64>,
)
    requires
        forall|i: int, j: int| 0 <= i < j < sleepers.len() ==> sleepers[i] < sleepers[j],
        forall|i: int, j: int| 0 <= i < j < readers.len() ==> readers[i] < readers[j],
        sleepers.to_set() == w.wakers.task_wakers.dom(),
        readers.to_set() == w.wakers.read_wakers.dom(),
    ensures
        ({
            let v = event_handled(w, EventView::Shutdown);
            let n = w.woken.len() as int;
            &&& v.woken.len() == n + sleepers.len() + readers.len()
            &&& v.woken.take(n) == w.woken
            &&& forall|i: int|
                0 <= i < sleepers.len() ==> v.woken[n + i] == #[trigger] w.wakers.task_wakers[sleepers[i]]
            &&& forall|i: int|
                0 <= i < readers.len() ==> v.woken[n + sleepers.len() + i]
                    == #[trigger] w.wakers.read_wakers[readers[i]]
            &&& v.wakers.task_wakers.dom() == Set::<u64>::empty()
            &&& v.wakers.read_wakers.dom() == Set::<u64>::empty()
            &&& v.net == w.net && v.queue == w.queue
        }),
{
    let v = event_handled(w, EventView::Shutdown);
    crate::ids::lemma_in_order(sleepers);
    crate::ids::lemma_in_order(readers);
    assert(v.woken.take(w.woken.len() as int) =~= w.woken);
}

/// Listeners are told apart, and each is known with its address.
pub proof fn lemma_listeners_are_told_apart<R>(w: WorldView<R>, a: Seq<char>, b: Seq<char>)
    requires
        w.net.next_listener_id < u64::MAX - 1,
    ensures
        ({
            let first = w.net.next_listener_id;
            let one = listener_created(w, a);
            let second = one.net.next_listener_id;
            let two = listener_created(one, b);
            &&& first != second
            &&& two.net.listeners.contains_key(first) && two.net.listeners[first].addr == a
            &&& two.net.listeners.contains_key(second) && two.net.listeners[second].addr == b
            &&& two.net.connections == w.net.connections
        }),
{
}

} // verus!
