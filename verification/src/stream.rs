//! What a task that reads, writes, accepts, binds, connects or sleeps in a simulated
//! world gets at once, and what it has to wait for.

use crate::buggify::{buggify_draw, buggify_internal, DEFAULT_FIRING};
use crate::config::{duration_draw, sample_duration, ConnectFailureMode};
use crate::connections::{
    accept_waker_set, bytes_read, clog_decided, is_cut_now, listener_created, listener_key_of,
    message_buffered, pair_created, pending_stored, read_waker_set, write_clogged_until,
};
use crate::events::{ConnectionStateChange, Event, EventView};
use crate::faults::clog_waker_added;
use crate::random::{is_ratio_above, ratio_above, RandomProvider};
use crate::state::{blocked, CloseReason, ConnectionId, IpAddr, ListenerId, NetView};
use crate::time::plus_nanos;
use crate::wakers::{waiter_added, WakersView};
use crate::world::{event_scheduled, SimWorld, WorldView};
use vstd::prelude::*;

verus! {

/// Why a stream cannot be read or written.
#[derive(Debug, Clone, Copy, PartialEq, Eq, Structural)]
pub enum StreamError {
    /// The connection was closed.
    BrokenPipe,
    /// The connection was reset.
    ConnectionReset,
    /// There is no such connection.
    UnknownConnection,
}

/// What became of an attempt to read or write.
#[derive(Debug, Clone, Copy, PartialEq, Eq, Structural)]
pub enum StreamPoll {
    /// So many bytes were read or written. None read is the end of the stream.
    Ready(usize),
    /// The task has to wait and will be woken.
    Pending,
    /// The attempt failed.
    Failed(StreamError),
}

/// A task waits for the end of a cut.
pub open spec fn cut_waker_added<R>(w: WorldView<R>, id: u64, token: u64) -> WorldView<R> {
    WorldView {
        wakers: WakersView {
            cut_wakers: waiter_added(w.wakers.cut_wakers, id, token),
            ..w.wakers
        },
        ..w
    }
}

/// What becomes of an attempt to read up to `max` bytes. A reset shows at once; a cut
/// has to be waited out; then comes what was received, and after it the end of a
/// stream that was closed.
pub open spec fn read_polled<R>(w: WorldView<R>, id: u64, max: nat, token: u64) -> (
    StreamPoll,
    WorldView<R>,
) {
    if !w.net.connections.contains_key(id) {
        (StreamPoll::Failed(StreamError::UnknownConnection), w)
    } else {
        let c = w.net.connections[id];
        if c.is_closed && c.close_reason == CloseReason::Aborted {
            (StreamPoll::Failed(StreamError::ConnectionReset), w)
        } else if !c.is_closed && is_cut_now(w, id) {
            (StreamPoll::Pending, cut_waker_added(w, id, token))
        } else if max > 0 && c.receive_buffer.len() > 0 {
            (
                StreamPoll::Ready(
                    (if c.receive_buffer.len() < max {
                        c.receive_buffer.len()
                    } else {
                        max
                    }) as usize,
                ),
                bytes_read(w, id, max),
            )
        } else if c.is_closed || c.recv_closed {
            (StreamPoll::Ready(0), w)
        } else {
            (StreamPoll::Pending, read_waker_set(w, id, token))
        }
    }
}

/// What becomes of an attempt to write. What was closed fails; a cut and a clog have to
/// be waited out; else all bytes are buffered, to be sent in order.
pub open spec fn write_polled<R: RandomProvider>(
    w: WorldView<R>,
    id: u64,
    data: Seq<u8>,
    token: u64,
) -> (StreamPoll, WorldView<R>) {
    if !w.net.connections.contains_key(id) {
        (StreamPoll::Failed(StreamError::UnknownConnection), w)
    } else {
        let c = w.net.connections[id];
        if c.is_closed && c.close_reason == CloseReason::Aborted {
            (StreamPoll::Failed(StreamError::ConnectionReset), w)
        } else if c.is_closed || c.send_closed {
            (StreamPoll::Failed(StreamError::BrokenPipe), w)
        } else if is_cut_now(w, id) {
            (StreamPoll::Pending, cut_waker_added(w, id, token))
        } else if blocked(w.net.connection_clogs, id, w.now) {
            (StreamPoll::Pending, clog_waker_added(w, id, token))
        } else {
            let (clogs, w1) = clog_decided(w, w.net.connection_clogs, id);
            if clogs {
                let (nanos, rng) = duration_draw(w1.rng, w1.net.config.chaos.clog_duration);
                let w2 = write_clogged_until(
                    WorldView { rng, ..w1 },
                    id,
                    plus_nanos(w1.now, nanos as nat),
                );
                (StreamPoll::Pending, clog_waker_added(w2, id, token))
            } else {
                (StreamPoll::Ready(data.len() as usize), message_buffered(w1, id, data))
            }
        }
    }
}

/// Whether a sleeping task is awake. One that is not is woken by its timer.
pub open spec fn sleep_polled<R>(w: WorldView<R>, task_id: u64, token: u64) -> (bool, WorldView<R>) {
    if w.awakened.contains(task_id) {
        (true, w)
    } else {
        (
            false,
            WorldView {
                wakers: WakersView {
                    task_wakers: w.wakers.task_wakers.insert(task_id, token),
                    ..w.wakers
                },
                ..w
            },
        )
    }
}

/// What becomes of an attempt to accept a connection.
pub open spec fn accept_polled<R: RandomProvider>(
    w: WorldView<R>,
    addr: Seq<char>,
    token: u64,
) -> (Option<ConnectionId>, WorldView<R>) {
    let w1 = WorldView {
        net: NetView {
            pending_connections: w.net.pending_connections.remove(addr),
            ..w.net
        },
        ..w
    };
    if w.net.pending_connections.contains_key(addr) {
        let id = w.net.pending_connections[addr];
        let (nanos, rng) = duration_draw(w.rng, w.net.config.accept_latency);
        (
            Some(ConnectionId(id)),
            event_scheduled(
                WorldView { rng, ..w1 },
                plus_nanos(w.now, nanos as nat),
                EventView::Connection { id, state: ConnectionStateChange::ConnectionReady },
            ),
        )
    } else {
        (None, accept_waker_set(w1, addr, token))
    }
}

/// A listener was bound; that takes some time.
pub open spec fn bound<R: RandomProvider>(w: WorldView<R>, addr: Seq<char>) -> WorldView<R> {
    let (nanos, rng) = duration_draw(w.rng, w.net.config.bind_latency);
    event_scheduled(
        listener_created(WorldView { rng, ..w }, addr),
        plus_nanos(w.now, nanos as nat),
        EventView::Connection {
            id: w.net.next_listener_id,
            state: ConnectionStateChange::BindComplete,
        },
    )
}

/// What became of an attempt to connect.
#[derive(Debug, Clone, Copy, PartialEq, Eq, Structural)]
pub enum ConnectOutcome {
    /// There is a connection.
    Connected(ConnectionId),
    /// A fault refused it, as all faults do.
    RefusedAlways,
    /// A fault refused it, where it could have hung.
    RefusedAtRandom,
    /// It hangs for good.
    Hangs,
}

/// Where connections are always refused.
pub open spec fn at_connect_always() -> Seq<char> {
    "connect: always fail"@
}

/// Where connections are refused or hang.
pub open spec fn at_connect_random() -> Seq<char> {
    "connect: fail or hang"@
}

/// What a fault makes of an attempt to connect.
pub open spec fn connect_fault<R: RandomProvider>(w: WorldView<R>) -> (
    Option<ConnectOutcome>,
    WorldView<R>,
) {
    let chaos = w.net.config.chaos;
    match chaos.connect_failure_mode {
        ConnectFailureMode::Disabled => (None, w),
        ConnectFailureMode::AlwaysFail => {
            let (fires, buggify, rng) = buggify_draw(
                w.buggify,
                w.rng,
                DEFAULT_FIRING,
                at_connect_always(),
            );
            (
                if fires {
                    Some(ConnectOutcome::RefusedAlways)
                } else {
                    None
                },
                WorldView { buggify, rng, ..w },
            )
        },
        ConnectFailureMode::Probabilistic => {
            let (fires, buggify, rng) = buggify_draw(
                w.buggify,
                w.rng,
                DEFAULT_FIRING,
                at_connect_random(),
            );
            if fires {
                let (ratio, rng1) = rng.ratio_draw();
                (
                    Some(
                        if ratio_above(ratio, chaos.connect_failure_probability) {
                            ConnectOutcome::RefusedAtRandom
                        } else {
                            ConnectOutcome::Hangs
                        },
                    ),
                    WorldView { buggify, rng: rng1, ..w },
                )
            } else {
                (None, WorldView { buggify, rng, ..w })
            }
        },
    }
}

/// A client was connected to an address: the server's end waits to be accepted, and the
/// connection takes some time.
pub open spec fn connected<R: RandomProvider>(
    w: WorldView<R>,
    addr: Seq<char>,
    server_ip: Option<IpAddr>,
) -> WorldView<R> {
    let (nanos, rng) = duration_draw(w.rng, w.net.config.connect_latency);
    let client = w.net.next_connection_id;
    let w1 = pair_created(WorldView { rng, ..w }, "client-addr"@, addr, None, server_ip);
    let w2 = pending_stored(w1, addr, listener_key_of(addr), (client + 1) as u64);
    event_scheduled(
        w2,
        plus_nanos(w.now, nanos as nat),
        EventView::Connection {
            id: client,
            state: ConnectionStateChange::ConnectionReady,
        },
    )
}

/// What becomes of an attempt to connect.
pub open spec fn connect_attempted<R: RandomProvider>(
    w: WorldView<R>,
    addr: Seq<char>,
    server_ip: Option<IpAddr>,
) -> (ConnectOutcome, WorldView<R>) {
    let (fault, w1) = connect_fault(w);
    match fault {
        Some(outcome) => (outcome, w1),
        None => (
            ConnectOutcome::Connected(ConnectionId(w.net.next_connection_id)),
            connected(w1, addr, server_ip),
        ),
    }
}

impl<R: RandomProvider> SimWorld<R> {
    /// Tries to read a connection.
    pub fn poll_read(&mut self, connection_id: ConnectionId, buf: &mut [u8], token: u64) -> (r:
        StreamPoll)
        requires
            old(self).wf(),
        ensures
            final(self).wf(),
            (r, final(self)@) == read_polled(
                old(self)@,
                connection_id.0,
                old(buf)@.len(),
                token,
            ),
            final(buf)@.len() == old(buf)@.len(),
            match r {
                StreamPoll::Ready(n) => final(buf)@ == old(
                    self,
                )@.net.connections[connection_id.0].receive_buffer.take(n as int) + old(
                    buf,
                )@.skip(n as int),
                _ => final(buf)@ == old(buf)@,
            },
    {
        let ghost w = self@;
        let ghost buf0 = buf@;
        if !self.network.connections.contains_key(&connection_id.0) {
            return StreamPoll::Failed(StreamError::UnknownConnection);
        }
        let closed: bool = self.is_connection_closed(connection_id);
        let reason = self.get_close_reason(connection_id);
        if closed && reason == CloseReason::Aborted {
            return StreamPoll::Failed(StreamError::ConnectionReset);
        }
        if !closed && self.is_connection_cut(connection_id) {
            self.register_cut_waker(connection_id, token);
            return StreamPoll::Pending;
        }
        match self.read_from_connection(connection_id, buf) {
            Ok(n) => {
                if n > 0 {
                    return StreamPoll::Ready(n);
                }
                proof {
                    let c = w.net.connections[connection_id.0];
                    assert(c.receive_buffer.skip(0) =~= c.receive_buffer);
                    assert(self@.net.connections =~= w.net.connections);
                    assert(self@ =~= w);
                    assert(c.receive_buffer.take(0) + buf0.skip(0) =~= buf0);
                }
                if closed || self.is_recv_closed(connection_id) {
                    return StreamPoll::Ready(0);
                }
                self.register_read_waker(connection_id, token);
                StreamPoll::Pending
            },
            Err(_) => StreamPoll::Failed(StreamError::UnknownConnection),
        }
    }

    /// Tries to write to a connection.
    pub fn poll_write(&mut self, connection_id: ConnectionId, data: Vec<u8>, token: u64) -> (r:
        StreamPoll)
        requires
            old(self).wf(),
        ensures
            final(self).wf(),
            (r, final(self)@) == write_polled(old(self)@, connection_id.0, data@, token),
    {
        if !self.network.connections.contains_key(&connection_id.0) {
            return StreamPoll::Failed(StreamError::UnknownConnection);
        }
        if self.is_connection_closed(connection_id) {
            if self.get_close_reason(connection_id) == CloseReason::Aborted {
                return StreamPoll::Failed(StreamError::ConnectionReset);
            }
            return StreamPoll::Failed(StreamError::BrokenPipe);
        }
        if self.is_send_closed(connection_id) {
            return StreamPoll::Failed(StreamError::BrokenPipe);
        }
        if self.is_connection_cut(connection_id) {
            self.register_cut_waker(connection_id, token);
            return StreamPoll::Pending;
        }
        if self.is_write_clogged(connection_id) {
            self.register_clog_waker(connection_id, token);
            return StreamPoll::Pending;
        }
        if self.should_clog_write(connection_id) {
            self.clog_write(connection_id);
            self.register_clog_waker(connection_id, token);
            return StreamPoll::Pending;
        }
        let n: usize = data.len();
        match self.buffer_send(connection_id, data) {
            Ok(_) => StreamPoll::Ready(n),
            Err(_) => StreamPoll::Failed(StreamError::UnknownConnection),
        }
    }

    /// Tries to accept a connection to an address. Returns it, or nothing where the task
    /// has to wait.
    pub fn poll_accept(&mut self, addr: &str, token: u64) -> (r: Option<ConnectionId>)
        requires
            old(self).wf(),
        ensures
            final(self).wf(),
            (r, final(self)@) == accept_polled(old(self)@, addr@, token),
    {
        match self.get_pending_connection(addr) {
            Some(id) => {
                let delay = sample_duration(&mut self.rng, &self.network.config.accept_latency);
                self.schedule_event(
                    Event::Connection {
                        id: id.0,
                        state: ConnectionStateChange::ConnectionReady,
                    },
                    delay,
                );
                Some(id)
            },
            None => {
                self.register_accept_waker(addr, token);
                None
            },
        }
    }

    /// Binds a listener to an address.
    pub fn bind(&mut self, addr: &str) -> (id: ListenerId)
        requires
            old(self).wf(),
        ensures
            final(self).wf(),
            id == ListenerId(old(self)@.net.next_listener_id),
            final(self)@ == bound(old(self)@, addr@),
    {
        let delay = sample_duration(&mut self.rng, &self.network.config.bind_latency);
        let id = self.create_listener(addr.to_owned());
        self.schedule_event(
            Event::Connection { id: id.0, state: ConnectionStateChange::BindComplete },
            delay,
        );
        id
    }

    fn fault_on_connect(&mut self) -> (r: Option<ConnectOutcome>)
        requires
            old(self).wf(),
        ensures
            final(self).wf(),
            (r, final(self)@) == connect_fault(old(self)@),
    {
        match self.network.config.chaos.connect_failure_mode {
            ConnectFailureMode::Disabled => None,
            ConnectFailureMode::AlwaysFail => {
                let fires: bool = buggify_internal(
                    &mut self.buggify,
                    &mut self.rng,
                    DEFAULT_FIRING,
                    "connect: always fail",
                );
                if fires {
                    Some(ConnectOutcome::RefusedAlways)
                } else {
                    None
                }
            },
            ConnectFailureMode::Probabilistic => {
                let fires: bool = buggify_internal(
                    &mut self.buggify,
                    &mut self.rng,
                    DEFAULT_FIRING,
                    "connect: fail or hang",
                );
                if !fires {
                    return None;
                }
                let ratio: u64 = self.rng.random_ratio();
                if is_ratio_above(ratio, self.network.config.chaos.connect_failure_probability) {
                    Some(ConnectOutcome::RefusedAtRandom)
                } else {
                    Some(ConnectOutcome::Hangs)
                }
            },
        }
    }

    /// Connects to an address. `server_ip` is what the address says as an IP address.
    pub fn connect(&mut self, addr: &str, server_ip: Option<IpAddr>) -> (r: ConnectOutcome)
        requires
            old(self).wf(),
            old(self)@.net.next_connection_id <= u64::MAX - 2,
        ensures
            final(self).wf(),
            (r, final(self)@) == connect_attempted(old(self)@, addr@, server_ip),
    {
        if let Some(outcome) = self.fault_on_connect() {
            return outcome;
        }
        let delay = sample_duration(&mut self.rng, &self.network.config.connect_latency);
        let (client, server) = self.create_connection_pair(
            "client-addr".to_owned(),
            addr.to_owned(),
            None,
            server_ip,
        );
        self.store_pending_connection(addr, server);
        self.schedule_event(
            Event::Connection { id: client.0, state: ConnectionStateChange::ConnectionReady },
            delay,
        );
        ConnectOutcome::Connected(client)
    }

    /// Whether a task that sleeps may go on; else it will be woken.
    pub fn poll_sleep(&mut self, task_id: u64, token: u64) -> (awake: bool)
        requires
            old(self).wf(),
        ensures
            final(self).wf(),
            (awake, final(self)@) == sleep_polled(old(self)@, task_id, token),
    {
        if self.is_task_awake(task_id) {
            return true;
        }
        self.register_task_waker(task_id, token);
        false
    }
}

} // verus!
