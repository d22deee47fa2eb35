//! Faults of the simulated network: clogs, cuts, closes, delays and partitions.

use crate::buggify::buggify_internal;
use crate::config::{duration_draw, sample_duration};
use crate::connections::{
    address_pair, at_most, buffer_capacity, buffered_bytes, clog_decided, closed, cut_until,
    half_closed, is_cut_now, latency_set, one_end_closed, other_end, random_close_rolled,
    read_clogged_until, recv_side_closed, send_side_closed, total_bytes, write_clogged_until,
};
use crate::events::{ConnectionStateChange, Event, EventView};
use crate::random::{RandomProvider, is_ratio_above, is_ratio_below};
use crate::state::{
    ClogState, CloseReason, ConnView, ConnectionId, IpAddr, NetView, PartitionState, blocked,
    clog_views, messages, opt_nanos, partitioned,
};
use crate::time::{Duration, plus_nanos};
use crate::wakers::{WakersView, add_waiter, waiter_added};
use crate::world::{SimWorld, WorldView, conn_updated, event_scheduled};
use std::collections::VecDeque;
use vstd::prelude::*;

verus! {

/// Communication from one address to another is blocked until the time `until`.
pub open spec fn pair_partitioned<R>(
    w: WorldView<R>,
    from_ip: IpAddr,
    to_ip: IpAddr,
    until: nat,
) -> WorldView<R> {
    event_scheduled(
        WorldView {
            net: NetView {
                ip_partitions: w.net.ip_partitions.insert((from_ip, to_ip), until),
                ..w.net
            },
            ..w
        },
        until,
        EventView::Connection { id: 0, state: ConnectionStateChange::PartitionRestore },
    )
}

/// An address cannot send until the time `until`.
pub open spec fn send_partitioned<R>(w: WorldView<R>, ip: IpAddr, until: nat) -> WorldView<R> {
    event_scheduled(
        WorldView {
            net: NetView { send_partitions: w.net.send_partitions.insert(ip, until), ..w.net },
            ..w
        },
        until,
        EventView::Connection { id: 0, state: ConnectionStateChange::SendPartitionClear },
    )
}

/// An address cannot receive until the time `until`.
pub open spec fn recv_partitioned<R>(w: WorldView<R>, ip: IpAddr, until: nat) -> WorldView<R> {
    event_scheduled(
        WorldView {
            net: NetView { recv_partitions: w.net.recv_partitions.insert(ip, until), ..w.net },
            ..w
        },
        until,
        EventView::Connection { id: 0, state: ConnectionStateChange::RecvPartitionClear },
    )
}

/// A task waits for space in a send buffer.
pub open spec fn space_awaited<R>(w: WorldView<R>, id: u64, token: u64) -> WorldView<R> {
    WorldView {
        wakers: WakersView {
            send_buffer_wakers: waiter_added(w.wakers.send_buffer_wakers, id, token),
            ..w.wakers
        },
        ..w
    }
}

/// A partition between two addresses is over.
pub open spec fn pair_restored<R>(w: WorldView<R>, from_ip: IpAddr, to_ip: IpAddr) -> WorldView<R> {
    WorldView {
        net: NetView {
            ip_partitions: w.net.ip_partitions.remove((from_ip, to_ip)),
            ..w.net
        },
        ..w
    }
}

/// How many more bytes there is room for in a connection's send buffer.
pub open spec fn buffer_room<R>(w: WorldView<R>, id: u64) -> int {
    if buffered_bytes(w, id) <= buffer_capacity(w, id) {
        buffer_capacity(w, id) - buffered_bytes(w, id)
    } else {
        0
    }
}

/// The delays of a connection, if it exists, are set.
pub open spec fn delays_set<R>(
    w: WorldView<R>,
    id: u64,
    send_delay: Option<nat>,
    recv_delay: Option<nat>,
) -> WorldView<R> {
    if w.net.connections.contains_key(id) {
        conn_updated(w, id, ConnView { send_delay, recv_delay, ..w.net.connections[id] })
    } else {
        w
    }
}

impl<R: RandomProvider> SimWorld<R> {
    /// Whether a write should be clogged.
    pub fn should_clog_write(&mut self, connection_id: ConnectionId) -> (b: bool)
        requires
            old(self).wf(),
        ensures
            final(self).wf(),
            (b, final(self)@) == clog_decided(
                old(self)@,
                old(self)@.net.connection_clogs,
                connection_id.0,
            ),
    {
        if let Some(clog) = self.network.connection_clogs.get(&connection_id.0) {
            return self.current_time.lt(&clog.expires_at);
        }
        let ppm: u32 = self.network.config.chaos.clog_probability;
        ppm > 0 && self.rng.random_bool(ppm)
    }

    /// Clogs a connection's writes for a random time.
    pub fn clog_write(&mut self, connection_id: ConnectionId)
        requires
            old(self).wf(),
        ensures
            final(self).wf(),
            final(self)@ == write_clogged(old(self)@, connection_id.0),
    {
        let duration = sample_duration(&mut self.rng, &self.network.config.chaos.clog_duration);
        let expires_at = self.current_time.saturating_add(duration);
        let ghost before = self.network.connection_clogs@;
        self.network.connection_clogs.insert(connection_id.0, ClogState { expires_at });
        assert(clog_views(self.network.connection_clogs@) =~= clog_views(before).insert(
            connection_id.0,
            expires_at@,
        ));
        self.schedule_at(
            expires_at,
            Event::Connection { id: connection_id.0, state: ConnectionStateChange::ClogClear },
        );
    }

    /// Whether a connection's writes are clogged.
    pub fn is_write_clogged(&self, connection_id: ConnectionId) -> (b: bool)
        requires
            self.wf(),
        ensures
            b == blocked(self@.net.connection_clogs, connection_id.0, self@.now),
    {
        match self.network.connection_clogs.get(&connection_id.0) {
            Some(clog) => self.current_time.lt(&clog.expires_at),
            None => false,
        }
    }

    /// Notes that a task waits for the end of a write clog.
    pub fn register_clog_waker(&mut self, connection_id: ConnectionId, token: u64)
        requires
            old(self).wf(),
        ensures
            final(self).wf(),
            final(self)@ == clog_waker_added(old(self)@, connection_id.0, token),
    {
        add_waiter(&mut self.wakers.clog_wakers, connection_id.0, token);
    }

    /// Whether a read should be clogged.
    pub fn should_clog_read(&mut self, connection_id: ConnectionId) -> (b: bool)
        requires
            old(self).wf(),
        ensures
            final(self).wf(),
            (b, final(self)@) == clog_decided(
                old(self)@,
                old(self)@.net.read_clogs,
                connection_id.0,
            ),
    {
        if let Some(clog) = self.network.read_clogs.get(&connection_id.0) {
            return self.current_time.lt(&clog.expires_at);
        }
        let ppm: u32 = self.network.config.chaos.clog_probability;
        ppm > 0 && self.rng.random_bool(ppm)
    }

    /// Clogs a connection's reads for a random time.
    pub fn clog_read(&mut self, connection_id: ConnectionId)
        requires
            old(self).wf(),
        ensures
            final(self).wf(),
            final(self)@ == read_clogged(old(self)@, connection_id.0),
    {
        let duration = sample_duration(&mut self.rng, &self.network.config.chaos.clog_duration);
        let expires_at = self.current_time.saturating_add(duration);
        let ghost before = self.network.read_clogs@;
        self.network.read_clogs.insert(connection_id.0, ClogState { expires_at });
        assert(clog_views(self.network.read_clogs@) =~= clog_views(before).insert(
            connection_id.0,
            expires_at@,
        ));
        self.schedule_at(
            expires_at,
            Event::Connection { id: connection_id.0, state: ConnectionStateChange::ReadClogClear },
        );
    }

    /// Whether a connection's reads are clogged.
    pub fn is_read_clogged(&self, connection_id: ConnectionId) -> (b: bool)
        requires
            self.wf(),
        ensures
            b == blocked(self@.net.read_clogs, connection_id.0, self@.now),
    {
        match self.network.read_clogs.get(&connection_id.0) {
            Some(clog) => self.current_time.lt(&clog.expires_at),
            None => false,
        }
    }

    /// Notes that a task waits for the end of a read clog.
    pub fn register_read_clog_waker(&mut self, connection_id: ConnectionId, token: u64)
        requires
            old(self).wf(),
        ensures
            final(self).wf(),
            final(self)@ == (WorldView {
                wakers: WakersView {
                    read_clog_wakers: waiter_added(
                        old(self)@.wakers.read_clog_wakers,
                        connection_id.0,
                        token,
                    ),
                    ..old(self)@.wakers
                },
                ..old(self)@
            }),
    {
        add_waiter(&mut self.wakers.read_clog_wakers, connection_id.0, token);
    }

    /// Cuts a connection for a time. What is buffered stays buffered, and the
    /// connection comes back by itself.
    pub fn cut_connection(&mut self, connection_id: ConnectionId, duration: Duration)
        requires
            old(self).wf(),
        ensures
            final(self).wf(),
            final(self)@ == cut_for(old(self)@, connection_id.0, duration@),
    {
        let expires_at = self.current_time.saturating_add(duration);
        if let Some(conn) = self.network.connections.get_mut(&connection_id.0) {
            conn.is_cut = true;
            conn.cut_expiry = Some(expires_at);
        } else {
            return;
        }
        self.schedule_at(
            expires_at,
            Event::Connection { id: connection_id.0, state: ConnectionStateChange::CutRestore },
        );
    }

    /// Whether a connection is cut.
    pub fn is_connection_cut(&self, connection_id: ConnectionId) -> (b: bool)
        requires
            self.wf(),
        ensures
            b == is_cut_now(self@, connection_id.0),
    {
        match self.network.connections.get(&connection_id.0) {
            Some(conn) => match conn.cut_expiry {
                Some(expiry) => conn.is_cut && self.current_time.lt(&expiry),
                None => false,
            },
            None => false,
        }
    }

    /// Notes that a task waits for the end of a cut.
    pub fn register_cut_waker(&mut self, connection_id: ConnectionId, token: u64)
        requires
            old(self).wf(),
        ensures
            final(self).wf(),
            final(self)@ == (WorldView {
                wakers: WakersView {
                    cut_wakers: waiter_added(
                        old(self)@.wakers.cut_wakers,
                        connection_id.0,
                        token,
                    ),
                    ..old(self)@.wakers
                },
                ..old(self)@
            }),
    {
        add_waiter(&mut self.wakers.cut_wakers, connection_id.0, token);
    }

    /// How many bytes a connection's send buffer may hold.
    pub fn send_buffer_capacity(&self, connection_id: ConnectionId) -> (n: usize)
        requires
            self.wf(),
        ensures
            n == buffer_capacity(self@, connection_id.0),
    {
        match self.network.connections.get(&connection_id.0) {
            Some(conn) => conn.send_buffer_capacity,
            None => 0,
        }
    }

    /// How many bytes a connection's send buffer holds.
    pub fn send_buffer_used(&self, connection_id: ConnectionId) -> (n: usize)
        requires
            self.wf(),
        ensures
            n == buffered_bytes(self@, connection_id.0),
    {
        match self.network.connections.get(&connection_id.0) {
            Some(conn) => count_bytes(&conn.send_buffer),
            None => 0,
        }
    }

    /// How much space is left in a connection's send buffer.
    pub fn available_send_buffer(&self, connection_id: ConnectionId) -> (n: usize)
        requires
            self.wf(),
        ensures
            n == buffer_room(self@, connection_id.0),
    {
        let capacity: usize = self.send_buffer_capacity(connection_id);
        let used: usize = self.send_buffer_used(connection_id);
        if capacity >= used {
            capacity - used
        } else {
            0
        }
    }

    /// Notes that a task waits for space in a send buffer.
    pub fn register_send_buffer_waker(&mut self, connection_id: ConnectionId, token: u64)
        requires
            old(self).wf(),
        ensures
            final(self).wf(),
            final(self)@ == space_awaited(old(self)@, connection_id.0, token),
    {
        add_waiter(&mut self.wakers.send_buffer_wakers, connection_id.0, token);
    }

    /// The base latency from one address to another, if one is set.
    pub fn get_pair_latency(&self, src: IpAddr, dst: IpAddr) -> (r: Option<Duration>)
        requires
            self.wf(),
        ensures
            match r {
                Some(d) => self@.net.pair_latencies.contains_key((src, dst)) && d@
                    == self@.net.pair_latencies[(src, dst)],
                None => !self@.net.pair_latencies.contains_key((src, dst)),
            },
    {
        match self.network.pair_latencies.get(&(src, dst)) {
            Some(d) => Some(*d),
            None => None,
        }
    }

    /// Sets the base latency from one address to another, unless one is set.
    /// Returns the one that then holds.
    pub fn set_pair_latency_if_not_set(
        &mut self,
        src: IpAddr,
        dst: IpAddr,
        latency: Duration,
    ) -> (d: Duration)
        requires
            old(self).wf(),
        ensures
            final(self).wf(),
            final(self)@ == latency_set(old(self)@, (src, dst), latency@),
            d@ == final(self)@.net.pair_latencies[(src, dst)],
    {
        match self.get_pair_latency(src, dst) {
            Some(d) => d,
            None => {
                self.network.pair_latencies.insert((src, dst), latency);
                latency
            },
        }
    }

    /// The base latency between the ends of a connection. Draws one where none is
    /// set.
    pub fn get_connection_base_latency(&mut self, connection_id: ConnectionId) -> (d: Duration)
        requires
            old(self).wf(),
        ensures
            final(self).wf(),
            (d@, final(self)@) == base_latency(old(self)@, connection_id.0),
    {
        let mut pair: (IpAddr, IpAddr) = (IpAddr::V4(0), IpAddr::V4(0));
        if let Some(conn) = self.network.connections.get(&connection_id.0) {
            if let (Some(local_ip), Some(remote_ip)) = (conn.local_ip, conn.remote_ip) {
                pair = (local_ip, remote_ip);
            }
        }
        match self.get_pair_latency(pair.0, pair.1) {
            Some(d) => d,
            None => {
                let d = sample_duration(&mut self.rng, &self.network.config.write_latency);
                self.set_pair_latency_if_not_set(pair.0, pair.1, d)
            },
        }
    }

    /// A connection's own send delay.
    pub fn get_send_delay(&self, connection_id: ConnectionId) -> (r: Option<Duration>)
        requires
            self.wf(),
        ensures
            opt_nanos(r) == (if self@.net.connections.contains_key(connection_id.0) {
                self@.net.connections[connection_id.0].send_delay
            } else {
                None
            }),
    {
        match self.network.connections.get(&connection_id.0) {
            Some(conn) => conn.send_delay,
            None => None,
        }
    }

    /// A connection's own receive delay.
    pub fn get_recv_delay(&self, connection_id: ConnectionId) -> (r: Option<Duration>)
        requires
            self.wf(),
        ensures
            opt_nanos(r) == (if self@.net.connections.contains_key(connection_id.0) {
                self@.net.connections[connection_id.0].recv_delay
            } else {
                None
            }),
    {
        match self.network.connections.get(&connection_id.0) {
            Some(conn) => conn.recv_delay,
            None => None,
        }
    }

    /// Sets a connection's own delays.
    pub fn set_asymmetric_delays(
        &mut self,
        connection_id: ConnectionId,
        send_delay: Option<Duration>,
        recv_delay: Option<Duration>,
    )
        requires
            old(self).wf(),
        ensures
            final(self).wf(),
            final(self)@ == delays_set(
                old(self)@,
                connection_id.0,
                opt_nanos(send_delay),
                opt_nanos(recv_delay),
            ),
    {
        if let Some(conn) = self.network.connections.get_mut(&connection_id.0) {
            conn.send_delay = send_delay;
            conn.recv_delay = recv_delay;
        }
    }

    /// Whether a connection was closed for good.
    pub fn is_connection_closed(&self, connection_id: ConnectionId) -> (b: bool)
        requires
            self.wf(),
        ensures
            b == (self@.net.connections.contains_key(connection_id.0)
                && self@.net.connections[connection_id.0].is_closed),
    {
        match self.network.connections.get(&connection_id.0) {
            Some(conn) => conn.is_closed,
            None => false,
        }
    }

    /// Closes a connection in order: the peer reads the end of the stream.
    pub fn close_connection(&mut self, connection_id: ConnectionId)
        requires
            old(self).wf(),
        ensures
            final(self).wf(),
            final(self)@ == closed(old(self)@, connection_id.0, CloseReason::Graceful),
    {
        self.close_connection_with_reason(connection_id, CloseReason::Graceful);
    }

    /// Closes a connection in order: the peer reads the end of the stream.
    pub fn close_connection_graceful(&mut self, connection_id: ConnectionId)
        requires
            old(self).wf(),
        ensures
            final(self).wf(),
            final(self)@ == closed(old(self)@, connection_id.0, CloseReason::Graceful),
    {
        self.close_connection_with_reason(connection_id, CloseReason::Graceful);
    }

    /// Closes a connection abruptly: the peer sees a reset.
    pub fn close_connection_abort(&mut self, connection_id: ConnectionId)
        requires
            old(self).wf(),
        ensures
            final(self).wf(),
            final(self)@ == closed(old(self)@, connection_id.0, CloseReason::Aborted),
    {
        self.close_connection_with_reason(connection_id, CloseReason::Aborted);
    }

    /// How a connection was closed.
    pub fn get_close_reason(&self, connection_id: ConnectionId) -> (r: CloseReason)
        requires
            self.wf(),
        ensures
            r == (if self@.net.connections.contains_key(connection_id.0) {
                self@.net.connections[connection_id.0].close_reason
            } else {
                CloseReason::Open
            }),
    {
        match self.network.connections.get(&connection_id.0) {
            Some(conn) => conn.close_reason,
            None => CloseReason::Open,
        }
    }

    /// The other end of a connection.
    fn paired_with(&self, id: u64) -> (r: Option<ConnectionId>)
        requires
            self.wf(),
        ensures
            r == other_end(self@, id),
    {
        match self.network.connections.get(&id) {
            Some(conn) => conn.paired_connection,
            None => None,
        }
    }

    /// Closes one end of a connection, where it is open.
    fn close_one_end(&mut self, id: u64, reason: CloseReason)
        requires
            old(self).wf(),
        ensures
            final(self).wf(),
            final(self)@ == one_end_closed(old(self)@, id, reason),
    {
        if let Some(conn) = self.network.connections.get_mut(&id) {
            if !conn.is_closed {
                conn.is_closed = true;
                conn.close_reason = reason;
            }
        }
        proof {
            if old(self)@.net.connections.contains_key(id)
                && old(self)@.net.connections[id].is_closed {
                assert(self@ =~= old(self)@);
            }
        }
    }

    /// Closes both ends of a connection.
    fn close_connection_with_reason(&mut self, connection_id: ConnectionId, reason: CloseReason)
        requires
            old(self).wf(),
        ensures
            final(self).wf(),
            final(self)@ == closed(old(self)@, connection_id.0, reason),
    {
        let id: u64 = connection_id.0;
        let paired = self.paired_with(id);
        self.close_one_end(id, reason);
        match paired {
            Some(other) => {
                self.close_one_end(other.0, reason);
                self.wake_reader(id);
                self.wake_reader(other.0);
            },
            None => {
                self.wake_reader(id);
            },
        }
    }

    /// Closes the sending side of a connection.
    fn close_send_side(&mut self, id: u64)
        requires
            old(self).wf(),
        ensures
            final(self).wf(),
            final(self)@ == send_side_closed(old(self)@, id),
    {
        if let Some(conn) = self.network.connections.get_mut(&id) {
            conn.send_closed = true;
            conn.send_buffer.clear();
            assert(messages(conn.send_buffer@) =~= Seq::<Seq<u8>>::empty());
        }
    }

    /// Closes the receiving side of a connection.
    fn close_recv_side(&mut self, id: u64)
        requires
            old(self).wf(),
        ensures
            final(self).wf(),
            final(self)@ == recv_side_closed(old(self)@, id),
    {
        if let Some(conn) = self.network.connections.get_mut(&id) {
            conn.recv_closed = true;
        }
    }

    /// Closes a connection on one side or both: its own sending side, the
    /// receiving side of the other end.
    pub fn close_connection_asymmetric(
        &mut self,
        connection_id: ConnectionId,
        close_send: bool,
        close_recv: bool,
    )
        requires
            old(self).wf(),
        ensures
            final(self).wf(),
            final(self)@ == half_closed(old(self)@, connection_id.0, close_send, close_recv),
    {
        let id: u64 = connection_id.0;
        let paired = self.paired_with(id);
        if close_send {
            self.close_send_side(id);
        }
        if close_recv {
            if let Some(other) = paired {
                self.close_recv_side(other.0);
            }
        }
        if close_send {
            self.wake_reader(id);
        }
        if close_recv {
            if let Some(other) = paired {
                self.wake_reader(other.0);
            }
        }
    }

    /// Rolls for a random close. Returns whether one that happened is reported to
    /// the caller.
    pub fn roll_random_close(&mut self, connection_id: ConnectionId) -> (r: Option<bool>)
        requires
            old(self).wf(),
        ensures
            final(self).wf(),
            (r, final(self)@) == random_close_rolled(old(self)@, connection_id.0),
    {
        let chaos = self.network.config.chaos;
        if chaos.random_close_probability == 0 {
            return None;
        }
        let since_last = self.current_time.saturating_sub(self.network.last_random_close_time);
        if since_last.lt(&chaos.random_close_cooldown) {
            return None;
        }
        if !buggify_internal(
            &mut self.buggify,
            &mut self.rng,
            chaos.random_close_probability,
            "random close",
        ) {
            return None;
        }
        self.network.last_random_close_time = self.current_time;
        let a: u64 = self.rng.random_ratio();
        let b: u64 = self.rng.random_ratio();
        let close_recv: bool = is_ratio_below(a, crate::connections::CLOSE_RECV_BELOW);
        let close_send: bool = is_ratio_above(a, crate::connections::CLOSE_SEND_ABOVE);
        self.close_connection_asymmetric(connection_id, close_send, close_recv);
        Some(is_ratio_below(b, chaos.random_close_explicit_ratio))
    }

    /// Whether a connection's sending side is closed.
    pub fn is_send_closed(&self, connection_id: ConnectionId) -> (b: bool)
        requires
            self.wf(),
        ensures
            b == (self@.net.connections.contains_key(connection_id.0) && (
            self@.net.connections[connection_id.0].send_closed
                || self@.net.connections[connection_id.0].is_closed)),
    {
        match self.network.connections.get(&connection_id.0) {
            Some(conn) => conn.send_closed || conn.is_closed,
            None => false,
        }
    }

    /// Whether a connection's receiving side is closed.
    pub fn is_recv_closed(&self, connection_id: ConnectionId) -> (b: bool)
        requires
            self.wf(),
        ensures
            b == (self@.net.connections.contains_key(connection_id.0) && (
            self@.net.connections[connection_id.0].recv_closed
                || self@.net.connections[connection_id.0].is_closed)),
    {
        match self.network.connections.get(&connection_id.0) {
            Some(conn) => conn.recv_closed || conn.is_closed,
            None => false,
        }
    }

    /// Blocks communication from one address to another for a time.
    pub fn partition_pair(&mut self, from_ip: IpAddr, to_ip: IpAddr, duration: Duration)
        requires
            old(self).wf(),
        ensures
            final(self).wf(),
            final(self)@ == pair_partitioned_for(old(self)@, from_ip, to_ip, duration@),
    {
        let expires_at = self.current_time.saturating_add(duration);
        self.network.ip_partitions.insert((from_ip, to_ip), PartitionState { expires_at });
        self.schedule_at(
            expires_at,
            Event::Connection { id: 0, state: ConnectionStateChange::PartitionRestore },
        );
    }

    /// Blocks all communication from an address for a time.
    pub fn partition_send_from(&mut self, ip: IpAddr, duration: Duration)
        requires
            old(self).wf(),
        ensures
            final(self).wf(),
            final(self)@ == send_partitioned_for(old(self)@, ip, duration@),
    {
        let expires_at = self.current_time.saturating_add(duration);
        self.network.send_partitions.insert(ip, expires_at);
        self.schedule_at(
            expires_at,
            Event::Connection { id: 0, state: ConnectionStateChange::SendPartitionClear },
        );
    }

    /// Blocks all communication to an address for a time.
    pub fn partition_recv_to(&mut self, ip: IpAddr, duration: Duration)
        requires
            old(self).wf(),
        ensures
            final(self).wf(),
            final(self)@ == recv_partitioned_for(old(self)@, ip, duration@),
    {
        let expires_at = self.current_time.saturating_add(duration);
        self.network.recv_partitions.insert(ip, expires_at);
        self.schedule_at(
            expires_at,
            Event::Connection { id: 0, state: ConnectionStateChange::RecvPartitionClear },
        );
    }

    /// Ends the partition from one address to another.
    pub fn restore_partition(&mut self, from_ip: IpAddr, to_ip: IpAddr)
        requires
            old(self).wf(),
        ensures
            final(self).wf(),
            final(self)@ == pair_restored(old(self)@, from_ip, to_ip),
    {
        self.network.ip_partitions.remove(&(from_ip, to_ip));
    }

    /// Whether nothing gets from one address to another.
    pub fn is_partitioned(&self, from_ip: IpAddr, to_ip: IpAddr) -> (b: bool)
        requires
            self.wf(),
        ensures
            b == partitioned(self@.net, from_ip, to_ip, self@.now),
    {
        self.network.is_partitioned(from_ip, to_ip, self.current_time)
    }
}

/// A connection's writes are clogged for a random time.
pub open spec fn write_clogged<R: RandomProvider>(w: WorldView<R>, id: u64) -> WorldView<R> {
    let (nanos, rng) = duration_draw(w.rng, w.net.config.chaos.clog_duration);
    write_clogged_until(WorldView { rng, ..w }, id, plus_nanos(w.now, nanos as nat))
}

/// A connection's reads are clogged for a random time.
pub open spec fn read_clogged<R: RandomProvider>(w: WorldView<R>, id: u64) -> WorldView<R> {
    let (nanos, rng) = duration_draw(w.rng, w.net.config.chaos.clog_duration);
    read_clogged_until(WorldView { rng, ..w }, id, plus_nanos(w.now, nanos as nat))
}

/// A connection is cut for some time, if it exists.
pub open spec fn cut_for<R>(w: WorldView<R>, id: u64, duration: nat) -> WorldView<R> {
    cut_until(w, id, plus_nanos(w.now, duration))
}

/// Communication from one address to another is blocked for some time.
pub open spec fn pair_partitioned_for<R>(
    w: WorldView<R>,
    from_ip: IpAddr,
    to_ip: IpAddr,
    duration: nat,
) -> WorldView<R> {
    pair_partitioned(w, from_ip, to_ip, plus_nanos(w.now, duration))
}

/// An address cannot send for some time.
pub open spec fn send_partitioned_for<R>(
    w: WorldView<R>,
    ip: IpAddr,
    duration: nat,
) -> WorldView<R> {
    send_partitioned(w, ip, plus_nanos(w.now, duration))
}

/// An address cannot receive for some time.
pub open spec fn recv_partitioned_for<R>(
    w: WorldView<R>,
    ip: IpAddr,
    duration: nat,
) -> WorldView<R> {
    recv_partitioned(w, ip, plus_nanos(w.now, duration))
}

/// The base latency between the ends of a connection, with the world after it was asked
/// for: the one that was set, else one that is drawn and set.
pub open spec fn base_latency<R: RandomProvider>(w: WorldView<R>, id: u64) -> (nat, WorldView<R>) {
    let pair = address_pair(w, id);
    if w.net.pair_latencies.contains_key(pair) {
        (w.net.pair_latencies[pair], w)
    } else {
        let (nanos, rng) = duration_draw(w.rng, w.net.config.write_latency);
        (nanos as nat, latency_set(WorldView { rng, ..w }, pair, nanos as nat))
    }
}

/// A task waits for the end of a write clog.
pub open spec fn clog_waker_added<R>(w: WorldView<R>, id: u64, token: u64) -> WorldView<R> {
    WorldView {
        wakers: WakersView {
            clog_wakers: waiter_added(w.wakers.clog_wakers, id, token),
            ..w.wakers
        },
        ..w
    }
}

/// Counts the bytes of a send buffer.
fn count_bytes(buffer: &VecDeque<Vec<u8>>) -> (n: usize)
    ensures
        n == at_most(total_bytes(messages(buffer@)), usize::MAX as nat),
{
    let mut n: usize = 0;
    let mut i: usize = 0;
    let ghost all = messages(buffer@);
    while i < buffer.len()
        invariant
            i <= buffer@.len(),
            all == messages(buffer@),
            n == at_most(total_bytes(all.take(i as int)), usize::MAX as nat),
        decreases buffer@.len() - i,
    {
        n = n.saturating_add(buffer[i].len());
        assert(all.take(i + 1).drop_last() =~= all.take(i as int));
        assert(all.take(i + 1).last() == buffer@[i as int]@);
        i += 1;
    }
    assert(all.take(i as int) =~= all);
    n
}

} // verus!
