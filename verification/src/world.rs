//! The simulated world: time, events and the network.

use crate::buggify::{Buggify, BuggifyView, buggify_draw, buggify_internal, buggify_off};
use crate::counts::next_count;
use crate::config::{NetworkConfiguration, duration_draw, sample_duration};
use crate::events::{
    ConnectionStateChange, Event, EventQueue, EventView, NetworkOperation, ScheduledEvent,
    ScheduledView, only_infrastructure, scheduled,
};
use crate::ids::{ascending, ids_in, in_order, lemma_in_order, tokens_in, values_in_order};
use crate::random::{RandomProvider, random_range_or_start, ratio_below};
use crate::state::{
    ConnView, ConnectionId, IpAddr, NetView, NetworkState, PartitionState, clog_views,
    connection_partitioned, empty_net, messages, partitioned,
};
use crate::table::{Table, TableKey, entries_map, keys_unique, lemma_entries_map};
use crate::time::{Duration, max_nanos, minus_nanos, plus_nanos};
use crate::wakers::{
    WakerRegistry, WakersView, all_waiting, all_waiting_in_turn, no_wakers, waiting,
};
use std::collections::HashSet;
use vstd::prelude::*;

verus! {

/// How many bytes a send buffer holds where nothing else is set.
pub const DEFAULT_SEND_BUFFER_CAPACITY: usize = 65_536;

/// How often a run looks whether only infrastructure events are left.
pub const TERMINATION_CHECK_INTERVAL: u64 = 50;

/// The state of a simulation.
pub struct SimWorld<R: RandomProvider> {
    /// The simulation time.
    pub current_time: Duration,
    /// The drifted time, which can be ahead of the simulation time.
    pub timer_time: Duration,
    /// The events to come.
    pub event_queue: EventQueue,
    /// The sequence number of the next event.
    pub next_sequence: u64,
    /// The network.
    pub network: NetworkState,
    /// The waiting tasks.
    pub wakers: WakerRegistry,
    /// The identifier of the next sleeping task.
    pub next_task_id: u64,
    /// The sleeping tasks whose time has come.
    pub awakened_tasks: HashSet<u64>,
    /// How many events were processed.
    pub events_processed: u64,
    /// When bits were last flipped.
    pub last_bit_flip_time: Duration,
    /// The fault injection.
    pub buggify: Buggify,
    /// The source of randomness.
    pub rng: R,
    /// Tokens of the tasks to wake, not handed out yet.
    pub woken: Vec<u64>,
}

/// What a [`SimWorld`] says.
#[verifier::ext_equal]
pub ghost struct WorldView<R> {
    pub now: nat,
    pub timer: nat,
    pub queue: Seq<ScheduledView>,
    pub next_sequence: u64,
    pub net: NetView,
    pub wakers: WakersView,
    pub next_task_id: u64,
    pub awakened: Set<u64>,
    pub events_processed: u64,
    pub last_bit_flip: nat,
    pub buggify: BuggifyView,
    pub rng: R,
    pub woken: Seq<u64>,
}

impl<R: RandomProvider> View for SimWorld<R> {
    type V = WorldView<R>;

    open spec fn view(&self) -> WorldView<R> {
        WorldView {
            now: self.current_time@,
            timer: self.timer_time@,
            queue: self.event_queue@,
            next_sequence: self.next_sequence,
            net: self.network@,
            wakers: self.wakers@,
            next_task_id: self.next_task_id,
            awakened: self.awakened_tasks@,
            events_processed: self.events_processed,
            last_bit_flip: self.last_bit_flip_time@,
            buggify: self.buggify@,
            rng: self.rng,
            woken: self.woken@,
        }
    }
}

/// The world before anything happened.
pub open spec fn empty_world<R>(config: NetworkConfiguration, rng: R) -> WorldView<R> {
    WorldView {
        now: 0,
        timer: 0,
        queue: Seq::empty(),
        next_sequence: 0,
        net: empty_net(config),
        wakers: no_wakers(),
        next_task_id: 0,
        awakened: Set::empty(),
        events_processed: 0,
        last_bit_flip: 0,
        buggify: buggify_off(),
        rng,
        woken: Seq::empty(),
    }
}

/// Every connection has an identifier that was given out.
pub open spec fn ids_allocated(n: NetView) -> bool {
    forall|id: u64| #[trigger] n.connections.contains_key(id) ==> id < n.next_connection_id
}

/// An event was scheduled for the time `time`.
pub open spec fn event_scheduled<R>(w: WorldView<R>, time: nat, event: EventView) -> WorldView<R> {
    WorldView {
        queue: scheduled(w.queue, ScheduledView { time, event, sequence: w.next_sequence }),
        next_sequence: next_count(w.next_sequence),
        ..w
    }
}

/// A connection changed.
pub open spec fn conn_updated<R>(w: WorldView<R>, id: u64, c: ConnView) -> WorldView<R> {
    WorldView {
        net: NetView { connections: w.net.connections.insert(id, c), ..w.net },
        ..w
    }
}

/// Tasks are to be woken, after those that are to be woken already.
pub open spec fn woken_too<R>(w: WorldView<R>, tokens: Seq<u64>) -> WorldView<R> {
    WorldView { woken: w.woken + tokens, ..w }
}

/// The task that reads a connection is woken.
pub open spec fn reader_woken<R>(w: WorldView<R>, id: u64) -> WorldView<R> {
    WorldView {
        wakers: WakersView { read_wakers: w.wakers.read_wakers.remove(id), ..w.wakers },
        woken: w.woken + waiting(w.wakers.read_wakers, id),
        ..w
    }
}

/// The tasks that wait for space in a send buffer are woken.
pub open spec fn writers_woken<R>(w: WorldView<R>, id: u64) -> WorldView<R> {
    WorldView {
        wakers: WakersView {
            send_buffer_wakers: w.wakers.send_buffer_wakers.remove(id),
            ..w.wakers
        },
        woken: w.woken + all_waiting(w.wakers.send_buffer_wakers, id),
        ..w
    }
}

/// The tasks that wait for the end of a cut are woken.
pub open spec fn cut_waiters_woken<R>(w: WorldView<R>, id: u64) -> WorldView<R> {
    WorldView {
        wakers: WakersView { cut_wakers: w.wakers.cut_wakers.remove(id), ..w.wakers },
        woken: w.woken + all_waiting(w.wakers.cut_wakers, id),
        ..w
    }
}

/// The write clogs that are over at the time `now`.
pub open spec fn expired(m: Map<u64, nat>, now: nat) -> Set<u64> {
    m.dom().filter(|id: u64| now >= m[id])
}

/// The entries of `m` that last beyond the time `now`.
pub open spec fn unexpired<K>(m: Map<K, nat>, now: nat) -> Map<K, nat> {
    m.restrict(m.dom().filter(|k: K| now < m[k]))
}

/// Expired write clogs are gone and the tasks that waited for that are woken, by rising
/// connections.
pub open spec fn clogs_cleared<R>(w: WorldView<R>) -> WorldView<R> {
    let over = expired(w.net.connection_clogs, w.now);
    WorldView {
        net: NetView { connection_clogs: unexpired(w.net.connection_clogs, w.now), ..w.net },
        wakers: WakersView {
            clog_wakers: w.wakers.clog_wakers.remove_keys(over),
            ..w.wakers
        },
        woken: w.woken + all_waiting_in_turn(w.wakers.clog_wakers, in_order(over)),
        ..w
    }
}

/// A partition between the two ends of a connection was rolled for.
pub open spec fn partition_rolled<R: RandomProvider>(w: WorldView<R>, id: u64) -> WorldView<R> {
    let c = w.net.connections[id];
    if w.net.connections.contains_key(id) && c.local_ip is Some && c.remote_ip is Some
        && !partitioned(w.net, c.local_ip->0, c.remote_ip->0, w.now) {
        let (ratio, rng) = w.rng.ratio_draw();
        if ratio_below(ratio, w.net.config.chaos.partition_probability) {
            let (nanos, rng) = duration_draw(rng, w.net.config.chaos.partition_duration);
            let expires_at = plus_nanos(w.now, nanos as nat);
            event_scheduled(
                WorldView {
                    rng,
                    net: NetView {
                        ip_partitions: w.net.ip_partitions.insert(
                            (c.local_ip->0, c.remote_ip->0),
                            expires_at,
                        ),
                        ..w.net
                    },
                    ..w
                },
                expires_at,
                EventView::Connection { id: 0, state: ConnectionStateChange::PartitionRestore },
            )
        } else {
            WorldView { rng, ..w }
        }
    } else {
        w
    }
}

/// Partitions were rolled for, for the connections below `upto` in order.
pub open spec fn partitions_rolled<R: RandomProvider>(w: WorldView<R>, upto: int) -> WorldView<R>
    decreases upto,
{
    if upto <= 0 {
        w
    } else {
        partition_rolled(partitions_rolled(w, upto - 1), (upto - 1) as u64)
    }
}

/// Partitions were triggered at random.
pub open spec fn partitions_triggered<R: RandomProvider>(w: WorldView<R>) -> WorldView<R> {
    if w.net.config.chaos.partition_probability == 0 {
        w
    } else {
        partitions_rolled(w, w.net.next_connection_id as int)
    }
}

/// How many bits to flip for a random number: one more than its leading zeros,
/// within the given bounds. Few bits are common and many are rare.
pub open spec fn flip_bit_count(random_value: u32, min_bits: u32, max_bits: u32) -> u32 {
    if random_value == 0 {
        if max_bits < 32 {
            max_bits
        } else {
            32
        }
    } else {
        let bits = (1 + vstd::std_specs::bits::u32_leading_zeros(random_value)) as u32;
        if bits < min_bits {
            min_bits
        } else if bits > max_bits {
            max_bits
        } else {
            bits
        }
    }
}

/// `data` after `n` flips at random positions, none of which flips a position of
/// `flipped` or one position twice.
pub open spec fn bits_flipped<R: RandomProvider>(
    rng: R,
    data: Seq<u8>,
    flipped: Set<(u64, u64)>,
    n: nat,
) -> (Seq<u8>, R)
    decreases n,
{
    if n == 0 {
        (data, rng)
    } else {
        let (a, rng) = rng.number_draw();
        let (b, rng) = rng.number_draw();
        let byte = (a as int % data.len() as int) as u64;
        let bit = (b % 8) as u64;
        if flipped.contains((byte, bit)) {
            bits_flipped(rng, data, flipped, (n - 1) as nat)
        } else {
            bits_flipped(
                rng,
                data.update(byte as int, data[byte as int] ^ (1u8 << (bit as u8))),
                flipped.insert((byte, bit)),
                (n - 1) as nat,
            )
        }
    }
}

/// The location at which delivered bits are flipped.
pub open spec fn at_delivery() -> Seq<char> {
    "delivery"@
}

/// The location at which writes are cut short.
pub open spec fn at_send() -> Seq<char> {
    "send"@
}

/// The location at which connections are closed at random.
pub open spec fn at_random_close() -> Seq<char> {
    "random close"@
}

/// What arrives of the data that is delivered, with the world after that was
/// decided.
pub open spec fn corrupted<R: RandomProvider>(w: WorldView<R>, data: Seq<u8>) -> (
    Seq<u8>,
    WorldView<R>,
) {
    let chaos = w.net.config.chaos;
    if data.len() == 0 || minus_nanos(w.now, w.last_bit_flip) < chaos.bit_flip_cooldown@ {
        (data, w)
    } else {
        let (fires, buggify, rng) = buggify_draw(
            w.buggify,
            w.rng,
            chaos.bit_flip_probability,
            at_delivery(),
        );
        if !fires {
            (data, WorldView { buggify, rng, ..w })
        } else {
            let (number, rng) = rng.number_draw();
            let count = flip_bit_count(
                (number % 0x1_0000_0000) as u32,
                chaos.bit_flip_min_bits,
                chaos.bit_flip_max_bits,
            );
            let (flipped, rng) = bits_flipped(rng, data, Set::empty(), count as nat);
            (flipped, WorldView { buggify, rng, last_bit_flip: w.now, ..w })
        }
    }
}

/// Data was delivered to a connection.
pub open spec fn delivered<R: RandomProvider>(
    w: WorldView<R>,
    id: u64,
    data: Seq<u8>,
) -> WorldView<R> {
    if w.net.connections.contains_key(id) {
        let (arrived, w) = corrupted(w, data);
        let c = w.net.connections[id];
        reader_woken(
            conn_updated(w, id, ConnView { receive_buffer: c.receive_buffer + arrived, ..c }),
            id,
        )
    } else {
        w
    }
}

/// The sender of a connection is done for now.
pub open spec fn sender_idle<R>(w: WorldView<R>, id: u64) -> WorldView<R> {
    conn_updated(w, id, ConnView { send_in_progress: false, ..w.net.connections[id] })
}

/// The sender goes on at once where messages are left, and is done where not.
pub open spec fn sender_continued<R>(w: WorldView<R>, id: u64) -> WorldView<R> {
    if w.net.connections[id].send_buffer.len() > 0 {
        event_scheduled(w, w.now, EventView::ProcessSendBuffer { connection_id: id })
    } else {
        sender_idle(w, id)
    }
}

/// How many bytes of a message are sent at once, with the world after that was
/// decided: all of them, unless the write is cut short.
pub open spec fn bytes_sent<R: RandomProvider>(w: WorldView<R>, len: nat) -> (nat, WorldView<R>) {
    let (fires, buggify, rng) = buggify_draw(
        w.buggify,
        w.rng,
        crate::buggify::DEFAULT_FIRING,
        at_send(),
    );
    if fires && len > 0 {
        let limit = w.net.config.chaos.partial_write_max_bytes;
        let most: u64 = if len < limit {
            len as u64
        } else {
            limit
        };
        let (n, rng) = crate::random::range_or_start_draw(rng, 0, next_count(most));
        (if n < len {
            n as nat
        } else {
            len
        }, WorldView { buggify, rng, ..w })
    } else {
        (len, WorldView { buggify, rng, ..w })
    }
}

/// The delay before a message leaves, with the world after that was decided: a
/// nanosecond where more messages follow, else the connection's own delay, else
/// a configured one.
pub open spec fn send_delay<R: RandomProvider>(w: WorldView<R>, id: u64) -> (nat, WorldView<R>) {
    let c = w.net.connections[id];
    if c.send_buffer.len() > 0 {
        (1, w)
    } else if c.send_delay is Some {
        (c.send_delay->0, w)
    } else {
        let (nanos, rng) = duration_draw(w.rng, w.net.config.write_latency);
        (nanos as nat, WorldView { rng, ..w })
    }
}

/// The delay at the receiving end, with the world after that was decided: the
/// connection's own delay, else a configured one.
pub open spec fn receive_delay<R: RandomProvider>(
    w: WorldView<R>,
    paired: Option<ConnectionId>,
) -> (nat, WorldView<R>) {
    match paired {
        None => (0, w),
        Some(p) => if w.net.connections.contains_key(p.0)
            && w.net.connections[p.0].recv_delay is Some {
            (w.net.connections[p.0].recv_delay->0, w)
        } else {
            let (nanos, rng) = duration_draw(w.rng, w.net.config.read_latency);
            (nanos as nat, WorldView { rng, ..w })
        },
    }
}

/// The delay of a message from one end to the other, with the world after that was
/// decided.
pub open spec fn travel_delay<R: RandomProvider>(w: WorldView<R>, id: u64) -> (nat, WorldView<R>) {
    let (there, w1) = send_delay(w, id);
    let (here, w2) = receive_delay(w1, w.net.connections[id].paired_connection);
    (plus_nanos(there, here), w2)
}

/// The first message of a connection was taken off its send buffer.
pub open spec fn message_taken<R>(w: WorldView<R>, id: u64) -> WorldView<R> {
    let c = w.net.connections[id];
    conn_updated(
        writers_woken(w, id),
        id,
        ConnView { send_buffer: c.send_buffer.drop_first(), ..c },
    )
}

/// What a message holds beyond its first `n` bytes is to be sent next.
pub open spec fn remainder_kept<R>(w: WorldView<R>, id: u64, message: Seq<u8>, n: nat) -> WorldView<
    R,
> {
    let c = w.net.connections[id];
    if n < message.len() {
        conn_updated(
            w,
            id,
            ConnView { send_buffer: seq![message.skip(n as int)] + c.send_buffer, ..c },
        )
    } else {
        w
    }
}

/// A time, cut off at the longest representable span.
pub open spec fn within_span(time: nat) -> nat {
    plus_nanos(time, 0)
}

/// When a message arrives that travels for `delay`: not before the messages that were
/// sent earlier.
pub open spec fn arrival_time<R>(w: WorldView<R>, id: u64, delay: nat) -> nat {
    within_span(max_nanos(plus_nanos(w.now, delay), w.net.connections[id].next_send_time))
}

/// Data leaves a connection and arrives at its other end at the time `arrival`.
pub open spec fn data_sent<R>(w: WorldView<R>, id: u64, arrival: nat, data: Seq<u8>) -> WorldView<
    R,
> {
    let c = w.net.connections[id];
    let w = conn_updated(w, id, ConnView { next_send_time: plus_nanos(arrival, 1), ..c });
    if c.paired_connection is Some {
        event_scheduled(
            w,
            arrival,
            EventView::DataDelivery { connection_id: (c.paired_connection->0).0, data },
        )
    } else {
        w
    }
}

/// The first message of a connection that can send was sent, or the part of it
/// that fits.
pub open spec fn message_sent<R: RandomProvider>(w: WorldView<R>, id: u64) -> WorldView<R> {
    let message = w.net.connections[id].send_buffer[0];
    let (n, w) = bytes_sent(message_taken(w, id), message.len());
    let (delay, w) = travel_delay(remainder_kept(w, id, message, n), id);
    let w = data_sent(w, id, arrival_time(w, id, delay), message.take(n as int));
    sender_continued(w, id)
}

/// The send buffer of a connection was processed: its first message was sent, or
/// lost where the connection is partitioned.
pub open spec fn send_processed<R: RandomProvider>(w: WorldView<R>, id: u64) -> WorldView<R> {
    if !w.net.connections.contains_key(id) {
        w
    } else {
        let c = w.net.connections[id];
        if c.send_buffer.len() == 0 {
            sender_idle(w, id)
        } else if connection_partitioned(w.net, id, w.now) {
            sender_continued(message_taken(w, id), id)
        } else {
            message_sent(w, id)
        }
    }
}

/// A cut connection works again.
pub open spec fn cut_restored<R>(w: WorldView<R>, id: u64) -> WorldView<R> {
    let c = w.net.connections[id];
    if w.net.connections.contains_key(id) && c.is_cut {
        cut_waiters_woken(
            conn_updated(w, id, ConnView { is_cut: false, cut_expiry: None, ..c }),
            id,
        )
    } else {
        w
    }
}

/// A connection changed its state.
pub open spec fn connection_changed<R>(
    w: WorldView<R>,
    id: u64,
    state: ConnectionStateChange,
) -> WorldView<R> {
    match state {
        ConnectionStateChange::BindComplete => w,
        ConnectionStateChange::ConnectionReady => w,
        ConnectionStateChange::ClogClear => WorldView {
            net: NetView { connection_clogs: w.net.connection_clogs.remove(id), ..w.net },
            wakers: WakersView { clog_wakers: w.wakers.clog_wakers.remove(id), ..w.wakers },
            woken: w.woken + all_waiting(w.wakers.clog_wakers, id),
            ..w
        },
        ConnectionStateChange::ReadClogClear => WorldView {
            net: NetView { read_clogs: w.net.read_clogs.remove(id), ..w.net },
            wakers: WakersView {
                read_clog_wakers: w.wakers.read_clog_wakers.remove(id),
                ..w.wakers
            },
            woken: w.woken + all_waiting(w.wakers.read_clog_wakers, id),
            ..w
        },
        ConnectionStateChange::PartitionRestore => WorldView {
            net: NetView { ip_partitions: unexpired(w.net.ip_partitions, w.now), ..w.net },
            ..w
        },
        ConnectionStateChange::SendPartitionClear => WorldView {
            net: NetView { send_partitions: unexpired(w.net.send_partitions, w.now), ..w.net },
            ..w
        },
        ConnectionStateChange::RecvPartitionClear => WorldView {
            net: NetView { recv_partitions: unexpired(w.net.recv_partitions, w.now), ..w.net },
            ..w
        },
        ConnectionStateChange::CutRestore => cut_restored(w, id),
    }
}

/// All sleeping and reading tasks are woken: the sleeping ones by rising task ids, then
/// the reading ones by rising connections.
pub open spec fn all_woken<R>(w: WorldView<R>) -> WorldView<R> {
    WorldView {
        wakers: WakersView { task_wakers: Map::empty(), read_wakers: Map::empty(), ..w.wakers },
        woken: w.woken + values_in_order(w.wakers.task_wakers) + values_in_order(
            w.wakers.read_wakers,
        ),
        ..w
    }
}

/// A timer went off.
pub open spec fn timer_fired<R>(w: WorldView<R>, task_id: u64) -> WorldView<R> {
    WorldView {
        awakened: w.awakened.insert(task_id),
        wakers: WakersView { task_wakers: w.wakers.task_wakers.remove(task_id), ..w.wakers },
        woken: w.woken + waiting(w.wakers.task_wakers, task_id),
        ..w
    }
}

/// An event was counted and handled.
pub open spec fn event_processed<R: RandomProvider>(w: WorldView<R>, event: EventView) -> WorldView<
    R,
> {
    event_handled(WorldView { events_processed: next_count(w.events_processed), ..w }, event)
}

/// An event did what it is for.
pub open spec fn event_handled<R: RandomProvider>(w: WorldView<R>, event: EventView) -> WorldView<
    R,
> {
    match event {
        EventView::Timer { task_id } => timer_fired(w, task_id),
        EventView::Connection { id, state } => connection_changed(w, id, state),
        EventView::DataDelivery { connection_id, data } => delivered(w, connection_id, data),
        EventView::ProcessSendBuffer { connection_id } => send_processed(w, connection_id),
        EventView::Shutdown => all_woken(w),
    }
}

/// The world after its next event, if there is one. Time moves to the event;
/// expired clogs go and partitions may come before it is processed.
pub open spec fn stepped<R: RandomProvider>(w: WorldView<R>) -> WorldView<R> {
    if w.queue.len() == 0 {
        w
    } else {
        let w1 = WorldView { now: w.queue[0].time, queue: w.queue.drop_first(), ..w };
        event_processed(partitions_triggered(clogs_cleared(w1)), w.queue[0].event)
    }
}

/// The world after at most `limit` events, and whether it came to an end: no
/// event is left, or at a check none but infrastructure events.
pub open spec fn ran<R: RandomProvider>(w: WorldView<R>, limit: nat) -> (WorldView<R>, bool)
    decreases limit,
{
    if limit == 0 {
        (w, false)
    } else {
        let w1 = stepped(w);
        if w1.queue.len() == 0 || (w1.events_processed % TERMINATION_CHECK_INTERVAL == 0
            && only_infrastructure(w1.queue)) {
            (w1, true)
        } else {
            ran(w1, (limit - 1) as nat)
        }
    }
}

impl<R: RandomProvider> SimWorld<R> {
    /// The parts are well formed.
    pub open spec fn wf(&self) -> bool {
        &&& self.event_queue.wf()
        &&& self.network.wf()
        &&& self.wakers.wf()
        &&& self.buggify.wf()
        &&& ids_allocated(self@.net)
    }

    /// A world with the given settings and source of randomness.
    pub fn new_with_config(config: NetworkConfiguration, rng: R) -> (w: Self)
        ensures
            w.wf(),
            w@ == empty_world(config, rng),
    {
        SimWorld {
            current_time: Duration::zero(),
            timer_time: Duration::zero(),
            event_queue: EventQueue::new(),
            next_sequence: 0,
            network: NetworkState::new(config),
            wakers: WakerRegistry::new(),
            next_task_id: 0,
            awakened_tasks: HashSet::new(),
            events_processed: 0,
            last_bit_flip_time: Duration::zero(),
            buggify: Buggify::new(),
            rng,
            woken: Vec::new(),
        }
    }

    /// Schedules an event for a time.
    pub fn schedule_at(&mut self, time: Duration, event: Event)
        requires
            old(self).wf(),
        ensures
            final(self).wf(),
            final(self)@ == event_scheduled(old(self)@, time@, event@),
    {
        let sequence: u64 = self.next_sequence;
        self.next_sequence = self.next_sequence.wrapping_add(1);
        self.event_queue.schedule(ScheduledEvent::new(time, event, sequence));
    }

    /// Notes that a task is to be woken.
    pub(crate) fn wake(&mut self, token: u64)
        requires
            old(self).wf(),
        ensures
            final(self).wf(),
            final(self)@ == woken_too(old(self)@, seq![token]),
    {
        let ghost before = self.woken@;
        self.woken.push(token);
        assert(self@.woken =~= before + seq![token]);
    }

    /// Notes that tasks are to be woken.
    fn wake_list(&mut self, tokens: Vec<u64>)
        requires
            old(self).wf(),
        ensures
            final(self).wf(),
            final(self)@ == woken_too(old(self)@, tokens@),
    {
        let mut rest = tokens;
        self.woken.append(&mut rest);
    }

    /// Wakes the task that reads a connection.
    pub(crate) fn wake_reader(&mut self, id: u64)
        requires
            old(self).wf(),
        ensures
            final(self).wf(),
            final(self)@ == reader_woken(old(self)@, id),
    {
        if let Some(token) = self.wakers.read_wakers.remove(&id) {
            self.wake(token);
        } else {
            assert(self@.woken + Seq::<u64>::empty() =~= self@.woken);
        }
    }

    /// Wakes the tasks that wait for space in a send buffer.
    fn wake_writers(&mut self, id: u64)
        requires
            old(self).wf(),
        ensures
            final(self).wf(),
            final(self)@ == writers_woken(old(self)@, id),
    {
        if let Some(tokens) = self.wakers.send_buffer_wakers.remove(&id) {
            self.wake_list(tokens);
        } else {
            assert(self@.woken + Seq::<u64>::empty() =~= self@.woken);
        }
    }

    /// Wakes the tasks that wait for the end of a cut.
    fn wake_cut_waiters(&mut self, id: u64)
        requires
            old(self).wf(),
        ensures
            final(self).wf(),
            final(self)@ == cut_waiters_woken(old(self)@, id),
    {
        if let Some(tokens) = self.wakers.cut_wakers.remove(&id) {
            self.wake_list(tokens);
        } else {
            assert(self@.woken + Seq::<u64>::empty() =~= self@.woken);
        }
    }
}

impl<R: RandomProvider> SimWorld<R> {
    /// Clears expired write clogs and wakes the tasks that waited for that.
    pub fn clear_expired_clogs(&mut self)
        requires
            old(self).wf(),
        ensures
            final(self).wf(),
            final(self)@ == clogs_cleared(old(self)@),
    {
        let ghost w = self@;
        let now = self.current_time;
        let ids = ids_in(&self.network.connection_clogs);
        let ghost mut over: Seq<u64> = Seq::empty();
        let mut i: usize = 0;
        proof {
            assert(w.net.connection_clogs.dom() =~= self.network.connection_clogs@.dom());
            lemma_no_clogs_cleared(w);
        }
        while i < ids.len()
            invariant
                i <= ids@.len(),
                now@ == w.now,
                ascending(ids@),
                ids@.to_set() == w.net.connection_clogs.dom(),
                ascending(over),
                forall|id: u64| #[trigger]
                    over.contains(id) <==> ids@.take(i as int).contains(id) && w.now
                        >= w.net.connection_clogs[id],
                self.wf(),
                self@ == clogs_cleared_at(w, over),
            decreases ids@.len() - i,
        {
            let id: u64 = ids[i];
            proof {
                assert(ids@.to_set().contains(id));
                lemma_next_id(ids@, i as int);
                assert(!over.to_set().contains(id));
                assert(self@.net.connection_clogs.contains_key(id));
                assert(self@.net.connection_clogs[id] == w.net.connection_clogs[id]);
            }
            let is_over: bool = match self.network.connection_clogs.get(&id) {
                Some(clog) => clog.expires_at.le(&now),
                None => false,
            };
            if is_over {
                proof {
                    lemma_one_more_clog_cleared(w, over, id);
                    lemma_one_more_id(over, id);
                    over = over.push(id);
                }
                let ghost before = self.network.connection_clogs@;
                self.network.connection_clogs.remove(&id);
                assert(clog_views(self.network.connection_clogs@) =~= clog_views(before).remove(id));
                if let Some(tokens) = self.wakers.clog_wakers.remove(&id) {
                    self.wake_list(tokens);
                } else {
                    assert(self@.woken + Seq::<u64>::empty() =~= self@.woken);
                }
            }
            i += 1;
        }
        proof {
            assert(ids@.take(i as int) =~= ids@);
            lemma_all_clogs_cleared(w, over);
        }
    }

    /// Triggers partitions at random between the ends of connections.
    pub fn randomly_trigger_partitions(&mut self)
        requires
            old(self).wf(),
        ensures
            final(self).wf(),
            final(self)@ == partitions_triggered(old(self)@),
    {
        if self.network.config.chaos.partition_probability == 0 {
            return;
        }
        let ghost w = self@;
        let count: u64 = self.network.next_connection_id;
        let mut id: u64 = 0;
        while id < count
            invariant
                id <= count,
                self.wf(),
                self@ == partitions_rolled(w, id as int),
                count == w.net.next_connection_id,
            decreases count - id,
        {
            self.roll_partition(id);
            id += 1;
        }
    }

    /// Rolls for a partition between the ends of a connection.
    fn roll_partition(&mut self, id: u64)
        requires
            old(self).wf(),
        ensures
            final(self).wf(),
            final(self)@ == partition_rolled(old(self)@, id),
    {
        let (from_ip, to_ip): (IpAddr, IpAddr) = match self.network.connections.get(&id) {
            Some(conn) => match (conn.local_ip, conn.remote_ip) {
                (Some(from_ip), Some(to_ip)) => (from_ip, to_ip),
                _ => {
                    return;
                },
            },
            None => {
                return;
            },
        };
        if self.network.is_partitioned(from_ip, to_ip, self.current_time) {
            return;
        }
        if self.rng.random_bool(self.network.config.chaos.partition_probability) {
            let duration = sample_duration(
                &mut self.rng,
                &self.network.config.chaos.partition_duration,
            );
            let expires_at = self.current_time.saturating_add(duration);
            self.network.ip_partitions.insert((from_ip, to_ip), PartitionState { expires_at });
            self.schedule_at(
                expires_at,
                Event::Connection { id: 0, state: ConnectionStateChange::PartitionRestore },
            );
        }
    }

    /// How many bits to flip for a random number. The distribution follows a
    /// power law: few bits are common and many are rare.
    pub fn calculate_flip_bit_count(random_value: u32, min_bits: u32, max_bits: u32) -> (n: u32)
        ensures
            n == flip_bit_count(random_value, min_bits, max_bits),
    {
        if random_value == 0 {
            if max_bits < 32 {
                return max_bits;
            }
            return 32;
        }
        proof {
            vstd::std_specs::bits::axiom_u32_leading_zeros(random_value);
        }
        let bits: u32 = 1 + random_value.leading_zeros();
        if bits < min_bits {
            min_bits
        } else if bits > max_bits {
            max_bits
        } else {
            bits
        }
    }

    /// Flips `count` bits at random positions, no position twice.
    fn flip_bits(&mut self, data: Vec<u8>, count: u32) -> (r: Vec<u8>)
        requires
            old(self).wf(),
            0 < data@.len(),
        ensures
            final(self).wf(),
            ({
                let (flipped, rng) = bits_flipped(
                    old(self)@.rng,
                    data@,
                    Set::empty(),
                    count as nat,
                );
                &&& r@ == flipped
                &&& final(self)@ == WorldView { rng, ..old(self)@ }
            }),
    {
        let ghost w = self@;
        let mut corrupted = data;
        let mut flipped: Vec<(u64, u64)> = Vec::new();
        let mut i: u32 = 0;
        assert(flipped@.to_set() =~= Set::<(u64, u64)>::empty());
        while i < count
            invariant
                i <= count,
                0 < corrupted@.len(),
                self.wf(),
                self@ == (WorldView { rng: self@.rng, ..w }),
                bits_flipped(w.rng, data@, Set::empty(), count as nat) == bits_flipped(
                    self@.rng,
                    corrupted@,
                    flipped@.to_set(),
                    (count - i) as nat,
                ),
            decreases count - i,
        {
            let a: u64 = self.rng.random();
            let b: u64 = self.rng.random();
            let byte: u64 = a % (corrupted.len() as u64);
            let bit: u64 = b % 8;
            let position: (u64, u64) = (byte, bit);
            if !contains_position(&flipped, position) {
                let ghost before = flipped@;
                flipped.push(position);
                let old_byte: u8 = corrupted[byte as usize];
                corrupted.set(byte as usize, old_byte ^ (1u8 << (bit as u8)));
                proof {
                    lemma_push_position(before, position);
                }
            }
            i += 1;
        }
        corrupted
    }

    /// Decides what arrives of the data that is delivered.
    fn corrupt(&mut self, data: Vec<u8>) -> (r: Vec<u8>)
        requires
            old(self).wf(),
        ensures
            final(self).wf(),
            (r@, final(self)@) == corrupted(old(self)@, data@),
    {
        if data.len() == 0 {
            return data;
        }
        let chaos = self.network.config.chaos;
        let since_last = self.current_time.saturating_sub(self.last_bit_flip_time);
        if since_last.lt(&chaos.bit_flip_cooldown) {
            return data;
        }
        if !buggify_internal(
            &mut self.buggify,
            &mut self.rng,
            chaos.bit_flip_probability,
            "delivery",
        ) {
            return data;
        }
        let number: u64 = self.rng.random();
        let count: u32 = Self::calculate_flip_bit_count(
            (number % 0x1_0000_0000) as u32,
            chaos.bit_flip_min_bits,
            chaos.bit_flip_max_bits,
        );
        let r = self.flip_bits(data, count);
        self.last_bit_flip_time = self.current_time;
        r
    }

    /// Delivers data to a connection.
    fn deliver(&mut self, id: u64, data: Vec<u8>)
        requires
            old(self).wf(),
        ensures
            final(self).wf(),
            final(self)@ == delivered(old(self)@, id, data@),
    {
        if !self.network.connections.contains_key(&id) {
            return;
        }
        let arrived = self.corrupt(data);
        let ghost w = self@;
        if let Some(conn) = self.network.connections.get_mut(&id) {
            let n: usize = arrived.len();
            let mut i: usize = 0;
            let ghost c = conn@;
            while i < n
                invariant
                    i <= n,
                    n == arrived@.len(),
                    conn@ == (ConnView {
                        receive_buffer: c.receive_buffer + arrived@.take(i as int),
                        ..c
                    }),
                decreases n - i,
            {
                conn.receive_buffer.push_back(arrived[i]);
                proof {
                    assert(arrived@.take(i + 1) =~= arrived@.take(i as int).push(
                        arrived@[i as int],
                    ));
                }
                i += 1;
            }
            assert(arrived@.take(i as int) =~= arrived@);
        }
        self.wake_reader(id);
    }
}

impl<R: RandomProvider> SimWorld<R> {
    /// Notes that the sender of a connection is done for now.
    fn idle_sender(&mut self, id: u64)
        requires
            old(self).wf(),
            old(self)@.net.connections.contains_key(id),
        ensures
            final(self).wf(),
            final(self)@ == sender_idle(old(self)@, id),
    {
        if let Some(conn) = self.network.connections.get_mut(&id) {
            conn.send_in_progress = false;
        }
    }

    /// Lets the sender of a connection go on where messages are left.
    fn continue_sender(&mut self, id: u64)
        requires
            old(self).wf(),
            old(self)@.net.connections.contains_key(id),
        ensures
            final(self).wf(),
            final(self)@ == sender_continued(old(self)@, id),
    {
        let more: bool = match self.network.connections.get(&id) {
            Some(conn) => conn.send_buffer.len() > 0,
            None => false,
        };
        if more {
            self.schedule_at(
                self.current_time,
                Event::Network {
                    connection_id: id,
                    operation: NetworkOperation::ProcessSendBuffer,
                },
            );
        } else {
            self.idle_sender(id);
        }
    }

    /// Takes the first message off a send buffer and wakes the tasks that wait
    /// for space in it.
    fn take_message(&mut self, id: u64) -> (message: Vec<u8>)
        requires
            old(self).wf(),
            old(self)@.net.connections.contains_key(id),
            old(self)@.net.connections[id].send_buffer.len() > 0,
        ensures
            final(self).wf(),
            message@ == old(self)@.net.connections[id].send_buffer[0],
            final(self)@ == message_taken(old(self)@, id),
    {
        let mut message: Vec<u8> = Vec::new();
        if let Some(conn) = self.network.connections.get_mut(&id) {
            let ghost queued = conn.send_buffer@;
            if let Some(first) = conn.send_buffer.pop_front() {
                message = first;
                assert(messages(conn.send_buffer@) =~= messages(queued).drop_first());
            }
        }
        self.wake_writers(id);
        message
    }

    /// Decides how many bytes of a message are sent at once.
    fn decide_bytes(&mut self, len: usize) -> (n: usize)
        requires
            old(self).wf(),
        ensures
            final(self).wf(),
            (n as nat, final(self)@) == bytes_sent(old(self)@, len as nat),
            n <= len,
    {
        if !buggify_internal(
            &mut self.buggify,
            &mut self.rng,
            crate::buggify::DEFAULT_FIRING,
            "send",
        ) {
            return len;
        }
        if len == 0 {
            return len;
        }
        let limit: u64 = self.network.config.chaos.partial_write_max_bytes;
        let most: u64 = if (len as u64) < limit {
            len as u64
        } else {
            limit
        };
        let n: u64 = random_range_or_start(&mut self.rng, 0, most.wrapping_add(1));
        if n < len as u64 {
            n as usize
        } else {
            len
        }
    }

    /// Decides the delay before a message leaves.
    fn decide_delay(&mut self, id: u64) -> (d: Duration)
        requires
            old(self).wf(),
            old(self)@.net.connections.contains_key(id),
        ensures
            final(self).wf(),
            (d@, final(self)@) == send_delay(old(self)@, id),
    {
        let mut own: Option<Duration> = None;
        if let Some(conn) = self.network.connections.get(&id) {
            if conn.send_buffer.len() > 0 {
                return Duration::from_nanos(1);
            }
            own = conn.send_delay;
        }
        match own {
            Some(d) => d,
            None => sample_duration(&mut self.rng, &self.network.config.write_latency),
        }
    }

    /// Decides the delay at the receiving end.
    fn decide_receive_delay(&mut self, paired: Option<ConnectionId>) -> (d: Duration)
        requires
            old(self).wf(),
        ensures
            final(self).wf(),
            (d@, final(self)@) == receive_delay(old(self)@, paired),
    {
        match paired {
            None => Duration::zero(),
            Some(paired_id) => {
                if let Some(conn) = self.network.connections.get(&paired_id.0) {
                    if let Some(d) = conn.recv_delay {
                        return d;
                    }
                }
                sample_duration(&mut self.rng, &self.network.config.read_latency)
            },
        }
    }

    /// Decides the delay of a message from one end to the other.
    fn decide_travel(&mut self, id: u64) -> (d: Duration)
        requires
            old(self).wf(),
            old(self)@.net.connections.contains_key(id),
        ensures
            final(self).wf(),
            (d@, final(self)@) == travel_delay(old(self)@, id),
    {
        let mut paired: Option<ConnectionId> = None;
        if let Some(conn) = self.network.connections.get(&id) {
            paired = conn.paired_connection;
        }
        let there = self.decide_delay(id);
        let here = self.decide_receive_delay(paired);
        there.saturating_add(here)
    }

    /// Puts what a message holds beyond its first `n` bytes back to be sent next,
    /// and returns those bytes.
    fn keep_remainder(&mut self, id: u64, message: Vec<u8>, n: usize) -> (data: Vec<u8>)
        requires
            old(self).wf(),
            old(self)@.net.connections.contains_key(id),
            n <= message@.len(),
        ensures
            final(self).wf(),
            final(self)@ == remainder_kept(old(self)@, id, message@, n as nat),
            data@ == message@.take(n as int),
    {
        let mut data = message;
        if n < data.len() {
            let remainder = data.split_off(n);
            assert(remainder@ =~= message@.skip(n as int));
            if let Some(conn) = self.network.connections.get_mut(&id) {
                let ghost queued = conn.send_buffer@;
                conn.send_buffer.push_front(remainder);
                assert(messages(conn.send_buffer@) =~= seq![remainder@] + messages(queued));
            }
        }
        assert(data@ =~= message@.take(n as int));
        data
    }

    /// When a message arrives that travels for `delay`.
    fn decide_arrival(&self, id: u64, delay: Duration) -> (at: Duration)
        requires
            self.wf(),
            self@.net.connections.contains_key(id),
        ensures
            at@ == arrival_time(self@, id, delay@),
    {
        let mut next_send_time = Duration::zero();
        if let Some(conn) = self.network.connections.get(&id) {
            next_send_time = conn.next_send_time;
        }
        let at = self.current_time.saturating_add(delay).max(next_send_time);
        at.saturating_add(Duration::zero())
    }

    /// Sends data from a connection to its other end.
    fn send_data(&mut self, id: u64, arrival: Duration, data: Vec<u8>)
        requires
            old(self).wf(),
            old(self)@.net.connections.contains_key(id),
        ensures
            final(self).wf(),
            final(self)@ == data_sent(old(self)@, id, arrival@, data@),
    {
        let mut paired: Option<ConnectionId> = None;
        if let Some(conn) = self.network.connections.get_mut(&id) {
            paired = conn.paired_connection;
            conn.next_send_time = arrival.saturating_add(Duration::from_nanos(1));
        }
        if let Some(paired_id) = paired {
            self.schedule_at(
                arrival,
                Event::Network {
                    connection_id: paired_id.0,
                    operation: NetworkOperation::DataDelivery { data },
                },
            );
        }
    }

    /// Sends the first message of a connection, or the part of it that fits.
    fn send_message(&mut self, id: u64)
        requires
            old(self).wf(),
            old(self)@.net.connections.contains_key(id),
            old(self)@.net.connections[id].send_buffer.len() > 0,
        ensures
            final(self).wf(),
            final(self)@ == message_sent(old(self)@, id),
    {
        let message = self.take_message(id);
        let n: usize = self.decide_bytes(message.len());
        let data = self.keep_remainder(id, message, n);
        let delay = self.decide_travel(id);
        let arrival = self.decide_arrival(id, delay);
        self.send_data(id, arrival, data);
        self.continue_sender(id);
    }

    /// Processes the send buffer of a connection.
    fn process_send(&mut self, id: u64)
        requires
            old(self).wf(),
        ensures
            final(self).wf(),
            final(self)@ == send_processed(old(self)@, id),
    {
        let has_data: bool = match self.network.connections.get(&id) {
            Some(conn) => conn.send_buffer.len() > 0,
            None => {
                return;
            },
        };
        if !has_data {
            self.idle_sender(id);
            return;
        }
        if self.network.is_connection_partitioned(ConnectionId(id), self.current_time) {
            let _lost = self.take_message(id);
            self.continue_sender(id);
        } else {
            self.send_message(id);
        }
    }

    /// Restores a connection that was cut for a time.
    pub fn restore_connection(&mut self, connection_id: ConnectionId)
        requires
            old(self).wf(),
        ensures
            final(self).wf(),
            final(self)@ == cut_restored(old(self)@, connection_id.0),
    {
        let id: u64 = connection_id.0;
        let mut restored: bool = false;
        if let Some(conn) = self.network.connections.get_mut(&id) {
            if conn.is_cut {
                conn.is_cut = false;
                conn.cut_expiry = None;
                restored = true;
            }
        }
        if restored {
            self.wake_cut_waiters(id);
        } else {
            assert(self@ =~= old(self)@);
        }
    }

    /// Applies a change of a connection's state.
    fn change_connection(&mut self, id: u64, state: ConnectionStateChange)
        requires
            old(self).wf(),
        ensures
            final(self).wf(),
            final(self)@ == connection_changed(old(self)@, id, state),
    {
        match state {
            ConnectionStateChange::BindComplete => {},
            ConnectionStateChange::ConnectionReady => {},
            ConnectionStateChange::ClogClear => {
                let ghost before = self.network.connection_clogs@;
                self.network.connection_clogs.remove(&id);
                assert(clog_views(self.network.connection_clogs@) =~= clog_views(before).remove(id));
                if let Some(tokens) = self.wakers.clog_wakers.remove(&id) {
                    self.wake_list(tokens);
                } else {
                    assert(self@.woken + Seq::<u64>::empty() =~= self@.woken);
                }
            },
            ConnectionStateChange::ReadClogClear => {
                let ghost before = self.network.read_clogs@;
                self.network.read_clogs.remove(&id);
                assert(clog_views(self.network.read_clogs@) =~= clog_views(before).remove(id));
                if let Some(tokens) = self.wakers.read_clog_wakers.remove(&id) {
                    self.wake_list(tokens);
                } else {
                    assert(self@.woken + Seq::<u64>::empty() =~= self@.woken);
                }
            },
            ConnectionStateChange::PartitionRestore => {
                drop_expired(&mut self.network.ip_partitions, self.current_time);
            },
            ConnectionStateChange::SendPartitionClear => {
                drop_expired(&mut self.network.send_partitions, self.current_time);
            },
            ConnectionStateChange::RecvPartitionClear => {
                drop_expired(&mut self.network.recv_partitions, self.current_time);
            },
            ConnectionStateChange::CutRestore => {
                self.restore_connection(ConnectionId(id));
            },
        }
    }

    /// Wakes all sleeping and reading tasks.
    fn wake_everyone(&mut self)
        requires
            old(self).wf(),
        ensures
            final(self).wf(),
            final(self)@ == all_woken(old(self)@),
    {
        let ghost w = self@;
        let sleepers = tokens_in(&self.wakers.task_wakers);
        self.wakers.task_wakers.clear();
        self.wake_list(sleepers);
        let readers = tokens_in(&self.wakers.read_wakers);
        self.wakers.read_wakers.clear();
        self.wake_list(readers);
    }

    /// Wakes the task that a timer went off for.
    fn fire_timer(&mut self, task_id: u64)
        requires
            old(self).wf(),
        ensures
            final(self).wf(),
            final(self)@ == timer_fired(old(self)@, task_id),
    {
        self.awakened_tasks.insert(task_id);
        if let Some(token) = self.wakers.task_wakers.remove(&task_id) {
            self.wake(token);
        } else {
            assert(self@.woken + Seq::<u64>::empty() =~= self@.woken);
        }
    }

    /// Processes one event.
    pub fn process_event(&mut self, event: Event)
        requires
            old(self).wf(),
        ensures
            final(self).wf(),
            final(self)@ == event_processed(old(self)@, event@),
    {
        self.events_processed = self.events_processed.wrapping_add(1);
        self.handle_event(event);
    }

    /// Does what an event is for.
    fn handle_event(&mut self, event: Event)
        requires
            old(self).wf(),
        ensures
            final(self).wf(),
            final(self)@ == event_handled(old(self)@, event@),
    {
        match event {
            Event::Timer { task_id } => {
                self.fire_timer(task_id);
            },
            Event::Connection { id, state } => {
                self.change_connection(id, state);
            },
            Event::Network { connection_id, operation } => match operation {
                NetworkOperation::DataDelivery { data } => {
                    self.deliver(connection_id, data);
                },
                NetworkOperation::ProcessSendBuffer => {
                    self.process_send(connection_id);
                },
            },
            Event::Shutdown => {
                self.wake_everyone();
            },
        }
    }

    /// Processes the next event and moves time to it. Returns whether more
    /// events are left.
    pub fn step(&mut self) -> (more: bool)
        requires
            old(self).wf(),
        ensures
            final(self).wf(),
            final(self)@ == stepped(old(self)@),
            more == (final(self)@.queue.len() > 0),
    {
        match self.event_queue.pop_earliest() {
            Some(scheduled_event) => {
                self.current_time = scheduled_event.time();
                self.clear_expired_clogs();
                self.randomly_trigger_partitions();
                self.process_event(scheduled_event.into_event());
                !self.event_queue.is_empty()
            },
            None => false,
        }
    }

    /// Processes events until none is left, or at a check none but
    /// infrastructure events, and at most `limit` of them. Returns whether it
    /// came to an end.
    pub fn run_until_empty(&mut self, limit: u64) -> (done: bool)
        requires
            old(self).wf(),
        ensures
            final(self).wf(),
            (final(self)@, done) == ran(old(self)@, limit as nat),
    {
        let mut left: u64 = limit;
        let ghost w = self@;
        while left > 0
            invariant
                left <= limit,
                self.wf(),
                w == old(self)@,
                ran(w, limit as nat) == ran(self@, left as nat),
            decreases left,
        {
            if !self.step() {
                return true;
            }
            if self.events_processed % 50 == 0 {
                if self.event_queue.has_only_infrastructure_events() {
                    return true;
                }
            }
            left -= 1;
        }
        false
    }
}

/// The write clogs of some connections are gone and the tasks that waited for that are
/// woken, connection after connection.
spec fn clogs_cleared_at<R>(w: WorldView<R>, ids: Seq<u64>) -> WorldView<R> {
    WorldView {
        net: NetView {
            connection_clogs: w.net.connection_clogs.remove_keys(ids.to_set()),
            ..w.net
        },
        wakers: WakersView {
            clog_wakers: w.wakers.clog_wakers.remove_keys(ids.to_set()),
            ..w.wakers
        },
        woken: w.woken + all_waiting_in_turn(w.wakers.clog_wakers, ids),
        ..w
    }
}

proof fn lemma_no_clogs_cleared<R>(w: WorldView<R>)
    ensures
        clogs_cleared_at(w, Seq::empty()) == w,
{
    let c = clogs_cleared_at(w, Seq::empty());
    assert(Seq::<u64>::empty().to_set() =~= Set::<u64>::empty());
    assert(c.net.connection_clogs =~= w.net.connection_clogs);
    assert(c.wakers.clog_wakers =~= w.wakers.clog_wakers);
    assert(c.woken =~= w.woken);
}

/// What clearing the clog of one more connection does.
proof fn lemma_one_more_clog_cleared<R>(w: WorldView<R>, ids: Seq<u64>, id: u64)
    requires
        !ids.contains(id),
    ensures
        ({
            let less = clogs_cleared_at(w, ids);
            clogs_cleared_at(w, ids.push(id)) == WorldView {
                net: NetView { connection_clogs: less.net.connection_clogs.remove(id), ..less.net },
                wakers: WakersView {
                    clog_wakers: less.wakers.clog_wakers.remove(id),
                    ..less.wakers
                },
                woken: less.woken + all_waiting(less.wakers.clog_wakers, id),
                ..less
            }
        }),
{
    let less = clogs_cleared_at(w, ids);
    let more = clogs_cleared_at(w, ids.push(id));
    lemma_push_to_set(ids, id);
    assert(more.net.connection_clogs =~= less.net.connection_clogs.remove(id));
    assert(more.wakers.clog_wakers =~= less.wakers.clog_wakers.remove(id));
    assert(ids.push(id).drop_last() =~= ids);
    assert(!ids.to_set().contains(id));
    assert(all_waiting(less.wakers.clog_wakers, id) == all_waiting(w.wakers.clog_wakers, id));
    assert(more.woken =~= less.woken + all_waiting(less.wakers.clog_wakers, id));
}

/// Clearing all clogs that are over.
proof fn lemma_all_clogs_cleared<R>(w: WorldView<R>, over: Seq<u64>)
    requires
        ascending(over),
        forall|id: u64| #[trigger]
            over.contains(id) <==> w.net.connection_clogs.contains_key(id) && w.now
                >= w.net.connection_clogs[id],
    ensures
        clogs_cleared_at(w, over) == clogs_cleared(w),
{
    let m = w.net.connection_clogs;
    assert forall|id: u64| over.to_set().contains(id) == expired(m, w.now).contains(id) by {
        assert(over.to_set().contains(id) == over.contains(id));
    }
    assert(over.to_set() =~= expired(m, w.now));
    lemma_in_order(over);
    assert(m.remove_keys(over.to_set()) =~= unexpired(m, w.now));
}

/// Ascending numbers with a larger one behind them.
proof fn lemma_one_more_id(ids: Seq<u64>, id: u64)
    requires
        ascending(ids),
        forall|k: u64| #[trigger] ids.contains(k) ==> k < id,
    ensures
        ascending(ids.push(id)),
        forall|k: u64| #[trigger] ids.push(id).contains(k) <==> ids.contains(k) || k == id,
{
    let more = ids.push(id);
    assert forall|i: int, j: int| 0 <= i < j < more.len() implies more[i] < more[j] by {
        assert(ids.contains(ids[i]));
    }
    assert forall|k: u64| #[trigger] more.contains(k) <==> ids.contains(k) || k == id by {
        if ids.contains(k) {
            let i = choose|i: int| 0 <= i < ids.len() && ids[i] == k;
            assert(more[i] == k);
        }
        if k == id {
            assert(more[ids.len() as int] == k);
        }
    }
}

/// The next of some ascending numbers is none of those before it.
proof fn lemma_next_id(ids: Seq<u64>, i: int)
    requires
        ascending(ids),
        0 <= i < ids.len(),
    ensures
        !ids.take(i).contains(ids[i]),
        forall|id: u64| #[trigger]
            ids.take(i + 1).contains(id) <==> ids.take(i).contains(id) || id == ids[i],
        forall|id: u64| ids.take(i).contains(id) ==> id < ids[i],
{
    let t = ids.take(i);
    assert(ids.take(i + 1) =~= t.push(ids[i]));
    assert forall|id: u64| t.contains(id) implies id < ids[i] by {
        let j = choose|j: int| 0 <= j < t.len() && t[j] == id;
        assert(ids[j] == id);
    }
    assert forall|id: u64| #[trigger] ids.take(i + 1).contains(id) <==> t.contains(id) || id
        == ids[i] by {
        if t.contains(id) {
            let j = choose|j: int| 0 <= j < t.len() && t[j] == id;
            assert(ids.take(i + 1)[j] == id);
        }
        if id == ids[i] {
            assert(ids.take(i + 1)[i] == id);
        }
    }
}

proof fn lemma_push_position(s: Seq<(u64, u64)>, x: (u64, u64))
    ensures
        s.push(x).to_set() == s.to_set().insert(x),
{
    assert forall|y: (u64, u64)| s.push(x).to_set().contains(y) == s.to_set().insert(
        x,
    ).contains(y) by {
        if s.contains(y) {
            let i = choose|i: int| 0 <= i < s.len() && s[i] == y;
            assert(s.push(x)[i] == y);
        }
        if y == x {
            assert(s.push(x)[s.len() as int] == y);
        }
    }
    assert(s.push(x).to_set() =~= s.to_set().insert(x));
}

/// Whether a position is in the list.
fn contains_position(positions: &Vec<(u64, u64)>, p: (u64, u64)) -> (b: bool)
    ensures
        b == positions@.to_set().contains(p),
{
    let mut i: usize = 0;
    while i < positions.len()
        invariant
            i <= positions@.len(),
            forall|j: int| 0 <= j < i ==> #[trigger] positions@[j] != p,
        decreases positions@.len() - i,
    {
        if positions[i].0 == p.0 && positions[i].1 == p.1 {
            assert(positions@[i as int] == p);
            return true;
        }
        i += 1;
    }
    false
}

/// Values that expire at a time.
pub trait Expires: View<V = nat> {
    /// When the value expires.
    fn expiry(&self) -> (d: Duration)
        ensures
            d@ == self@,
    ;
}

impl Expires for Duration {
    fn expiry(&self) -> (d: Duration) {
        *self
    }
}

impl Expires for PartitionState {
    fn expiry(&self) -> (d: Duration) {
        self.expires_at
    }
}

proof fn lemma_unexpired_insert<K>(m: Map<K, nat>, k: K, v: nat, now: nat)
    requires
        !m.contains_key(k),
    ensures
        now < v ==> unexpired(m.insert(k, v), now) == unexpired(m, now).insert(k, v),
        now >= v ==> unexpired(m.insert(k, v), now) == unexpired(m, now),
{
    let a = unexpired(m.insert(k, v), now);
    if now < v {
        assert(a =~= unexpired(m, now).insert(k, v));
    } else {
        assert(a =~= unexpired(m, now));
    }
}

proof fn lemma_entries_take<K: View, V: View>(s: Seq<(K, V)>, i: int)
    requires
        keys_unique(s),
        0 <= i < s.len(),
    ensures
        entries_map(s.take(i + 1)) == entries_map(s.take(i)).insert(s[i].0@, s[i].1@),
        !entries_map(s.take(i)).contains_key(s[i].0@),
        keys_unique(s.take(i)),
{
    let t = s.take(i);
    assert(s.take(i + 1).drop_last() =~= t);
    assert forall|a: int, b: int| 0 <= a < b < t.len() implies #[trigger] t[a].0@
        != #[trigger] t[b].0@ by {
        assert(s[a].0@ != s[b].0@);
    }
    lemma_entries_map(t);
    if entries_map(t).contains_key(s[i].0@) {
        let a = choose|a: int| 0 <= a < t.len() && #[trigger] t[a].0@ == s[i].0@;
        assert(s[a].0@ != s[i].0@);
    }
}

/// Drops the entries that are over at the time `now`.
pub fn drop_expired<K: TableKey, V: Expires>(t: &mut Table<K, V>, now: Duration)
    requires
        old(t).wf(),
    ensures
        final(t).wf(),
        final(t)@ == unexpired(old(t)@, now@),
{
    let ghost m = t@;
    let mut entries = t.drain();
    let ghost all = entries@;
    let mut i: usize = 0;
    let n: usize = entries.len();
    assert(all.take(n as int) =~= all);
    assert(unexpired(entries_map(all.take(0)), now@) =~= Map::<K::V, nat>::empty());
    while i < n
        invariant
            i <= n,
            n == all.len(),
            keys_unique(all),
            entries@ == all.skip(i as int),
            t.wf(),
            t@ == unexpired(entries_map(all.take(i as int)), now@),
        decreases n - i,
    {
        let (key, value) = entries.remove(0);
        proof {
            lemma_entries_take(all, i as int);
            lemma_unexpired_insert(
                entries_map(all.take(i as int)),
                all[i as int].0@,
                all[i as int].1@,
                now@,
            );
            assert(entries@ =~= all.skip(i + 1));
        }
        if now.lt(&value.expiry()) {
            t.insert(key, value);
        }
        i += 1;
    }
}

proof fn lemma_push_to_set(s: Seq<u64>, x: u64)
    ensures
        s.push(x).to_set() == s.to_set().insert(x),
{
    assert forall|y: u64| s.push(x).to_set().contains(y) == s.to_set().insert(x).contains(y) by {
        if s.contains(y) {
            let i = choose|i: int| 0 <= i < s.len() && s[i] == y;
            assert(s.push(x)[i] == y);
        }
        if y == x {
            assert(s.push(x)[s.len() as int] == y);
        }
    }
    assert(s.push(x).to_set() =~= s.to_set().insert(x));
}

} // verus!
