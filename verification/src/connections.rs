//! Operations on the connections of a simulated world.

use crate::buggify::buggify_draw;
use crate::config::{ChaosConfiguration, NetworkConfiguration};
use crate::counts::next_count;
use crate::error::{SimulationError, SimulationResult, is_invalid_state};
use crate::events::{ConnectionStateChange, Event, EventView, NetworkOperation};
use crate::random::{RATIO_SCALE, RandomProvider, ratio_above, ratio_below};
use crate::report::{MetricsView, SimulationMetrics};
use crate::state::{
    CloseReason, ConnView, ConnectionId, ConnectionState, IpAddr, ListenerId, ListenerState,
    ListenerView, NetView, PeerAddress, PeerAddressView,
};
use crate::time::{
    Duration, MAX_NANOS, lemma_share_nanos, max_nanos, minus_nanos, plus_nanos, share_nanos,
};
use crate::wakers::{WakersView, waiting};
use crate::world::{
    DEFAULT_SEND_BUFFER_CAPACITY, SimWorld, WorldView, at_random_close, conn_updated,
    event_scheduled, reader_woken,
};
use std::collections::VecDeque;
use std::collections::hash_map::DefaultHasher;
use std::hash::Hasher;
use vstd::prelude::*;

verus! {

/// The exponent of the power law that the extra delays of sleeps follow.
pub const DELAY_EXPONENT: u32 = 1000;

/// The smaller of two numbers.
pub open spec fn at_most(a: nat, b: nat) -> nat {
    if a <= b {
        a
    } else {
        b
    }
}

/// The `n`th power of a ratio, in parts of [`RATIO_SCALE`], rounded down at each
/// multiplication.
pub open spec fn ratio_power(ratio: u64, n: nat) -> nat
    decreases n,
{
    if n == 0 {
        RATIO_SCALE as nat
    } else {
        ratio_power(ratio, (n - 1) as nat) * (ratio as nat) / (RATIO_SCALE as nat)
    }
}

/// The drifted time, and the world after it was read. Each reading moves it
/// ahead by up to half of what is missing to the largest drift.
pub open spec fn timer_read<R: RandomProvider>(w: WorldView<R>) -> (nat, WorldView<R>) {
    let chaos = w.net.config.chaos;
    if !chaos.clock_drift_enabled {
        (w.now, w)
    } else {
        let limit = plus_nanos(w.now, chaos.clock_drift_max@);
        let (ahead, rng) = if w.timer < limit {
            let (ratio, rng) = w.rng.ratio_draw();
            (w.timer + share_nanos((limit - w.timer) as nat, ratio as nat) / 2, rng)
        } else {
            (w.timer, w.rng)
        };
        let timer = max_nanos(ahead, w.now);
        (timer, WorldView { timer, rng, ..w })
    }
}

/// A power of a ratio is at most 1.
proof fn lemma_power_bound(ratio: u64, n: nat)
    requires
        ratio < RATIO_SCALE,
    ensures
        ratio_power(ratio, n) <= RATIO_SCALE,
    decreases n,
{
    if n > 0 {
        lemma_power_bound(ratio, (n - 1) as nat);
        lemma_share_nanos(ratio_power(ratio, (n - 1) as nat), ratio as nat);
    }
}

/// Computes [`ratio_power`].
fn power_of(ratio: u64, n: u32) -> (power: u64)
    requires
        ratio < RATIO_SCALE,
    ensures
        power == ratio_power(ratio, n as nat),
        power <= RATIO_SCALE,
{
    let mut power: u64 = RATIO_SCALE;
    for i in 0..n
        invariant
            ratio < RATIO_SCALE,
            power == ratio_power(ratio, i as nat),
            power <= RATIO_SCALE,
    {
        proof {
            lemma_power_bound(ratio, (i + 1) as nat);
            assert(ratio_power(ratio, (i + 1) as nat) == (power as nat) * (ratio as nat)
                / 9_007_199_254_740_992nat);
            assert(power * ratio <= u128::MAX) by (nonlinear_arith)
                requires
                    0 <= power <= 9_007_199_254_740_992,
                    0 <= ratio <= 9_007_199_254_740_992,
            ;
        }
        power = ((power as u128) * (ratio as u128) / 9_007_199_254_740_992) as u64;
    }
    power
}

/// The drifted time is never behind the simulation time, and never further ahead
/// than the largest drift, unless it was before.
pub proof fn lemma_timer_bounds<R: RandomProvider>(w: WorldView<R>)
    requires
        w.timer <= plus_nanos(w.now, w.net.config.chaos.clock_drift_max@),
        w.now <= MAX_NANOS,
    ensures
        w.now <= timer_read(w).0 <= plus_nanos(w.now, w.net.config.chaos.clock_drift_max@),
{
    let limit = plus_nanos(w.now, w.net.config.chaos.clock_drift_max@);
    if w.timer < limit {
        w.rng.lemma_draws(0, 0);
        lemma_share_nanos((limit - w.timer) as nat, w.rng.ratio_draw().0 as nat);
    }
}

/// The extra delay of the next sleep, and the random state after the draws for
/// it. Its length follows a power law, so that nearly all delays are short.
pub open spec fn extra_delay<R: RandomProvider>(chaos: ChaosConfiguration, rng: R) -> (nat, R) {
    if !chaos.buggified_delay_enabled || chaos.buggified_delay_max@ == 0 {
        (0, rng)
    } else {
        let (chance, rng) = rng.ratio_draw();
        if ratio_below(chance, chaos.buggified_delay_probability) {
            let (ratio, rng) = rng.ratio_draw();
            (share_nanos(chaos.buggified_delay_max@, ratio_power(ratio, DELAY_EXPONENT as nat)), rng)
        } else {
            (0, rng)
        }
    }
}

/// When a sleep of the given length ends.
pub open spec fn sleep_end<R: RandomProvider>(w: WorldView<R>, duration: nat) -> nat {
    plus_nanos(w.now, plus_nanos(duration, extra_delay(w.net.config.chaos, w.rng).0))
}

/// A task goes to sleep.
pub open spec fn asleep<R: RandomProvider>(w: WorldView<R>, duration: nat) -> WorldView<R> {
    event_scheduled(
        WorldView {
            next_task_id: next_count(w.next_task_id),
            rng: extra_delay(w.net.config.chaos, w.rng).1,
            ..w
        },
        sleep_end(w, duration),
        EventView::Timer { task_id: w.next_task_id },
    )
}

/// A sleep never ends early, and never later than the largest extra delay allows.
pub proof fn lemma_sleep_bounds<R: RandomProvider>(w: WorldView<R>, duration: nat)
    ensures
        plus_nanos(w.now, duration) <= sleep_end(w, duration),
        sleep_end(w, duration) <= plus_nanos(
            w.now,
            plus_nanos(duration, w.net.config.chaos.buggified_delay_max@),
        ),
        !w.net.config.chaos.buggified_delay_enabled ==> sleep_end(w, duration) == plus_nanos(
            w.now,
            plus_nanos(duration, 0),
        ),
{
    let chaos = w.net.config.chaos;
    let (_, rng) = w.rng.ratio_draw();
    rng.lemma_draws(0, 0);
    let power = ratio_power(rng.ratio_draw().0, DELAY_EXPONENT as nat);
    lemma_power_bound(rng.ratio_draw().0, DELAY_EXPONENT as nat);
    lemma_share_nanos(chaos.buggified_delay_max@, power);
}

/// A power of a ratio, rounded down at each multiplication, lies between two lines: it loses
/// no more than `n` times what the ratio lacks of one, and at least so much that it is no more
/// than the inverse of one and `n` times that.
pub proof fn lemma_power_between(ratio: u64, n: nat)
    requires
        ratio < RATIO_SCALE,
    ensures
        ratio_power(ratio, n) >= 9_007_199_254_740_992 - n * (9_007_199_254_740_992 - ratio),
        ratio_power(ratio, n) * (9_007_199_254_740_992 + n * (9_007_199_254_740_992 - ratio))
            <= 9_007_199_254_740_992 * 9_007_199_254_740_992,
    decreases n,
{
    let s: int = 9_007_199_254_740_992;
    let d: int = s - ratio;
    if n == 0 {
        assert(n * d == 0) by (nonlinear_arith)
            requires
                n == 0,
        ;
    } else {
        let m: int = n - 1;
        let p: int = ratio_power(ratio, (n - 1) as nat) as int;
        let q: int = ratio_power(ratio, n) as int;
        let r: int = ratio as int;
        lemma_power_between(ratio, (n - 1) as nat);
        lemma_power_bound(ratio, (n - 1) as nat);
        assert(q == p * r / s);
        vstd::arithmetic::div_mod::lemma_fundamental_div_mod(p * r, s);
        vstd::arithmetic::div_mod::lemma_mod_bound(p * r, s);
        assert(q * s <= p * r && p * r < q * s + s) by (nonlinear_arith)
            requires
                p * r == s * q + (p * r) % s,
                0 <= (p * r) % s < s,
        ;
        assert(q >= p - d) by (nonlinear_arith)
            requires
                p * r < q * s + s,
                r == s - d,
                0 <= p <= s,
                0 <= d,
                s > 0,
        ;
        assert(n * d == m * d + d) by (nonlinear_arith)
            requires
                n == m + 1,
        ;
        assert(p * (s + m * d) <= s * s);
        assert(q * (s + m * d + d) <= s * s) by {
            let e = m * d;
            assert(0 <= e) by (nonlinear_arith)
                requires
                    e == m * d,
                    m >= 0,
                    d >= 0,
            ;
            assert(r * (s + e + d) <= s * (s + e)) by (nonlinear_arith)
                requires
                    r == s - d,
                    d >= 0,
                    e >= 0,
                    s >= 0,
            ;
            assert(q * s * (s + e + d) <= p * r * (s + e + d)) by (nonlinear_arith)
                requires
                    q * s <= p * r,
                    s + e + d >= 0,
            ;
            assert(p * (r * (s + e + d)) <= p * (s * (s + e))) by (nonlinear_arith)
                requires
                    r * (s + e + d) <= s * (s + e),
                    p >= 0,
            ;
            assert(p * r * (s + e + d) == p * (r * (s + e + d))) by (nonlinear_arith);
            assert(p * (s * (s + e)) == s * (p * (s + e))) by (nonlinear_arith);
            assert(s * (p * (s + e)) <= s * (s * s)) by (nonlinear_arith)
                requires
                    p * (s + e) <= s * s,
                    s >= 0,
            ;
            assert(q * s * (s + e + d) == s * (q * (s + e + d))) by (nonlinear_arith);
            assert(q * (s + e + d) <= s * s) by (nonlinear_arith)
                requires
                    s * (q * (s + e + d)) <= s * (s * s),
                    s > 0,
            ;
        }
    }
}

/// A sleep gets an extra delay exactly where the first ratio that is drawn for it lies below
/// the probability. Its length follows a power law of the second: it is at most the largest delay
/// over one and a thousand times what that ratio lacks of one, and falls short of the largest
/// delay by no more than a thousand times that.
pub proof fn lemma_extra_delays_follow_a_power_law<R: RandomProvider>(
    chaos: ChaosConfiguration,
    rng: R,
)
    ensures
        ({
            let (extra, after) = extra_delay(chaos, rng);
            let most = chaos.buggified_delay_max@;
            let first = rng.ratio_draw();
            let second = first.1.ratio_draw();
            let lacks = 9_007_199_254_740_992 - second.0;
            let comes = first.0 * 1_000_000 < chaos.buggified_delay_probability
                * 9_007_199_254_740_992;
            &&& !chaos.buggified_delay_enabled || most == 0 ==> extra == 0 && after == rng
            &&& chaos.buggified_delay_enabled && most > 0 && !comes ==> extra == 0 && after
                == first.1
            &&& chaos.buggified_delay_enabled && most > 0 && comes ==> {
                &&& extra * (9_007_199_254_740_992 + 1000 * lacks) <= most * 9_007_199_254_740_992
                &&& (extra + 1) * 9_007_199_254_740_992 > most * (9_007_199_254_740_992 - 1000
                    * lacks)
                &&& after == second.1
            }
        }),
{
    let s: int = 9_007_199_254_740_992;
    let second = rng.ratio_draw().1.ratio_draw();
    rng.ratio_draw().1.lemma_draws(0, 0);
    let most: int = chaos.buggified_delay_max@ as int;
    let p: int = ratio_power(second.0, 1000) as int;
    let lacks: int = s - second.0;
    lemma_power_between(second.0, 1000);
    let extra: int = share_nanos(chaos.buggified_delay_max@, p as nat) as int;
    assert(extra == most * p / s);
    vstd::arithmetic::div_mod::lemma_fundamental_div_mod(most * p, s);
    vstd::arithmetic::div_mod::lemma_mod_bound(most * p, s);
    assert(extra * s <= most * p && most * p < (extra + 1) * s) by (nonlinear_arith)
        requires
            most * p == s * extra + (most * p) % s,
            0 <= (most * p) % s < s,
    ;
    let k: int = s + 1000 * lacks;
    assert(p * k <= s * s);
    assert(extra * k <= most * s) by {
        assert(extra * s * k <= most * p * k) by (nonlinear_arith)
            requires
                extra * s <= most * p,
                k >= 0,
        ;
        assert(most * (p * k) <= most * (s * s)) by (nonlinear_arith)
            requires
                p * k <= s * s,
                most >= 0,
        ;
        assert(most * p * k == most * (p * k)) by (nonlinear_arith);
        assert(extra * s * k == s * (extra * k)) by (nonlinear_arith);
        assert(most * (s * s) == s * (most * s)) by (nonlinear_arith);
        assert(extra * k <= most * s) by (nonlinear_arith)
            requires
                s * (extra * k) <= s * (most * s),
                s > 0,
        ;
    }
    assert(most * p >= most * (s - 1000 * lacks)) by (nonlinear_arith)
        requires
            p >= s - 1000 * lacks,
            most >= 0,
    ;
}

/// Each reading of a drifting clock moves it ahead by half of the share, by the ratio that is
/// drawn, of what it lacks to the largest drift, rounded down; it is never behind the time, and
/// never goes back. A clock that does not drift shows the time.
pub proof fn lemma_clocks_drift_ahead<R: RandomProvider>(w: WorldView<R>)
    requires
        w.now + w.net.config.chaos.clock_drift_max@ <= MAX_NANOS,
    ensures
        ({
            let (t, v) = timer_read(w);
            let chaos = w.net.config.chaos;
            let lacks = w.now + chaos.clock_drift_max@ - w.timer;
            let ratio = w.rng.ratio_draw().0;
            &&& !chaos.clock_drift_enabled ==> t == w.now && v == w
            &&& chaos.clock_drift_enabled ==> {
                &&& v.timer == t
                &&& t >= w.now
                &&& t >= w.timer
                &&& lacks > 0 ==> (t - w.timer + 1) * (2 * 9_007_199_254_740_992) > lacks * ratio
                &&& lacks > 0 && t > w.now ==> (t - w.timer) * (2 * 9_007_199_254_740_992) <= lacks
                    * ratio
                &&& lacks <= 0 ==> t == w.timer || t == w.now
            }
        }),
{
    let chaos = w.net.config.chaos;
    let s: int = 9_007_199_254_740_992;
    let lacks: int = w.now + chaos.clock_drift_max@ - w.timer;
    if chaos.clock_drift_enabled && lacks > 0 {
        let x: int = lacks * w.rng.ratio_draw().0;
        let y: int = share_nanos(lacks as nat, w.rng.ratio_draw().0 as nat) as int;
        assert(y == x / s);
        let h: int = y / 2;
        vstd::arithmetic::div_mod::lemma_fundamental_div_mod(x, s);
        vstd::arithmetic::div_mod::lemma_mod_bound(x, s);
        assert(x >= 0) by (nonlinear_arith)
            requires
                x == lacks * w.rng.ratio_draw().0,
                lacks > 0,
                w.rng.ratio_draw().0 >= 0,
        ;
        assert(y * s <= x && x < (y + 1) * s) by (nonlinear_arith)
            requires
                x == s * y + x % s,
                0 <= x % s < s,
        ;
        assert(2 * h <= y && y <= 2 * h + 1);
        let t: int = timer_read(w).0 as int;
        assert(t >= w.timer + h);
        assert((t - w.timer + 1) * (2 * s) > x);
        if t > w.now {
            assert(t == w.timer + h);
        }
    }
}

/// A listener was created at an address.
pub open spec fn listener_created<R>(w: WorldView<R>, addr: Seq<char>) -> WorldView<R> {
    let id = w.net.next_listener_id;
    WorldView {
        net: NetView {
            next_listener_id: next_count(id),
            listeners: w.net.listeners.insert(
                id,
                ListenerView { id: ListenerId(id), addr, pending_connections: Seq::empty() },
            ),
            ..w.net
        },
        ..w
    }
}

/// A connection's oldest unread bytes were read, at most `max` of them.
pub open spec fn bytes_read<R>(w: WorldView<R>, id: u64, max: nat) -> WorldView<R> {
    let c = w.net.connections[id];
    conn_updated(
        w,
        id,
        ConnView {
            receive_buffer: c.receive_buffer.skip(at_most(max, c.receive_buffer.len()) as int),
            ..c
        },
    )
}

/// Bytes arrived at a connection.
pub open spec fn bytes_written<R>(w: WorldView<R>, id: u64, data: Seq<u8>) -> WorldView<R> {
    let c = w.net.connections[id];
    conn_updated(w, id, ConnView { receive_buffer: c.receive_buffer + data, ..c })
}

/// A message was put into a connection's send buffer. Where the sender was done,
/// it starts again.
pub open spec fn message_buffered<R>(w: WorldView<R>, id: u64, data: Seq<u8>) -> WorldView<R> {
    let c = w.net.connections[id];
    let w1 = conn_updated(
        w,
        id,
        ConnView { send_buffer: c.send_buffer.push(data), send_in_progress: true, ..c },
    );
    if c.send_in_progress {
        w1
    } else {
        event_scheduled(w1, w.now, EventView::ProcessSendBuffer { connection_id: id })
    }
}

/// The ephemeral address that a server sees a client at, and the state of the
/// randomness after it was made up: an address near the client's and a port from
/// 40000 up to, not including, 60000.
pub open spec fn ephemeral_address<R: RandomProvider>(rng: R, client_ip: Option<IpAddr>) -> (
    PeerAddressView,
    R,
) {
    match client_ip {
        Some(IpAddr::V4(ip)) => {
            let (offset, rng) = rng.range_draw(0, 256);
            let (port, rng) = rng.range_draw(40_000, 60_000);
            (
                PeerAddressView::EphemeralV4 {
                    ip: (ip - ip % 256 + (ip % 256 + offset) % 256) as u32,
                    port: port as u16,
                },
                rng,
            )
        },
        Some(IpAddr::V6(ip)) => {
            let (offset, rng) = rng.range_draw(0, 256);
            let (port, rng) = rng.range_draw(40_000, 60_000);
            (
                PeerAddressView::EphemeralV6 {
                    ip: (ip - ip % 65_536 + (ip % 65_536 + offset) % 65_536) as u128,
                    port: port as u16,
                },
                rng,
            )
        },
        None => {
            let (port, rng) = rng.range_draw(40_000, 60_000);
            (PeerAddressView::EphemeralUnknown { port: port as u16 }, rng)
        },
    }
}

/// One end of a new connection.
pub open spec fn fresh_connection(
    id: u64,
    paired: u64,
    addr: Seq<char>,
    local_ip: Option<IpAddr>,
    remote_ip: Option<IpAddr>,
    peer_address: PeerAddressView,
    now: nat,
) -> ConnView {
    ConnView {
        id: ConnectionId(id),
        addr,
        local_ip,
        remote_ip,
        peer_address,
        receive_buffer: Seq::empty(),
        paired_connection: Some(ConnectionId(paired)),
        send_buffer: Seq::empty(),
        send_in_progress: false,
        next_send_time: now,
        is_closed: false,
        send_closed: false,
        recv_closed: false,
        is_cut: false,
        cut_expiry: None,
        close_reason: CloseReason::Open,
        send_buffer_capacity: DEFAULT_SEND_BUFFER_CAPACITY,
        send_delay: None,
        recv_delay: None,
    }
}

/// A client and a server were connected.
pub open spec fn pair_created<R: RandomProvider>(
    w: WorldView<R>,
    client_addr: Seq<char>,
    server_addr: Seq<char>,
    client_ip: Option<IpAddr>,
    server_ip: Option<IpAddr>,
) -> WorldView<R> {
    let client = w.net.next_connection_id;
    let server = (client + 1) as u64;
    let (ephemeral, rng) = ephemeral_address(w.rng, client_ip);
    WorldView {
        net: NetView {
            next_connection_id: (client + 2) as u64,
            connections: w.net.connections.insert(
                client,
                fresh_connection(
                    client,
                    server,
                    client_addr,
                    client_ip,
                    server_ip,
                    PeerAddressView::Named(server_addr),
                    w.now,
                ),
            ).insert(
                server,
                fresh_connection(
                    server,
                    client,
                    server_addr,
                    server_ip,
                    client_ip,
                    ephemeral,
                    w.now,
                ),
            ),
            ..w.net
        },
        rng,
        ..w
    }
}

/// The key under which tasks wait for connections to an address.
pub open spec fn listener_key_of(addr: Seq<char>) -> u64 {
    <DefaultHasher as vstd::std_specs::hash::DefaultHasherAdditionalSpecFns>::spec_finish(
        seq![vstd::utf8::encode_utf8(addr), seq![0xffu8]],
    )
}

/// Computes the key under which tasks wait for connections to an address.
pub fn listener_key(addr: &str) -> (key: u64)
    ensures
        key == listener_key_of(addr@),
{
    let mut hasher = DefaultHasher::new();
    hasher.write(addr.as_bytes());
    let end: [u8; 1] = [0xff];
    hasher.write(end.as_slice());
    proof {
        assert(end@ =~= seq![0xffu8]);
        assert(hasher@ =~= seq![vstd::utf8::encode_utf8(addr@), seq![0xffu8]]);
    }
    hasher.finish()
}

/// A connection waits to be accepted, and the task that waits for it is woken.
pub open spec fn pending_stored<R>(
    w: WorldView<R>,
    addr: Seq<char>,
    key: u64,
    id: u64,
) -> WorldView<R> {
    WorldView {
        net: NetView {
            pending_connections: w.net.pending_connections.insert(addr, id),
            ..w.net
        },
        wakers: WakersView { listener_wakers: w.wakers.listener_wakers.remove(key), ..w.wakers },
        woken: w.woken + waiting(w.wakers.listener_wakers, key),
        ..w
    }
}

/// A connection's writes are blocked until the time `until`.
pub open spec fn write_clogged_until<R>(w: WorldView<R>, id: u64, until: nat) -> WorldView<R> {
    event_scheduled(
        WorldView {
            net: NetView {
                connection_clogs: w.net.connection_clogs.insert(id, until),
                ..w.net
            },
            ..w
        },
        until,
        EventView::Connection { id, state: ConnectionStateChange::ClogClear },
    )
}

/// A connection's reads are blocked until the time `until`.
pub open spec fn read_clogged_until<R>(w: WorldView<R>, id: u64, until: nat) -> WorldView<R> {
    event_scheduled(
        WorldView {
            net: NetView { read_clogs: w.net.read_clogs.insert(id, until), ..w.net },
            ..w
        },
        until,
        EventView::Connection { id, state: ConnectionStateChange::ReadClogClear },
    )
}

/// Whether an operation should be clogged, and the world after that was decided.
/// Where there is a clog already it is asked whether that lasts.
pub open spec fn clog_decided<R: RandomProvider>(w: WorldView<R>, clogs: Map<u64, nat>, id: u64) -> (
    bool,
    WorldView<R>,
) {
    let ppm = w.net.config.chaos.clog_probability;
    if clogs.contains_key(id) {
        (w.now < clogs[id], w)
    } else if ppm == 0 {
        (false, w)
    } else {
        (ratio_below(w.rng.ratio_draw().0, ppm), WorldView { rng: w.rng.ratio_draw().1, ..w })
    }
}

/// A connection is cut until the time `until`, if it exists.
pub open spec fn cut_until<R>(w: WorldView<R>, id: u64, until: nat) -> WorldView<R> {
    if w.net.connections.contains_key(id) {
        event_scheduled(
            conn_updated(
                w,
                id,
                ConnView { is_cut: true, cut_expiry: Some(until), ..w.net.connections[id] },
            ),
            until,
            EventView::Connection { id, state: ConnectionStateChange::CutRestore },
        )
    } else {
        w
    }
}

/// Whether a connection is cut at this time.
pub open spec fn is_cut_now<R>(w: WorldView<R>, id: u64) -> bool {
    let c = w.net.connections[id];
    w.net.connections.contains_key(id) && c.is_cut && c.cut_expiry is Some && w.now
        < c.cut_expiry->0
}

/// How many bytes a list of messages holds.
pub open spec fn total_bytes(s: Seq<Seq<u8>>) -> nat
    decreases s.len(),
{
    if s.len() == 0 {
        0
    } else {
        total_bytes(s.drop_last()) + s.last().len()
    }
}

/// How many bytes a connection's send buffer holds, as far as can be counted.
pub open spec fn buffered_bytes<R>(w: WorldView<R>, id: u64) -> nat {
    if w.net.connections.contains_key(id) {
        at_most(total_bytes(w.net.connections[id].send_buffer), usize::MAX as nat)
    } else {
        0
    }
}

/// How many bytes a connection's send buffer may hold.
pub open spec fn buffer_capacity<R>(w: WorldView<R>, id: u64) -> usize {
    if w.net.connections.contains_key(id) {
        w.net.connections[id].send_buffer_capacity
    } else {
        0
    }
}

/// A connection, where it is open, is closed for the given reason.
pub open spec fn one_end_closed<R>(w: WorldView<R>, id: u64, reason: CloseReason) -> WorldView<R> {
    let c = w.net.connections[id];
    if w.net.connections.contains_key(id) && !c.is_closed {
        conn_updated(w, id, ConnView { is_closed: true, close_reason: reason, ..c })
    } else {
        w
    }
}

/// The other end of a connection.
pub open spec fn other_end<R>(w: WorldView<R>, id: u64) -> Option<ConnectionId> {
    if w.net.connections.contains_key(id) {
        w.net.connections[id].paired_connection
    } else {
        None
    }
}

/// Both ends of a connection are closed, and the tasks that read them are woken.
pub open spec fn closed<R>(w: WorldView<R>, id: u64, reason: CloseReason) -> WorldView<R> {
    let w1 = one_end_closed(w, id, reason);
    match other_end(w, id) {
        Some(other) => reader_woken(
            reader_woken(one_end_closed(w1, other.0, reason), id),
            other.0,
        ),
        None => reader_woken(w1, id),
    }
}

/// The sending side of a connection is closed and what it had to send is gone.
pub open spec fn send_side_closed<R>(w: WorldView<R>, id: u64) -> WorldView<R> {
    if w.net.connections.contains_key(id) {
        conn_updated(
            w,
            id,
            ConnView { send_closed: true, send_buffer: Seq::empty(), ..w.net.connections[id] },
        )
    } else {
        w
    }
}

/// The receiving side of a connection is closed.
pub open spec fn recv_side_closed<R>(w: WorldView<R>, id: u64) -> WorldView<R> {
    if w.net.connections.contains_key(id) {
        conn_updated(w, id, ConnView { recv_closed: true, ..w.net.connections[id] })
    } else {
        w
    }
}

/// A connection is closed on one side or both: its own sending side, the
/// receiving side of the other end.
pub open spec fn half_closed<R>(
    w: WorldView<R>,
    id: u64,
    close_send: bool,
    close_recv: bool,
) -> WorldView<R> {
    let other = other_end(w, id);
    let w1 = if close_send {
        send_side_closed(w, id)
    } else {
        w
    };
    let w2 = if close_recv && other is Some {
        recv_side_closed(w1, (other->0).0)
    } else {
        w1
    };
    let w3 = if close_send {
        reader_woken(w2, id)
    } else {
        w2
    };
    if close_recv && other is Some {
        reader_woken(w3, (other->0).0)
    } else {
        w3
    }
}

/// Below this ratio, in parts per million, a random close hits the receiving side.
pub const CLOSE_RECV_BELOW: u32 = 660_000;

/// Above this ratio, in parts per million, a random close hits the sending side.
pub const CLOSE_SEND_ABOVE: u32 = 330_000;

/// A random close was rolled for: whether one happened, and then whether it is
/// reported to the caller, and the world after that.
pub open spec fn random_close_rolled<R: RandomProvider>(w: WorldView<R>, id: u64) -> (
    Option<bool>,
    WorldView<R>,
) {
    let chaos = w.net.config.chaos;
    if chaos.random_close_probability == 0 || minus_nanos(w.now, w.net.last_random_close_time)
        < chaos.random_close_cooldown@ {
        (None, w)
    } else {
        let (fires, buggify, rng) = buggify_draw(
            w.buggify,
            w.rng,
            chaos.random_close_probability,
            at_random_close(),
        );
        let w1 = WorldView { buggify, rng, ..w };
        if !fires {
            (None, w1)
        } else {
            let (a, rng) = rng.ratio_draw();
            let (b, rng1) = rng.ratio_draw();
            let w2 = half_closed(
                WorldView {
                    rng: rng1,
                    net: NetView { last_random_close_time: w.now, ..w.net },
                    ..w1
                },
                id,
                ratio_above(a, CLOSE_SEND_ABOVE),
                ratio_below(a, CLOSE_RECV_BELOW),
            );
            (Some(ratio_below(b, chaos.random_close_explicit_ratio)), w2)
        }
    }
}

/// The addresses of a connection's two ends, or the unspecified address where
/// they are not known.
pub open spec fn address_pair<R>(w: WorldView<R>, id: u64) -> (IpAddr, IpAddr) {
    let c = w.net.connections[id];
    if w.net.connections.contains_key(id) && c.local_ip is Some && c.remote_ip is Some {
        (c.local_ip->0, c.remote_ip->0)
    } else {
        (IpAddr::V4(0), IpAddr::V4(0))
    }
}

/// The base latency between two addresses, where none was set, becomes `nanos`.
pub open spec fn latency_set<R>(
    w: WorldView<R>,
    pair: (IpAddr, IpAddr),
    nanos: nat,
) -> WorldView<R> {
    if w.net.pair_latencies.contains_key(pair) {
        w
    } else {
        WorldView {
            net: NetView { pair_latencies: w.net.pair_latencies.insert(pair, nanos), ..w.net },
            ..w
        }
    }
}

impl<R: RandomProvider> SimWorld<R> {
    /// The simulation time.
    pub fn current_time(&self) -> (t: Duration)
        ensures
            t@ == self@.now,
    {
        self.current_time
    }

    /// The simulation time, by which events are scheduled.
    pub fn now(&self) -> (t: Duration)
        ensures
            t@ == self@.now,
    {
        self.current_time
    }

    /// The drifted time, which can be ahead of the simulation time.
    pub fn timer(&mut self) -> (t: Duration)
        requires
            old(self).wf(),
        ensures
            final(self).wf(),
            (t@, final(self)@) == timer_read(old(self)@),
    {
        let chaos = self.network.config.chaos;
        if !chaos.clock_drift_enabled {
            return self.current_time;
        }
        let limit = self.current_time.saturating_add(chaos.clock_drift_max);
        if self.timer_time.lt(&limit) {
            let ratio: u64 = self.rng.random_ratio();
            let gap = limit.saturating_sub(self.timer_time);
            self.timer_time = self.timer_time.saturating_add(gap.share(ratio).div(2));
        }
        self.timer_time = self.timer_time.max(self.current_time);
        self.timer_time
    }

    /// Schedules an event after a delay.
    pub fn schedule_event(&mut self, event: Event, delay: Duration)
        requires
            old(self).wf(),
        ensures
            final(self).wf(),
            final(self)@ == event_scheduled(
                old(self)@,
                plus_nanos(old(self)@.now, delay@),
                event@,
            ),
    {
        self.schedule_at(self.current_time.saturating_add(delay), event);
    }

    /// Schedules an event for a time.
    pub fn schedule_event_at(&mut self, event: Event, time: Duration)
        requires
            old(self).wf(),
        ensures
            final(self).wf(),
            final(self)@ == event_scheduled(old(self)@, time@, event@),
    {
        self.schedule_at(time, event);
    }

    /// Whether events wait to be processed.
    pub fn has_pending_events(&self) -> (b: bool)
        ensures
            b == (self@.queue.len() > 0),
    {
        !self.event_queue.is_empty()
    }

    /// The number of events that wait to be processed.
    pub fn pending_event_count(&self) -> (n: usize)
        ensures
            n == self@.queue.len(),
    {
        self.event_queue.len()
    }

    /// What the world measured.
    pub fn extract_metrics(&self) -> (m: SimulationMetrics)
        ensures
            m@ == (MetricsView {
                wall: 0,
                simulated: self@.now,
                events: self@.events_processed,
            }),
    {
        SimulationMetrics {
            wall_time: Duration::zero(),
            simulated_time: self.current_time,
            events_processed: self.events_processed,
        }
    }

    /// The settings of the network.
    pub fn network_config(&self) -> (c: &NetworkConfiguration)
        ensures
            *c == self@.net.config,
    {
        &self.network.config
    }

    /// Hands out the tokens of the tasks that are to be woken, in the order in which they
    /// are to be.
    pub fn take_woken(&mut self) -> (tokens: Vec<u64>)
        requires
            old(self).wf(),
        ensures
            final(self).wf(),
            tokens@ == old(self)@.woken,
            final(self)@ == (WorldView { woken: Seq::empty(), ..old(self)@ }),
    {
        let mut tokens: Vec<u64> = Vec::new();
        std::mem::swap(&mut tokens, &mut self.woken);
        tokens
    }

    /// Adds the extra delay to the length of a sleep, if it gets one.
    fn apply_buggified_delay(&mut self, duration: Duration) -> (actual: Duration)
        requires
            old(self).wf(),
        ensures
            final(self).wf(),
            ({
                let (extra, rng) = extra_delay(old(self)@.net.config.chaos, old(self)@.rng);
                &&& actual@ == plus_nanos(duration@, extra)
                &&& final(self)@ == WorldView { rng, ..old(self)@ }
            }),
    {
        let chaos = self.network.config.chaos;
        if chaos.buggified_delay_enabled && chaos.buggified_delay_max.as_nanos() != 0
            && self.rng.random_bool(chaos.buggified_delay_probability) {
            let ratio: u64 = self.rng.random_ratio();
            let power: u64 = power_of(ratio, DELAY_EXPONENT);
            duration.saturating_add(chaos.buggified_delay_max.share(power))
        } else {
            duration.saturating_add(Duration::zero())
        }
    }

    /// Puts a task to sleep and returns its identifier. The task is awake once
    /// the simulation time has moved on by `duration` and, where delays are
    /// injected, a random delay on top of it.
    pub fn sleep(&mut self, duration: Duration) -> (task_id: u64)
        requires
            old(self).wf(),
        ensures
            final(self).wf(),
            task_id == old(self)@.next_task_id,
            final(self)@ == asleep(old(self)@, duration@),
    {
        let task_id: u64 = self.next_task_id;
        self.next_task_id = self.next_task_id.wrapping_add(1);
        let actual = self.apply_buggified_delay(duration);
        self.schedule_event(Event::Timer { task_id }, actual);
        task_id
    }

    /// Whether a task's time has come.
    pub fn is_task_awake(&self, task_id: u64) -> (b: bool)
        ensures
            b == self@.awakened.contains(task_id),
    {
        self.awakened_tasks.contains(&task_id)
    }

    /// Notes that a task waits for its sleep to end.
    pub fn register_task_waker(&mut self, task_id: u64, token: u64)
        requires
            old(self).wf(),
        ensures
            final(self).wf(),
            final(self)@ == (WorldView {
                wakers: WakersView {
                    task_wakers: old(self)@.wakers.task_wakers.insert(task_id, token),
                    ..old(self)@.wakers
                },
                ..old(self)@
            }),
    {
        self.wakers.task_wakers.insert(task_id, token);
    }

    /// Creates a listener.
    pub fn create_listener(&mut self, addr: String) -> (id: ListenerId)
        requires
            old(self).wf(),
        ensures
            final(self).wf(),
            id == ListenerId(old(self)@.net.next_listener_id),
            final(self)@ == listener_created(old(self)@, addr@),
    {
        let id = ListenerId(self.network.next_listener_id);
        self.network.next_listener_id = self.network.next_listener_id.wrapping_add(1);
        self.network.listeners.insert(
            id.0,
            ListenerState { id, addr, pending_connections: VecDeque::new() },
        );
        assert(self@.net.listeners =~= listener_created(old(self)@, addr@).net.listeners);
        id
    }

    /// Reads from a connection's receive buffer into `buf`, as much as there is
    /// and fits. Returns the number of bytes.
    pub fn read_from_connection(
        &mut self,
        connection_id: ConnectionId,
        buf: &mut [u8],
    ) -> (r: SimulationResult<usize>)
        requires
            old(self).wf(),
        ensures
            final(self).wf(),
            final(buf)@.len() == old(buf)@.len(),
            ({
                let w = old(self)@;
                let id = connection_id.0;
                let received = w.net.connections[id].receive_buffer;
                match r {
                    Ok(n) => {
                        &&& w.net.connections.contains_key(id)
                        &&& n == at_most(old(buf)@.len(), received.len())
                        &&& final(buf)@ == received.take(n as int) + old(buf)@.skip(n as int)
                        &&& final(self)@ == bytes_read(w, id, old(buf)@.len())
                    },
                    Err(e) => {
                        &&& !w.net.connections.contains_key(id)
                        &&& is_invalid_state(e, "connection not found"@)
                        &&& final(buf)@ == old(buf)@
                        &&& final(self)@ == w
                    },
                }
            }),
    {
        let id: u64 = connection_id.0;
        let size: usize = buf.len();
        let ghost buf0 = buf@;
        if let Some(conn) = self.network.connections.get_mut(&id) {
            let ghost c = conn@;
            let mut n: usize = 0;
            while n < size && conn.receive_buffer.len() > 0
                invariant
                    n <= size,
                    size == buf0.len(),
                    n <= c.receive_buffer.len(),
                    buf@ == c.receive_buffer.take(n as int) + buf0.skip(n as int),
                    conn@ == (ConnView { receive_buffer: c.receive_buffer.skip(n as int), ..c }),
                decreases size - n,
            {
                if let Some(byte) = conn.receive_buffer.pop_front() {
                    buf[n] = byte;
                    n += 1;
                    assert(buf@ =~= c.receive_buffer.take(n as int) + buf0.skip(n as int));
                    assert(conn@.receive_buffer =~= c.receive_buffer.skip(n as int));
                }
            }
            return Ok(n);
        }
        Err(SimulationError::InvalidState("connection not found".to_owned()))
    }

    /// Writes to a connection's receive buffer.
    pub fn write_to_connection(
        &mut self,
        connection_id: ConnectionId,
        data: &[u8],
    ) -> (r: SimulationResult<()>)
        requires
            old(self).wf(),
        ensures
            final(self).wf(),
            ({
                let w = old(self)@;
                let id = connection_id.0;
                match r {
                    Ok(_) => w.net.connections.contains_key(id) && final(self)@ == bytes_written(
                        w,
                        id,
                        data@,
                    ),
                    Err(e) => !w.net.connections.contains_key(id) && is_invalid_state(
                        e,
                        "connection not found"@,
                    ) && final(self)@ == w,
                }
            }),
    {
        let id: u64 = connection_id.0;
        if let Some(conn) = self.network.connections.get_mut(&id) {
            let ghost c = conn@;
            let mut i: usize = 0;
            while i < data.len()
                invariant
                    i <= data@.len(),
                    conn@ == (ConnView {
                        receive_buffer: c.receive_buffer + data@.take(i as int),
                        ..c
                    }),
                decreases data@.len() - i,
            {
                conn.receive_buffer.push_back(data[i]);
                assert(data@.take(i + 1) =~= data@.take(i as int).push(data@[i as int]));
                i += 1;
            }
            assert(data@.take(i as int) =~= data@);
            return Ok(());
        }
        Err(SimulationError::InvalidState("connection not found".to_owned()))
    }

    /// Buffers data for sending. Messages of a connection are sent in the order in
    /// which they were buffered.
    pub fn buffer_send(&mut self, connection_id: ConnectionId, data: Vec<u8>) -> (r:
        SimulationResult<()>)
        requires
            old(self).wf(),
        ensures
            final(self).wf(),
            ({
                let w = old(self)@;
                let id = connection_id.0;
                match r {
                    Ok(_) => w.net.connections.contains_key(id) && final(self)@
                        == message_buffered(w, id, data@),
                    Err(e) => !w.net.connections.contains_key(id) && is_invalid_state(
                        e,
                        "connection not found"@,
                    ) && final(self)@ == w,
                }
            }),
    {
        let id: u64 = connection_id.0;
        let mut starts: bool = false;
        if let Some(conn) = self.network.connections.get_mut(&id) {
            let ghost queued = conn.send_buffer@;
            conn.send_buffer.push_back(data);
            assert(crate::state::messages(conn.send_buffer@) =~= crate::state::messages(
                queued,
            ).push(data@));
            if !conn.send_in_progress {
                conn.send_in_progress = true;
                starts = true;
            }
        } else {
            return Err(SimulationError::InvalidState("connection not found".to_owned()));
        }
        if starts {
            self.schedule_at(
                self.current_time,
                Event::Network {
                    connection_id: id,
                    operation: NetworkOperation::ProcessSendBuffer,
                },
            );
        }
        Ok(())
    }

    /// Makes up the ephemeral address that a server sees a client at.
    fn make_ephemeral(&mut self, client_ip: Option<IpAddr>) -> (a: PeerAddress)
        requires
            old(self).wf(),
        ensures
            final(self).wf(),
            ({
                let (address, rng) = ephemeral_address(old(self)@.rng, client_ip);
                a@ == address && final(self)@ == WorldView { rng, ..old(self)@ }
            }),
    {
        match client_ip {
            Some(IpAddr::V4(ip)) => {
                let offset: u64 = self.rng.random_range(0, 256);
                let port: u64 = self.rng.random_range(40_000, 60_000);
                PeerAddress::EphemeralV4 {
                    ip: ip - ip % 256 + (ip % 256 + offset as u32) % 256,
                    port: port as u16,
                }
            },
            Some(IpAddr::V6(ip)) => {
                let offset: u64 = self.rng.random_range(0, 256);
                let port: u64 = self.rng.random_range(40_000, 60_000);
                PeerAddress::EphemeralV6 {
                    ip: ip - ip % 65_536 + (ip % 65_536 + offset as u128) % 65_536,
                    port: port as u16,
                }
            },
            None => {
                let port: u64 = self.rng.random_range(40_000, 60_000);
                PeerAddress::EphemeralUnknown { port: port as u16 }
            },
        }
    }

    /// Connects a client and a server. The client sees the server at its address;
    /// the server sees the client at an ephemeral one. Returns the client's end
    /// and the server's.
    pub fn create_connection_pair(
        &mut self,
        client_addr: String,
        server_addr: String,
        client_ip: Option<IpAddr>,
        server_ip: Option<IpAddr>,
    ) -> (r: (ConnectionId, ConnectionId))
        requires
            old(self).wf(),
            old(self)@.net.next_connection_id <= u64::MAX - 2,
        ensures
            final(self).wf(),
            r.0 == ConnectionId(old(self)@.net.next_connection_id),
            r.1 == ConnectionId((old(self)@.net.next_connection_id + 1) as u64),
            final(self)@ == pair_created(
                old(self)@,
                client_addr@,
                server_addr@,
                client_ip,
                server_ip,
            ),
    {
        let ephemeral = self.make_ephemeral(client_ip);
        let client_id = ConnectionId(self.network.next_connection_id);
        let server_id = ConnectionId(self.network.next_connection_id + 1);
        self.network.next_connection_id = self.network.next_connection_id + 2;
        let now = self.current_time;
        let peer = server_addr.clone();
        let client = Self::fresh_end(
            client_id,
            server_id,
            client_addr,
            client_ip,
            server_ip,
            PeerAddress::Named(peer),
            now,
        );
        self.network.connections.insert(client_id.0, client);
        let server = Self::fresh_end(
            server_id,
            client_id,
            server_addr,
            server_ip,
            client_ip,
            ephemeral,
            now,
        );
        self.network.connections.insert(server_id.0, server);
        (client_id, server_id)
    }

    /// One end of a new connection.
    fn fresh_end(
        id: ConnectionId,
        paired: ConnectionId,
        addr: String,
        local_ip: Option<IpAddr>,
        remote_ip: Option<IpAddr>,
        peer_address: PeerAddress,
        now: Duration,
    ) -> (c: ConnectionState)
        ensures
            c@ == fresh_connection(
                id.0,
                paired.0,
                addr@,
                local_ip,
                remote_ip,
                peer_address@,
                now@,
            ),
    {
        let c = ConnectionState {
            id,
            addr,
            local_ip,
            remote_ip,
            peer_address,
            receive_buffer: VecDeque::new(),
            paired_connection: Some(paired),
            send_buffer: VecDeque::new(),
            send_in_progress: false,
            next_send_time: now,
            is_closed: false,
            send_closed: false,
            recv_closed: false,
            is_cut: false,
            cut_expiry: None,
            close_reason: CloseReason::Open,
            send_buffer_capacity: DEFAULT_SEND_BUFFER_CAPACITY,
            send_delay: None,
            recv_delay: None,
        };
        assert(c@.send_buffer =~= Seq::<Seq<u8>>::empty());
        c
    }

    /// Notes that a task waits to read a connection.
    pub fn register_read_waker(&mut self, connection_id: ConnectionId, token: u64)
        requires
            old(self).wf(),
        ensures
            final(self).wf(),
            final(self)@ == read_waker_set(old(self)@, connection_id.0, token),
    {
        self.wakers.read_wakers.insert(connection_id.0, token);
    }

    /// Notes that a task waits for a connection to an address.
    pub fn register_accept_waker(&mut self, addr: &str, token: u64)
        requires
            old(self).wf(),
        ensures
            final(self).wf(),
            final(self)@ == accept_waker_set(old(self)@, addr@, token),
    {
        let key: u64 = listener_key(addr);
        self.wakers.listener_wakers.insert(key, token);
    }

    /// Stores a connection that waits to be accepted, and wakes the task that
    /// waits for it.
    pub fn store_pending_connection(&mut self, addr: &str, connection_id: ConnectionId)
        requires
            old(self).wf(),
        ensures
            final(self).wf(),
            final(self)@ == pending_stored(
                old(self)@,
                addr@,
                listener_key_of(addr@),
                connection_id.0,
            ),
    {
        self.network.pending_connections.insert(addr.to_owned(), connection_id.0);
        let key: u64 = listener_key(addr);
        if let Some(token) = self.wakers.listener_wakers.remove(&key) {
            self.wake(token);
        } else {
            assert(self@.woken + Seq::<u64>::empty() =~= self@.woken);
        }
    }

    /// Takes the connection that waits to be accepted at an address.
    pub fn get_pending_connection(&mut self, addr: &str) -> (r: Option<ConnectionId>)
        requires
            old(self).wf(),
        ensures
            final(self).wf(),
            r == (if old(self)@.net.pending_connections.contains_key(addr@) {
                Some(ConnectionId(old(self)@.net.pending_connections[addr@]))
            } else {
                None
            }),
            final(self)@ == (WorldView {
                net: NetView {
                    pending_connections: old(self)@.net.pending_connections.remove(addr@),
                    ..old(self)@.net
                },
                ..old(self)@
            }),
    {
        let key = addr.to_owned();
        match self.network.pending_connections.remove(&key) {
            Some(id) => Some(ConnectionId(id)),
            None => None,
        }
    }

    /// The address that a connection sees its peer at.
    pub fn get_connection_peer_address(&self, connection_id: ConnectionId) -> (r: Option<
        PeerAddress,
    >)
        requires
            self.wf(),
        ensures
            match r {
                Some(a) => self@.net.connections.contains_key(connection_id.0) && a@
                    == self@.net.connections[connection_id.0].peer_address,
                None => !self@.net.connections.contains_key(connection_id.0),
            },
    {
        match self.network.connections.get(&connection_id.0) {
            Some(conn) => Some(conn.peer_address.copy()),
            None => None,
        }
    }
}

/// A task waits to read a connection.
pub open spec fn read_waker_set<R>(w: WorldView<R>, id: u64, token: u64) -> WorldView<R> {
    WorldView {
        wakers: WakersView {
            read_wakers: w.wakers.read_wakers.insert(id, token),
            ..w.wakers
        },
        ..w
    }
}

/// A task waits for a connection to an address.
pub open spec fn accept_waker_set<R>(w: WorldView<R>, addr: Seq<char>, token: u64) -> WorldView<R> {
    WorldView {
        wakers: WakersView {
            listener_wakers: w.wakers.listener_wakers.insert(listener_key_of(addr), token),
            ..w.wakers
        },
        ..w
    }
}

} // verus!
