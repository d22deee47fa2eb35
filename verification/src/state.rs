//! State of the simulated network: connections, listeners, clogs and partitions.

use crate::config::NetworkConfiguration;
use crate::table::{Table, TableKey};
use crate::text::{append_decimal, decimal, find_char, rfind_char};
use crate::time::Duration;
use std::collections::{BTreeMap, VecDeque};
use vstd::prelude::*;
use vstd::string::StringExecFns;

verus! {

/// Identifies a connection within a simulation.
#[derive(Debug, Clone, Copy, PartialEq, Eq, Structural, Hash)]
pub struct ConnectionId(pub u64);

/// Identifies a listener within a simulation.
#[derive(Debug, Clone, Copy, PartialEq, Eq, Structural, Hash)]
pub struct ListenerId(pub u64);

/// An address of the internet protocol, as the number that its bits spell.
#[derive(Debug, Clone, Copy, PartialEq, Eq, Structural, Hash)]
pub enum IpAddr {
    /// Version 4: four octets, the first the most significant.
    V4(u32),
    /// Version 6: eight segments of 16 bits, the first the most significant.
    V6(u128),
}

impl View for IpAddr {
    type V = IpAddr;

    open spec fn view(&self) -> IpAddr {
        *self
    }
}

impl TableKey for IpAddr {
    fn same(&self, other: &Self) -> (b: bool) {
        *self == *other
    }
}

/// A clog: until it expires, a connection makes no progress.
#[derive(Debug, Clone, Copy, PartialEq, Eq, Structural)]
pub struct ClogState {
    /// When the clog expires, in simulation time.
    pub expires_at: Duration,
}

impl View for ClogState {
    type V = nat;

    open spec fn view(&self) -> nat {
        self.expires_at@
    }
}

/// How a connection was closed.
#[derive(Debug, Clone, Copy, PartialEq, Eq, Structural)]
pub enum CloseReason {
    /// It is not closed.
    Open,
    /// In order: the peer reads the end of the stream.
    Graceful,
    /// Abruptly: the peer sees a reset.
    Aborted,
}

impl Default for CloseReason {
    fn default() -> (r: Self)
        ensures
            r == CloseReason::Open,
    {
        CloseReason::Open
    }
}

/// A partition between two addresses.
#[derive(Debug, Clone, Copy, PartialEq, Eq, Structural)]
pub struct PartitionState {
    /// When the partition ends, in simulation time.
    pub expires_at: Duration,
}

impl View for PartitionState {
    type V = nat;

    open spec fn view(&self) -> nat {
        self.expires_at@
    }
}

/// The address that a connection sees its peer at.
#[derive(Debug, Clone, PartialEq, Eq)]
pub enum PeerAddress {
    /// The address that was connected to.
    Named(String),
    /// An ephemeral address of version 4.
    EphemeralV4 {
        /// The address.
        ip: u32,
        /// The port.
        port: u16,
    },
    /// An ephemeral address of version 6.
    EphemeralV6 {
        /// The address.
        ip: u128,
        /// The port.
        port: u16,
    },
    /// An ephemeral port at an address that is not known.
    EphemeralUnknown {
        /// The port.
        port: u16,
    },
}

/// What a [`PeerAddress`] says.
pub ghost enum PeerAddressView {
    Named(Seq<char>),
    EphemeralV4 { ip: u32, port: u16 },
    EphemeralV6 { ip: u128, port: u16 },
    EphemeralUnknown { port: u16 },
}

impl View for PeerAddress {
    type V = PeerAddressView;

    open spec fn view(&self) -> PeerAddressView {
        match *self {
            PeerAddress::Named(s) => PeerAddressView::Named(s@),
            PeerAddress::EphemeralV4 { ip, port } => PeerAddressView::EphemeralV4 { ip, port },
            PeerAddress::EphemeralV6 { ip, port } => PeerAddressView::EphemeralV6 { ip, port },
            PeerAddress::EphemeralUnknown { port } => PeerAddressView::EphemeralUnknown { port },
        }
    }
}

/// An address of version 4 in decimal, byte after byte.
pub open spec fn v4_text(ip: u32) -> Seq<char> {
    decimal(ip as int / 0x100_0000) + "."@ + decimal(ip as int / 0x1_0000 % 0x100) + "."@
        + decimal(ip as int / 0x100 % 0x100) + "."@ + decimal(ip as int % 0x100)
}

/// The text of an address with its port. None of version 6 is written here.
pub open spec fn address_text(a: PeerAddressView) -> Option<Seq<char>> {
    match a {
        PeerAddressView::Named(s) => Some(s),
        PeerAddressView::EphemeralV4 { ip, port } => Some(
            v4_text(ip) + ":"@ + decimal(port as int),
        ),
        PeerAddressView::EphemeralV6 { ip, port } => None,
        PeerAddressView::EphemeralUnknown { port } => Some("unknown:"@ + decimal(port as int)),
    }
}

impl PeerAddress {
    /// The text of the address, if it is not of version 6.
    pub fn describe(&self) -> (text: Option<String>)
        ensures
            match text {
                Some(t) => address_text(self@) == Some(t@),
                None => address_text(self@) is None,
            },
    {
        match self {
            PeerAddress::Named(s) => Some(s.clone()),
            PeerAddress::EphemeralV4 { ip, port } => {
                let mut text = String::new();
                append_decimal(&mut text, (*ip / 0x100_0000) as u64);
                text.append(".");
                append_decimal(&mut text, (*ip / 0x1_0000 % 0x100) as u64);
                text.append(".");
                append_decimal(&mut text, (*ip / 0x100 % 0x100) as u64);
                text.append(".");
                append_decimal(&mut text, (*ip % 0x100) as u64);
                text.append(":");
                append_decimal(&mut text, *port as u64);
                assert(text@ =~= v4_text(*ip) + ":"@ + decimal(*port as int));
                Some(text)
            },
            PeerAddress::EphemeralV6 { ip, port } => None,
            PeerAddress::EphemeralUnknown { port } => {
                let mut text = "unknown:".to_owned();
                append_decimal(&mut text, *port as u64);
                Some(text)
            },
        }
    }

    /// A copy of the address.
    pub fn copy(&self) -> (a: PeerAddress)
        ensures
            a@ == self@,
    {
        match self {
            PeerAddress::Named(s) => PeerAddress::Named(s.clone()),
            PeerAddress::EphemeralV4 { ip, port } => PeerAddress::EphemeralV4 {
                ip: *ip,
                port: *port,
            },
            PeerAddress::EphemeralV6 { ip, port } => PeerAddress::EphemeralV6 {
                ip: *ip,
                port: *port,
            },
            PeerAddress::EphemeralUnknown { port } => PeerAddress::EphemeralUnknown { port: *port },
        }
    }
}

/// One end of a simulated connection.
#[derive(Debug)]
pub struct ConnectionState {
    /// The connection's identifier.
    pub id: ConnectionId,
    /// The address that the connection belongs to.
    pub addr: String,
    /// The local address.
    pub local_ip: Option<IpAddr>,
    /// The remote address.
    pub remote_ip: Option<IpAddr>,
    /// The address that this end sees its peer at.
    pub peer_address: PeerAddress,
    /// Bytes that arrived and were not read yet, oldest first.
    pub receive_buffer: VecDeque<u8>,
    /// The other end of the connection.
    pub paired_connection: Option<ConnectionId>,
    /// Messages that were written and not sent yet, oldest first.
    pub send_buffer: VecDeque<Vec<u8>>,
    /// Whether a `ProcessSendBuffer` event is scheduled.
    pub send_in_progress: bool,
    /// The earliest time at which the next message may arrive.
    pub next_send_time: Duration,
    /// Whether the connection was closed for good.
    pub is_closed: bool,
    /// Whether the sending side is closed.
    pub send_closed: bool,
    /// Whether the receiving side is closed.
    pub recv_closed: bool,
    /// Whether the connection is cut for a time.
    pub is_cut: bool,
    /// When the cut ends.
    pub cut_expiry: Option<Duration>,
    /// How the connection was closed.
    pub close_reason: CloseReason,
    /// How many bytes the send buffer may hold.
    pub send_buffer_capacity: usize,
    /// Delay of sent data, in place of the configured one.
    pub send_delay: Option<Duration>,
    /// Additional delay of received data.
    pub recv_delay: Option<Duration>,
}

/// The length of an optional span.
pub open spec fn opt_nanos(d: Option<Duration>) -> Option<nat> {
    match d {
        Some(d) => Some(d@),
        None => None,
    }
}

/// The messages of a send buffer.
pub open spec fn messages(s: Seq<Vec<u8>>) -> Seq<Seq<u8>> {
    Seq::new(s.len(), |i: int| s[i]@)
}

/// What a [`ConnectionState`] says.
#[verifier::ext_equal]
pub ghost struct ConnView {
    pub id: ConnectionId,
    pub addr: Seq<char>,
    pub local_ip: Option<IpAddr>,
    pub remote_ip: Option<IpAddr>,
    pub peer_address: PeerAddressView,
    pub receive_buffer: Seq<u8>,
    pub paired_connection: Option<ConnectionId>,
    pub send_buffer: Seq<Seq<u8>>,
    pub send_in_progress: bool,
    pub next_send_time: nat,
    pub is_closed: bool,
    pub send_closed: bool,
    pub recv_closed: bool,
    pub is_cut: bool,
    pub cut_expiry: Option<nat>,
    pub close_reason: CloseReason,
    pub send_buffer_capacity: usize,
    pub send_delay: Option<nat>,
    pub recv_delay: Option<nat>,
}

impl View for ConnectionState {
    type V = ConnView;

    open spec fn view(&self) -> ConnView {
        ConnView {
            id: self.id,
            addr: self.addr@,
            local_ip: self.local_ip,
            remote_ip: self.remote_ip,
            peer_address: self.peer_address@,
            receive_buffer: self.receive_buffer@,
            paired_connection: self.paired_connection,
            send_buffer: messages(self.send_buffer@),
            send_in_progress: self.send_in_progress,
            next_send_time: self.next_send_time@,
            is_closed: self.is_closed,
            send_closed: self.send_closed,
            recv_closed: self.recv_closed,
            is_cut: self.is_cut,
            cut_expiry: opt_nanos(self.cut_expiry),
            close_reason: self.close_reason,
            send_buffer_capacity: self.send_buffer_capacity,
            send_delay: opt_nanos(self.send_delay),
            recv_delay: opt_nanos(self.recv_delay),
        }
    }
}

/// A listener.
#[derive(Debug)]
pub struct ListenerState {
    /// The listener's identifier.
    pub id: ListenerId,
    /// The address it is bound to.
    pub addr: String,
    /// Connections that wait to be accepted.
    pub pending_connections: VecDeque<ConnectionId>,
}

/// What a [`ListenerState`] says.
#[verifier::ext_equal]
pub ghost struct ListenerView {
    pub id: ListenerId,
    pub addr: Seq<char>,
    pub pending_connections: Seq<ConnectionId>,
}

impl View for ListenerState {
    type V = ListenerView;

    open spec fn view(&self) -> ListenerView {
        ListenerView {
            id: self.id,
            addr: self.addr@,
            pending_connections: self.pending_connections@,
        }
    }
}

/// The network of a simulation.
pub struct NetworkState {
    /// The identifier of the next connection.
    pub next_connection_id: u64,
    /// The identifier of the next listener.
    pub next_listener_id: u64,
    /// The settings.
    pub config: NetworkConfiguration,
    /// The connections.
    pub connections: Table<u64, ConnectionState>,
    /// The listeners.
    pub listeners: BTreeMap<u64, ListenerState>,
    /// Connections that wait to be accepted, by address.
    pub pending_connections: Table<String, u64>,
    /// Connections whose writes are blocked for a time.
    pub connection_clogs: BTreeMap<u64, ClogState>,
    /// Connections whose reads are blocked for a time.
    pub read_clogs: BTreeMap<u64, ClogState>,
    /// Partitions from one address to another.
    pub ip_partitions: Table<(IpAddr, IpAddr), PartitionState>,
    /// Addresses that cannot send, and until when.
    pub send_partitions: Table<IpAddr, Duration>,
    /// Addresses that cannot receive, and until when.
    pub recv_partitions: Table<IpAddr, Duration>,
    /// Base latencies from one address to another.
    pub pair_latencies: Table<(IpAddr, IpAddr), Duration>,
    /// When a connection was last closed at random.
    pub last_random_close_time: Duration,
}

/// When clogs end.
pub open spec fn clog_views(m: Map<u64, ClogState>) -> Map<u64, nat> {
    m.map_values(|c: ClogState| c@)
}

/// What a [`NetworkState`] says.
#[verifier::ext_equal]
pub ghost struct NetView {
    pub next_connection_id: u64,
    pub next_listener_id: u64,
    pub config: NetworkConfiguration,
    pub connections: Map<u64, ConnView>,
    pub listeners: Map<u64, ListenerView>,
    pub pending_connections: Map<Seq<char>, u64>,
    pub connection_clogs: Map<u64, nat>,
    pub read_clogs: Map<u64, nat>,
    pub ip_partitions: Map<(IpAddr, IpAddr), nat>,
    pub send_partitions: Map<IpAddr, nat>,
    pub recv_partitions: Map<IpAddr, nat>,
    pub pair_latencies: Map<(IpAddr, IpAddr), nat>,
    pub last_random_close_time: nat,
}

impl View for NetworkState {
    type V = NetView;

    open spec fn view(&self) -> NetView {
        NetView {
            next_connection_id: self.next_connection_id,
            next_listener_id: self.next_listener_id,
            config: self.config,
            connections: self.connections@,
            listeners: self.listeners@.map_values(|l: ListenerState| l@),
            pending_connections: self.pending_connections@,
            connection_clogs: clog_views(self.connection_clogs@),
            read_clogs: clog_views(self.read_clogs@),
            ip_partitions: self.ip_partitions@,
            send_partitions: self.send_partitions@,
            recv_partitions: self.recv_partitions@,
            pair_latencies: self.pair_latencies@,
            last_random_close_time: self.last_random_close_time@,
        }
    }
}

/// The network before anything happened.
pub open spec fn empty_net(config: NetworkConfiguration) -> NetView {
    NetView {
        next_connection_id: 0,
        next_listener_id: 0,
        config,
        connections: Map::empty(),
        listeners: Map::empty(),
        pending_connections: Map::empty(),
        connection_clogs: Map::empty(),
        read_clogs: Map::empty(),
        ip_partitions: Map::empty(),
        send_partitions: Map::empty(),
        recv_partitions: Map::empty(),
        pair_latencies: Map::empty(),
        last_random_close_time: 0,
    }
}

/// Whether `m` blocks `k` beyond the time `now`.
pub open spec fn blocked<K>(m: Map<K, nat>, k: K, now: nat) -> bool {
    m.contains_key(k) && now < m[k]
}

/// Whether nothing gets from one address to another at the time `now`.
pub open spec fn partitioned(n: NetView, from_ip: IpAddr, to_ip: IpAddr, now: nat) -> bool {
    ||| blocked(n.ip_partitions, (from_ip, to_ip), now)
    ||| blocked(n.send_partitions, from_ip, now)
    ||| blocked(n.recv_partitions, to_ip, now)
}

/// Whether a connection cannot send at the time `now`.
pub open spec fn connection_partitioned(n: NetView, id: u64, now: nat) -> bool {
    &&& n.connections.contains_key(id)
    &&& n.connections[id].local_ip is Some
    &&& n.connections[id].remote_ip is Some
    &&& partitioned(n, n.connections[id].local_ip->0, n.connections[id].remote_ip->0, now)
}

/// The part of a network address that spells its IP address: what stands in
/// brackets, else what stands before the last colon, else all of it.
pub open spec fn ip_text(addr: Seq<char>) -> Seq<char> {
    if addr.len() > 0 && addr[0] == '[' && find_from_start(addr, ']') is Some {
        addr.subrange(1, find_from_start(addr, ']')->0)
    } else {
        match crate::text::find_last(addr, ':') {
            Some(i) => addr.subrange(0, i),
            None => addr,
        }
    }
}

/// The first position of `c` in `s`.
pub open spec fn find_from_start(s: Seq<char>, c: char) -> Option<int> {
    crate::text::find_from(s, c, 0)
}

impl NetworkState {
    /// The tables are well formed.
    pub open spec fn wf(&self) -> bool {
        &&& self.connections.wf()
        &&& self.pending_connections.wf()
        &&& self.ip_partitions.wf()
        &&& self.send_partitions.wf()
        &&& self.recv_partitions.wf()
        &&& self.pair_latencies.wf()
    }

    /// An empty network with the given settings.
    pub fn new(config: NetworkConfiguration) -> (n: Self)
        ensures
            n.wf(),
            n@ == empty_net(config),
    {
        NetworkState {
            next_connection_id: 0,
            next_listener_id: 0,
            config,
            connections: Table::new(),
            listeners: BTreeMap::new(),
            pending_connections: Table::new(),
            connection_clogs: BTreeMap::new(),
            read_clogs: BTreeMap::new(),
            ip_partitions: Table::new(),
            send_partitions: Table::new(),
            recv_partitions: Table::new(),
            pair_latencies: Table::new(),
            last_random_close_time: Duration::zero(),
        }
    }

    /// The part of a network address that spells its IP address. Takes forms
    /// like `127.0.0.1:8080`, `[::1]:8080` and `127.0.0.1`.
    pub fn ip_text_of_addr(addr: &str) -> (text: String)
        ensures
            text@ == ip_text(addr@),
    {
        if addr.unicode_len() > 0 && addr.get_char(0) == '[' {
            if let Some(end) = find_char(addr, ']') {
                assert(end != 0);
                return addr.substring_char(1, end).to_owned();
            }
        }
        match rfind_char(addr, ':') {
            Some(i) => addr.substring_char(0, i).to_owned(),
            None => addr.to_owned(),
        }
    }

    /// Whether nothing gets from one address to another at the current time.
    pub fn is_partitioned(&self, from_ip: IpAddr, to_ip: IpAddr, current_time: Duration) -> (b: bool)
        requires
            self.wf(),
        ensures
            b == partitioned(self@, from_ip, to_ip, current_time@),
    {
        if let Some(partition) = self.ip_partitions.get(&(from_ip, to_ip)) {
            if current_time.lt(&partition.expires_at) {
                return true;
            }
        }
        if let Some(until) = self.send_partitions.get(&from_ip) {
            if current_time.lt(until) {
                return true;
            }
        }
        if let Some(until) = self.recv_partitions.get(&to_ip) {
            if current_time.lt(until) {
                return true;
            }
        }
        false
    }

    /// Whether a connection cannot send at the current time.
    pub fn is_connection_partitioned(
        &self,
        connection_id: ConnectionId,
        current_time: Duration,
    ) -> (b: bool)
        requires
            self.wf(),
        ensures
            b == connection_partitioned(self@, connection_id.0, current_time@),
    {
        match self.connections.get(&connection_id.0) {
            Some(conn) => match (conn.local_ip, conn.remote_ip) {
                (Some(local_ip), Some(remote_ip)) => self.is_partitioned(
                    local_ip,
                    remote_ip,
                    current_time,
                ),
                _ => false,
            },
            None => false,
        }
    }
}

} // verus!
