//! Settings of a peer.

use crate::time::{Duration, plus_nanos};
use vstd::prelude::*;

verus! {

/// How a peer queues, connects and reconnects.
#[derive(Debug, Clone, Copy)]
pub struct PeerConfig {
    /// The wait before the first reconnection.
    pub initial_reconnect_delay: Duration,
    /// The longest wait between reconnections.
    pub max_reconnect_delay: Duration,
    /// The most messages that wait for a connection.
    pub max_queue_size: usize,
    /// How long a connection may take.
    pub connection_timeout: Duration,
    /// After how many failures in a row the peer is given up; never where not set.
    pub max_connection_failures: Option<u32>,
}

/// Whether settings are these: times in nanoseconds.
pub open spec fn peer_settings(
    c: PeerConfig,
    max_queue_size: usize,
    connection_timeout: nat,
    initial_reconnect_delay: nat,
    max_reconnect_delay: nat,
    max_connection_failures: Option<u32>,
) -> bool {
    &&& c.max_queue_size == max_queue_size
    &&& c.connection_timeout@ == connection_timeout
    &&& c.initial_reconnect_delay@ == initial_reconnect_delay
    &&& c.max_reconnect_delay@ == max_reconnect_delay
    &&& c.max_connection_failures == max_connection_failures
}

impl Default for PeerConfig {
    fn default() -> (c: Self)
        ensures
            peer_settings(c, 1000, 5_000_000_000, 100_000_000, 30_000_000_000, None),
    {
        PeerConfig {
            initial_reconnect_delay: Duration::from_millis(100),
            max_reconnect_delay: Duration::from_secs(30),
            max_queue_size: 1000,
            connection_timeout: Duration::from_secs(5),
            max_connection_failures: None,
        }
    }
}

impl PeerConfig {
    /// Settings with the given parts.
    pub fn new(
        max_queue_size: usize,
        connection_timeout: Duration,
        initial_reconnect_delay: Duration,
        max_reconnect_delay: Duration,
        max_connection_failures: Option<u32>,
    ) -> (c: Self)
        ensures
            peer_settings(
                c,
                max_queue_size,
                connection_timeout@,
                initial_reconnect_delay@,
                max_reconnect_delay@,
                max_connection_failures,
            ),
    {
        PeerConfig {
            initial_reconnect_delay,
            max_reconnect_delay,
            max_queue_size,
            connection_timeout,
            max_connection_failures,
        }
    }

    /// Settings for a local network.
    pub fn local_network() -> (c: Self)
        ensures
            peer_settings(c, 100, 500_000_000, 10_000_000, 1_000_000_000, Some(10)),
    {
        PeerConfig {
            initial_reconnect_delay: Duration::from_millis(10),
            max_reconnect_delay: Duration::from_secs(1),
            max_queue_size: 100,
            connection_timeout: Duration::from_millis(500),
            max_connection_failures: Some(10),
        }
    }

    /// Settings for a wide-area network.
    pub fn wan_network() -> (c: Self)
        ensures
            peer_settings(c, 5000, 30_000_000_000, 500_000_000, 60_000_000_000, None),
    {
        PeerConfig {
            initial_reconnect_delay: Duration::from_millis(500),
            max_reconnect_delay: Duration::from_secs(60),
            max_queue_size: 5000,
            connection_timeout: Duration::from_secs(30),
            max_connection_failures: None,
        }
    }

    /// The wait before another attempt to connect, after a number of failures in a row
    /// and the wait before the last of them. Nothing where the peer is given up.
    pub fn next_wait(&self, failures: u32, last: Duration) -> (wait: Option<Duration>)
        ensures
            wait is None == gives_up(*self, failures),
            wait matches Some(d) ==> d@ == wait_after(*self, failures, last@),
    {
        if let Some(most) = self.max_connection_failures {
            if failures >= most {
                return None;
            }
        }
        let wait = if failures <= 1 {
            self.initial_reconnect_delay
        } else {
            last.saturating_add(last)
        };
        if wait.le(&self.max_reconnect_delay) {
            Some(wait)
        } else {
            Some(self.max_reconnect_delay)
        }
    }
}

/// Whether a peer is given up after a number of failures in a row.
pub open spec fn gives_up(c: PeerConfig, failures: u32) -> bool {
    c.max_connection_failures matches Some(most) && failures >= most
}

/// How long is waited after a number of failures in a row: first the initial wait, then
/// twice the last one, and never longer than the longest.
pub open spec fn wait_after(c: PeerConfig, failures: u32, last: nat) -> nat {
    let wait = if failures <= 1 {
        c.initial_reconnect_delay@
    } else {
        plus_nanos(last, last)
    };
    if wait <= c.max_reconnect_delay@ {
        wait
    } else {
        c.max_reconnect_delay@
    }
}

} // verus!
