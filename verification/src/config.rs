//! Network and fault-injection settings.

use crate::random::{RandomProvider, draw_ranges, random_range_or_start};
use crate::time::{Duration, DurationRange};
use vstd::prelude::*;

verus! {

/// How connection establishment fails under fault injection.
#[derive(Debug, Clone, Copy, PartialEq, Eq, Structural)]
pub enum ConnectFailureMode {
    /// Connections are established as usual.
    Disabled,
    /// Connections are refused where a fault is injected.
    AlwaysFail,
    /// Where a fault is injected, connections are refused or hang.
    Probabilistic,
}

/// Settings of the fault injection. Probabilities are in parts per million.
#[derive(Debug, Clone, Copy, PartialEq, Eq, Structural)]
pub struct ChaosConfiguration {
    /// Probability of a clog per write.
    pub clog_probability: u32,
    /// How long clogs last.
    pub clog_duration: DurationRange,
    /// Probability of a network partition.
    pub partition_probability: u32,
    /// How long partitions last.
    pub partition_duration: DurationRange,
    /// Probability of flipped bits per delivery.
    pub bit_flip_probability: u32,
    /// The fewest bits to flip.
    pub bit_flip_min_bits: u32,
    /// The most bits to flip.
    pub bit_flip_max_bits: u32,
    /// Time between two bit flips.
    pub bit_flip_cooldown: Duration,
    /// The most bytes that a partial write sends.
    pub partial_write_max_bytes: u64,
    /// Probability of a random close per operation.
    pub random_close_probability: u32,
    /// Time between two random closes.
    pub random_close_cooldown: Duration,
    /// The share of random closes that are reported to the caller.
    pub random_close_explicit_ratio: u32,
    /// Whether timers drift ahead of the simulation time.
    pub clock_drift_enabled: bool,
    /// How far a timer may be ahead.
    pub clock_drift_max: Duration,
    /// Whether sleeps get extra delays.
    pub buggified_delay_enabled: bool,
    /// The longest extra delay.
    pub buggified_delay_max: Duration,
    /// Probability of an extra delay.
    pub buggified_delay_probability: u32,
    /// How connection establishment fails.
    pub connect_failure_mode: ConnectFailureMode,
    /// The share of hanging connections in the probabilistic mode.
    pub connect_failure_probability: u32,
}

/// The configuration that [`ChaosConfiguration::default`] gives.
pub open spec fn is_default_chaos(c: ChaosConfiguration) -> bool {
    &&& c.clog_probability == 0
    &&& c.clog_duration.start@ == 100_000_000
    &&& c.clog_duration.end@ == 300_000_000
    &&& c.partition_probability == 0
    &&& c.partition_duration.start@ == 200_000_000
    &&& c.partition_duration.end@ == 2_000_000_000
    &&& c.bit_flip_probability == 100
    &&& c.bit_flip_min_bits == 1
    &&& c.bit_flip_max_bits == 32
    &&& c.bit_flip_cooldown@ == 0
    &&& c.partial_write_max_bytes == 1000
    &&& c.random_close_probability == 10
    &&& c.random_close_cooldown@ == 5_000_000_000
    &&& c.random_close_explicit_ratio == 300_000
    &&& c.clock_drift_enabled
    &&& c.clock_drift_max@ == 100_000_000
    &&& c.buggified_delay_enabled
    &&& c.buggified_delay_max@ == 100_000_000
    &&& c.buggified_delay_probability == 250_000
    &&& c.connect_failure_mode == ConnectFailureMode::Probabilistic
    &&& c.connect_failure_probability == 500_000
}

/// The configuration that [`ChaosConfiguration::disabled`] gives.
pub open spec fn is_disabled_chaos(c: ChaosConfiguration) -> bool {
    &&& c.clog_probability == 0
    &&& c.clog_duration.start@ == 0
    &&& c.clog_duration.end@ == 0
    &&& c.partition_probability == 0
    &&& c.partition_duration.start@ == 0
    &&& c.partition_duration.end@ == 0
    &&& c.bit_flip_probability == 0
    &&& c.bit_flip_min_bits == 1
    &&& c.bit_flip_max_bits == 32
    &&& c.bit_flip_cooldown@ == 0
    &&& c.partial_write_max_bytes == 1000
    &&& c.random_close_probability == 0
    &&& c.random_close_cooldown@ == 0
    &&& c.random_close_explicit_ratio == 300_000
    &&& !c.clock_drift_enabled
    &&& c.clock_drift_max@ == 100_000_000
    &&& !c.buggified_delay_enabled
    &&& c.buggified_delay_max@ == 100_000_000
    &&& c.buggified_delay_probability == 250_000
    &&& c.connect_failure_mode == ConnectFailureMode::Disabled
    &&& c.connect_failure_probability == 500_000
}

impl Default for ChaosConfiguration {
    /// Moderate fault injection.
    fn default() -> (c: Self)
        ensures
            is_default_chaos(c),
    {
        ChaosConfiguration {
            clog_probability: 0,
            clog_duration: DurationRange {
                start: Duration::from_millis(100),
                end: Duration::from_millis(300),
            },
            partition_probability: 0,
            partition_duration: DurationRange {
                start: Duration::from_millis(200),
                end: Duration::from_secs(2),
            },
            bit_flip_probability: 100,
            bit_flip_min_bits: 1,
            bit_flip_max_bits: 32,
            bit_flip_cooldown: Duration::zero(),
            partial_write_max_bytes: 1000,
            random_close_probability: 10,
            random_close_cooldown: Duration::from_secs(5),
            random_close_explicit_ratio: 300_000,
            clock_drift_enabled: true,
            clock_drift_max: Duration::from_millis(100),
            buggified_delay_enabled: true,
            buggified_delay_max: Duration::from_millis(100),
            buggified_delay_probability: 250_000,
            connect_failure_mode: ConnectFailureMode::Probabilistic,
            connect_failure_probability: 500_000,
        }
    }
}

/// The ranges that a randomized fault injection is drawn from, in order.
pub open spec fn chaos_ranges() -> Seq<(u64, u64)> {
    seq![
        (0, 20),
        (50_000, 300_000),
        (100_000, 500_000),
        (0, 15),
        (100, 1_000),
        (500, 3_000),
        (1, 20),
        (0, 100),
        (100, 2_000),
        (1, 100),
        (1_000, 10_000),
        (20, 40),
        (50, 150),
        (50, 150),
        (20, 30),
        (0, 3),
        (40, 60),
    ]
}

/// Whether a configuration was made from the drawn numbers `d`.
pub open spec fn is_drawn_chaos(c: ChaosConfiguration, d: Seq<u64>) -> bool {
    &&& c.clog_probability == d[0] * 10_000
    &&& c.clog_duration.start@ == d[1] * 1_000
    &&& c.clog_duration.end@ == d[2] * 1_000
    &&& c.partition_probability == d[3] * 10_000
    &&& c.partition_duration.start@ == d[4] * 1_000_000
    &&& c.partition_duration.end@ == d[5] * 1_000_000
    &&& c.bit_flip_probability == d[6] * 10
    &&& c.bit_flip_min_bits == 1
    &&& c.bit_flip_max_bits == 32
    &&& c.bit_flip_cooldown@ == d[7] * 1_000_000
    &&& c.partial_write_max_bytes == d[8]
    &&& c.random_close_probability == d[9]
    &&& c.random_close_cooldown@ == d[10] * 1_000_000
    &&& c.random_close_explicit_ratio == d[11] * 10_000
    &&& c.clock_drift_enabled
    &&& c.clock_drift_max@ == d[12] * 1_000_000
    &&& c.buggified_delay_enabled
    &&& c.buggified_delay_max@ == d[13] * 1_000_000
    &&& c.buggified_delay_probability == d[14] * 10_000
    &&& c.connect_failure_mode == (if d[15] == 0 {
        ConnectFailureMode::Disabled
    } else if d[15] == 1 {
        ConnectFailureMode::AlwaysFail
    } else {
        ConnectFailureMode::Probabilistic
    })
    &&& c.connect_failure_probability == d[16] * 10_000
}

impl ChaosConfiguration {
    /// All fault injection switched off.
    pub fn disabled() -> (c: Self)
        ensures
            is_disabled_chaos(c),
    {
        ChaosConfiguration {
            clog_probability: 0,
            clog_duration: DurationRange { start: Duration::zero(), end: Duration::zero() },
            partition_probability: 0,
            partition_duration: DurationRange { start: Duration::zero(), end: Duration::zero() },
            bit_flip_probability: 0,
            bit_flip_min_bits: 1,
            bit_flip_max_bits: 32,
            bit_flip_cooldown: Duration::zero(),
            partial_write_max_bytes: 1000,
            random_close_probability: 0,
            random_close_cooldown: Duration::zero(),
            random_close_explicit_ratio: 300_000,
            clock_drift_enabled: false,
            clock_drift_max: Duration::from_millis(100),
            buggified_delay_enabled: false,
            buggified_delay_max: Duration::from_millis(100),
            buggified_delay_probability: 250_000,
            connect_failure_mode: ConnectFailureMode::Disabled,
            connect_failure_probability: 500_000,
        }
    }

    /// Randomized fault injection.
    pub fn random_for_seed<R: RandomProvider>(rng: &mut R) -> (c: Self)
        ensures
            is_drawn_chaos(c, range_draws_chaos(*old(rng)).0),
            *final(rng) == range_draws_chaos(*old(rng)).1,
    {
        let ranges: [(u64, u64); 17] = [
            (0, 20),
            (50_000, 300_000),
            (100_000, 500_000),
            (0, 15),
            (100, 1_000),
            (500, 3_000),
            (1, 20),
            (0, 100),
            (100, 2_000),
            (1, 100),
            (1_000, 10_000),
            (20, 40),
            (50, 150),
            (50, 150),
            (20, 30),
            (0, 3),
            (40, 60),
        ];
        assert(ranges@ =~= chaos_ranges());
        let d = draw_ranges(rng, ranges.as_slice());
        assert(forall|i: int| 0 <= i < 17 ==> #[trigger] d@[i] < chaos_ranges()[i].1);
        assert(d@[0] < 20 && d@[3] < 15 && d@[6] < 20 && d@[9] < 100 && d@[11] < 40 && d@[14] < 30
            && d@[16] < 60);
        ChaosConfiguration {
            clog_probability: (d[0] * 10_000) as u32,
            clog_duration: DurationRange {
                start: Duration::from_micros(d[1]),
                end: Duration::from_micros(d[2]),
            },
            partition_probability: (d[3] * 10_000) as u32,
            partition_duration: DurationRange {
                start: Duration::from_millis(d[4]),
                end: Duration::from_millis(d[5]),
            },
            bit_flip_probability: (d[6] * 10) as u32,
            bit_flip_min_bits: 1,
            bit_flip_max_bits: 32,
            bit_flip_cooldown: Duration::from_millis(d[7]),
            partial_write_max_bytes: d[8],
            random_close_probability: d[9] as u32,
            random_close_cooldown: Duration::from_millis(d[10]),
            random_close_explicit_ratio: (d[11] * 10_000) as u32,
            clock_drift_enabled: true,
            clock_drift_max: Duration::from_millis(d[12]),
            buggified_delay_enabled: true,
            buggified_delay_max: Duration::from_millis(d[13]),
            buggified_delay_probability: (d[14] * 10_000) as u32,
            connect_failure_mode: if d[15] == 0 {
                ConnectFailureMode::Disabled
            } else if d[15] == 1 {
                ConnectFailureMode::AlwaysFail
            } else {
                ConnectFailureMode::Probabilistic
            },
            connect_failure_probability: (d[16] * 10_000) as u32,
        }
    }
}

/// The numbers that a randomized fault injection is made from.
pub open spec fn range_draws_chaos<R: RandomProvider>(rng: R) -> (Seq<u64>, R) {
    crate::random::range_draws(rng, chaos_ranges())
}

/// Settings of the simulated network.
#[derive(Debug, Clone, Copy, PartialEq, Eq, Structural)]
pub struct NetworkConfiguration {
    /// Latency of bind operations.
    pub bind_latency: DurationRange,
    /// Latency of accept operations.
    pub accept_latency: DurationRange,
    /// Latency of connect operations.
    pub connect_latency: DurationRange,
    /// Latency of read operations.
    pub read_latency: DurationRange,
    /// Latency of write operations.
    pub write_latency: DurationRange,
    /// Fault injection.
    pub chaos: ChaosConfiguration,
}

/// Whether `r` is the range from `start` to `end` nanoseconds.
pub open spec fn is_range(r: DurationRange, start: int, end: int) -> bool {
    r.start@ == start && r.end@ == end
}

/// The configuration that [`NetworkConfiguration::default`] gives.
pub open spec fn is_default_network(c: NetworkConfiguration) -> bool {
    &&& is_range(c.bind_latency, 50_000, 150_000)
    &&& is_range(c.accept_latency, 1_000_000, 6_000_000)
    &&& is_range(c.connect_latency, 1_000_000, 11_000_000)
    &&& is_range(c.read_latency, 10_000, 60_000)
    &&& is_range(c.write_latency, 100_000, 600_000)
    &&& is_default_chaos(c.chaos)
}

impl Default for NetworkConfiguration {
    fn default() -> (c: Self)
        ensures
            is_default_network(c),
    {
        NetworkConfiguration {
            bind_latency: DurationRange {
                start: Duration::from_micros(50),
                end: Duration::from_micros(150),
            },
            accept_latency: DurationRange {
                start: Duration::from_millis(1),
                end: Duration::from_millis(6),
            },
            connect_latency: DurationRange {
                start: Duration::from_millis(1),
                end: Duration::from_millis(11),
            },
            read_latency: DurationRange {
                start: Duration::from_micros(10),
                end: Duration::from_micros(60),
            },
            write_latency: DurationRange {
                start: Duration::from_micros(100),
                end: Duration::from_micros(600),
            },
            chaos: ChaosConfiguration::default(),
        }
    }
}

/// The low 64 bits of a number of nanoseconds.
pub open spec fn low_nanos(n: nat) -> u64 {
    (n % 0x1_0000_0000_0000_0000) as u64
}

/// A duration drawn from a range and the state after the draw; the start of the
/// range, without a draw, where the range is empty.
pub open spec fn duration_draw<R: RandomProvider>(rng: R, range: DurationRange) -> (u64, R) {
    crate::random::range_or_start_draw(rng, low_nanos(range.start@), low_nanos(range.end@))
}

/// Draws a duration from a range.
pub fn sample_duration<R: RandomProvider>(rng: &mut R, range: &DurationRange) -> (d: Duration)
    ensures
        d@ == duration_draw(*old(rng), *range).0,
        *final(rng) == duration_draw(*old(rng), *range).1,
{
    let start_nanos: u64 = (range.start.as_nanos() % 0x1_0000_0000_0000_0000) as u64;
    let end_nanos: u64 = (range.end.as_nanos() % 0x1_0000_0000_0000_0000) as u64;
    Duration::from_nanos(random_range_or_start(rng, start_nanos, end_nanos))
}

/// The ranges in microseconds that randomized latencies are drawn from, in order.
pub open spec fn latency_ranges() -> Seq<(u64, u64)> {
    seq![
        (10, 200),
        (50, 300),
        (1_000, 10_000),
        (5_000, 15_000),
        (1_000, 50_000),
        (10_000, 100_000),
        (5, 100),
        (50, 200),
        (50, 1_000),
        (200, 2_000),
    ]
}

/// Whether the settings are those that are drawn at random.
pub open spec fn is_drawn_network<R: RandomProvider>(c: NetworkConfiguration, rng: R) -> bool {
    let (d, after) = crate::random::range_draws(rng, latency_ranges());
    &&& is_range(c.bind_latency, d[0] * 1_000, d[1] * 1_000)
    &&& is_range(c.accept_latency, d[2] * 1_000, d[3] * 1_000)
    &&& is_range(c.connect_latency, d[4] * 1_000, d[5] * 1_000)
    &&& is_range(c.read_latency, d[6] * 1_000, d[7] * 1_000)
    &&& is_range(c.write_latency, d[8] * 1_000, d[9] * 1_000)
    &&& is_drawn_chaos(c.chaos, range_draws_chaos(after).0)
}

/// The source of randomness after settings were drawn.
pub open spec fn network_drawn<R: RandomProvider>(rng: R) -> R {
    range_draws_chaos(crate::random::range_draws(rng, latency_ranges()).1).1
}

impl NetworkConfiguration {
    /// The default settings.
    pub fn new() -> (c: Self)
        ensures
            is_default_network(c),
    {
        NetworkConfiguration::default()
    }

    /// Randomized settings for chaos testing.
    pub fn random_for_seed<R: RandomProvider>(rng: &mut R) -> (c: Self)
        ensures
            is_drawn_network(c, *old(rng)),
            *final(rng) == network_drawn(*old(rng)),
    {
        let ranges: [(u64, u64); 10] = [
            (10, 200),
            (50, 300),
            (1_000, 10_000),
            (5_000, 15_000),
            (1_000, 50_000),
            (10_000, 100_000),
            (5, 100),
            (50, 200),
            (50, 1_000),
            (200, 2_000),
        ];
        assert(ranges@ =~= latency_ranges());
        let d = draw_ranges(rng, ranges.as_slice());
        NetworkConfiguration {
            bind_latency: DurationRange {
                start: Duration::from_micros(d[0]),
                end: Duration::from_micros(d[1]),
            },
            accept_latency: DurationRange {
                start: Duration::from_micros(d[2]),
                end: Duration::from_micros(d[3]),
            },
            connect_latency: DurationRange {
                start: Duration::from_micros(d[4]),
                end: Duration::from_micros(d[5]),
            },
            read_latency: DurationRange {
                start: Duration::from_micros(d[6]),
                end: Duration::from_micros(d[7]),
            },
            write_latency: DurationRange {
                start: Duration::from_micros(d[8]),
                end: Duration::from_micros(d[9]),
            },
            chaos: ChaosConfiguration::random_for_seed(rng),
        }
    }

    /// Settings for fast local testing.
    pub fn fast_local() -> (c: Self)
        ensures
            is_range(c.bind_latency, 1_000, 1_000),
            is_range(c.accept_latency, 10_000, 10_000),
            is_range(c.connect_latency, 10_000, 10_000),
            is_range(c.read_latency, 1_000, 1_000),
            is_range(c.write_latency, 1_000, 1_000),
            is_disabled_chaos(c.chaos),
    {
        let one_us = DurationRange { start: Duration::from_micros(1), end: Duration::from_micros(1) };
        let ten_us = DurationRange { start: Duration::from_micros(10), end: Duration::from_micros(10) };
        NetworkConfiguration {
            bind_latency: one_us,
            accept_latency: ten_us,
            connect_latency: ten_us,
            read_latency: one_us,
            write_latency: one_us,
            chaos: ChaosConfiguration::disabled(),
        }
    }
}

} // verus!
