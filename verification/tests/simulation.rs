//! Tests of the simulated world, its faults, and the runner.

use moonpool::buggify::{Buggify, buggify_init, buggify_internal, buggify_reset};
use moonpool::config::{NetworkConfiguration, sample_duration};
use moonpool::error::{SimulationError, SimulationResult};
use moonpool::events::{
    ConnectionStateChange, Event, EventQueue, NetworkOperation, ScheduledEvent,
};
use moonpool::operation_gen::{
    OperationBuilder, OperationGenerator, UniformGenerator, WeightedGenerator, generate_sequence,
};
use moonpool::orchestrator::{
    DeadlockDetector, IterationControl, IterationManager, RoundEnd, WorkloadOrchestrator,
    WorkloadOutcome,
};
use moonpool::random::{RATIO_SCALE, RandomProvider};
use moonpool::report::{AssertionStats, MetricsCollector, SimulationMetrics, SimulationReport};
use moonpool::runner::SimulationBuilder;
use moonpool::state::{CloseReason, ConnectionId, IpAddr, PeerAddress};
use moonpool::stream::{ConnectOutcome, StreamError, StreamPoll};
use moonpool::time::{Duration, DurationRange};
use moonpool::topology::{TopologyFactory, Workload};
use moonpool::world::SimWorld;
use moonpool::xorshift::XorShift64;
use std::collections::hash_map::DefaultHasher;
use std::hash::{Hash, Hasher};

// Fault injection.

#[test]
fn test_disabled_by_default() {
    let mut state = Buggify::new();
    let mut rng = XorShift64::new(1);
    buggify_reset(&mut state);
    for _ in 0..10 {
        assert!(!buggify_internal(&mut state, &mut rng, 1_000_000, "test"));
    }
}

#[test]
fn test_activation_consistency() {
    let mut state = Buggify::new();
    let mut rng = XorShift64::new(12345);
    buggify_init(&mut state, 500_000, 1_000_000);

    let location = "test_location";
    let first = buggify_internal(&mut state, &mut rng, 1_000_000, location);
    let second = buggify_internal(&mut state, &mut rng, 1_000_000, location);

    assert_eq!(first, second);
    buggify_reset(&mut state);
}

#[test]
fn test_deterministic() {
    const SEED: u64 = 54321;
    let mut results1 = Vec::new();
    let mut results2 = Vec::new();

    for run in 0..2 {
        let mut state = Buggify::new();
        let mut rng = XorShift64::new(SEED);
        buggify_init(&mut state, 500_000, 500_000);

        let results = if run == 0 { &mut results1 } else { &mut results2 };

        for i in 0..5 {
            let location = format!("loc_{}", i);
            results.push(buggify_internal(&mut state, &mut rng, 500_000, &location));
        }

        buggify_reset(&mut state);
    }

    assert_eq!(results1, results2);
}

// Events.

#[test]
fn test_infrastructure_event_detection() {
    let restore_event = Event::Connection {
        id: 1,
        state: ConnectionStateChange::PartitionRestore,
    };
    assert!(restore_event.is_infrastructure_event());

    let timer_event = Event::Timer { task_id: 1 };
    assert!(!timer_event.is_infrastructure_event());

    let network_event = Event::Network {
        connection_id: 1,
        operation: NetworkOperation::DataDelivery { data: vec![1, 2, 3] },
    };
    assert!(!network_event.is_infrastructure_event());

    let shutdown_event = Event::Shutdown;
    assert!(!shutdown_event.is_infrastructure_event());

    let mut queue = EventQueue::new();
    assert!(queue.has_only_infrastructure_events());

    queue.schedule(ScheduledEvent::new(Duration::from_secs(1), restore_event, 1));
    assert!(queue.has_only_infrastructure_events());

    queue.schedule(ScheduledEvent::new(Duration::from_secs(2), timer_event, 2));
    assert!(!queue.has_only_infrastructure_events());

    let mut queue2 = EventQueue::new();
    queue2.schedule(ScheduledEvent::new(Duration::from_secs(1), network_event, 1));
    assert!(!queue2.has_only_infrastructure_events());
}

#[test]
fn event_queue_ordering() {
    let mut queue = EventQueue::new();

    queue.schedule(ScheduledEvent::new(
        Duration::from_millis(300),
        Event::Timer { task_id: 3 },
        2,
    ));
    queue.schedule(ScheduledEvent::new(
        Duration::from_millis(100),
        Event::Timer { task_id: 1 },
        0,
    ));
    queue.schedule(ScheduledEvent::new(
        Duration::from_millis(200),
        Event::Timer { task_id: 2 },
        1,
    ));

    let event1 = queue.pop_earliest().unwrap();
    assert_eq!(event1.time(), Duration::from_millis(100));
    assert_eq!(event1.event(), &Event::Timer { task_id: 1 });

    let event2 = queue.pop_earliest().unwrap();
    assert_eq!(event2.time(), Duration::from_millis(200));
    assert_eq!(event2.event(), &Event::Timer { task_id: 2 });

    let event3 = queue.pop_earliest().unwrap();
    assert_eq!(event3.time(), Duration::from_millis(300));
    assert_eq!(event3.event(), &Event::Timer { task_id: 3 });

    assert!(queue.is_empty());
}

#[test]
fn same_time_deterministic_ordering() {
    let mut queue = EventQueue::new();
    let same_time = Duration::from_millis(100);

    queue.schedule(ScheduledEvent::new(same_time, Event::Timer { task_id: 3 }, 2));
    queue.schedule(ScheduledEvent::new(same_time, Event::Timer { task_id: 1 }, 0));
    queue.schedule(ScheduledEvent::new(same_time, Event::Timer { task_id: 2 }, 1));

    let event1 = queue.pop_earliest().unwrap();
    assert_eq!(event1.event(), &Event::Timer { task_id: 1 });
    assert_eq!(event1.sequence(), 0);

    let event2 = queue.pop_earliest().unwrap();
    assert_eq!(event2.event(), &Event::Timer { task_id: 2 });
    assert_eq!(event2.sequence(), 1);

    let event3 = queue.pop_earliest().unwrap();
    assert_eq!(event3.event(), &Event::Timer { task_id: 3 });
    assert_eq!(event3.sequence(), 2);

    assert!(queue.is_empty());
}

// The world.

#[test]
fn sim_world_basic_lifecycle() {
    let mut sim = SimWorld::new();

    assert_eq!(sim.current_time(), Duration::zero());
    assert!(!sim.has_pending_events());
    assert_eq!(sim.pending_event_count(), 0);

    sim.schedule_event(Event::Timer { task_id: 1 }, Duration::from_millis(100));

    assert!(sim.has_pending_events());
    assert_eq!(sim.pending_event_count(), 1);
    assert_eq!(sim.current_time(), Duration::zero());

    let has_more = sim.step();
    assert!(!has_more);
    assert_eq!(sim.current_time(), Duration::from_millis(100));
    assert!(!sim.has_pending_events());
    assert_eq!(sim.pending_event_count(), 0);
}

#[test]
fn sim_world_multiple_events() {
    let mut sim = SimWorld::new();

    sim.schedule_event(Event::Timer { task_id: 3 }, Duration::from_millis(300));
    sim.schedule_event(Event::Timer { task_id: 1 }, Duration::from_millis(100));
    sim.schedule_event(Event::Timer { task_id: 2 }, Duration::from_millis(200));

    assert_eq!(sim.pending_event_count(), 3);

    assert!(sim.step());
    assert_eq!(sim.current_time(), Duration::from_millis(100));
    assert_eq!(sim.pending_event_count(), 2);

    assert!(sim.step());
    assert_eq!(sim.current_time(), Duration::from_millis(200));
    assert_eq!(sim.pending_event_count(), 1);

    assert!(!sim.step());
    assert_eq!(sim.current_time(), Duration::from_millis(300));
    assert_eq!(sim.pending_event_count(), 0);
}

#[test]
fn sim_world_run_until_empty() {
    let mut sim = SimWorld::new();

    sim.schedule_event(Event::Timer { task_id: 1 }, Duration::from_millis(100));
    sim.schedule_event(Event::Timer { task_id: 2 }, Duration::from_millis(200));
    sim.schedule_event(Event::Timer { task_id: 3 }, Duration::from_millis(300));

    assert!(sim.run_until_empty(1000));

    assert_eq!(sim.current_time(), Duration::from_millis(300));
    assert!(!sim.has_pending_events());
}

#[test]
fn sim_world_schedule_at_specific_time() {
    let mut sim = SimWorld::new();

    sim.schedule_event_at(Event::Timer { task_id: 1 }, Duration::from_millis(500));

    assert_eq!(sim.current_time(), Duration::zero());

    sim.step();

    assert_eq!(sim.current_time(), Duration::from_millis(500));
}

#[test]
fn deterministic_event_ordering() {
    let mut sim = SimWorld::new();

    sim.schedule_event(Event::Timer { task_id: 2 }, Duration::from_millis(100));
    sim.schedule_event(Event::Timer { task_id: 1 }, Duration::from_millis(100));
    sim.schedule_event(Event::Timer { task_id: 3 }, Duration::from_millis(100));

    assert!(sim.step());
    assert_eq!(sim.current_time(), Duration::from_millis(100));
    assert!(sim.step());
    assert_eq!(sim.current_time(), Duration::from_millis(100));
    assert!(!sim.step());
    assert_eq!(sim.current_time(), Duration::from_millis(100));
}

#[test]
fn test_sim_time_provider_with_simulation() {
    let mut sim = SimWorld::new();

    let now = sim.now();
    assert_eq!(now, Duration::zero());

    let timer = sim.timer();
    assert!(now.le(&timer));
    assert!(timer.le(&now.saturating_add(Duration::from_millis(100))));
}

#[test]
fn test_clock_drift_bounds() {
    let mut sim = SimWorld::new();

    for _ in 0..100 {
        let now = sim.now();
        let timer = sim.timer();

        assert!(now.le(&timer), "timer ({:?}) < now ({:?})", timer, now);
        assert!(
            timer.le(&now.saturating_add(Duration::from_millis(100))),
            "timer ({:?}) > now + 100ms ({:?})",
            timer,
            now.saturating_add(Duration::from_millis(100))
        );
    }
}

#[test]
fn time_never_runs_backwards() {
    let (mut sim, client, _server) = connected_pair();
    for i in 0..20u64 {
        sim.poll_write(client, vec![i as u8; 3], 1);
        sim.schedule_event(Event::Timer { task_id: i }, Duration::from_nanos(i * 7 % 11));
    }
    let mut before = sim.current_time();
    while sim.has_pending_events() {
        sim.step();
        assert!(before.le(&sim.current_time()));
        before = sim.current_time();
    }
}

#[test]
fn sleepers_wake_when_their_time_has_come() {
    let mut sim = SimWorld::new_with_network_config(NetworkConfiguration::fast_local());
    let task = sim.sleep(Duration::from_millis(5));
    assert!(!sim.poll_sleep(task, 77));
    assert!(sim.take_woken().is_empty());
    sim.step();
    assert_eq!(sim.current_time(), Duration::from_millis(5));
    assert_eq!(sim.take_woken(), [77]);
    assert!(sim.poll_sleep(task, 78));
}

#[test]
fn sleeps_get_extra_delays_by_a_power_law() {
    const SEED: u64 = 77;
    let mut config = NetworkConfiguration::fast_local();
    config.chaos.buggified_delay_enabled = true;
    config.chaos.buggified_delay_max = Duration::from_millis(100);
    config.chaos.buggified_delay_probability = 250_000;
    let mut sim = SimWorld::new_with_network_config_and_seed(config, SEED);
    let mut draws = XorShift64::new(SEED);
    let mut delayed = 0;
    let mut long = 0;
    for _ in 0..4000 {
        let before = sim.current_time().as_nanos();
        sim.sleep(Duration::from_millis(5));
        sim.step();
        let extra = (sim.current_time().as_nanos() - before - 5_000_000) as f64;
        assert!(extra <= 100_000_000.0);
        let expected = if draws.random_ratio() < RATIO_SCALE / 4 {
            delayed += 1;
            let ratio = draws.random_ratio() as f64 / RATIO_SCALE as f64;
            100_000_000.0 * ratio.powf(1000.0)
        } else {
            0.0
        };
        assert!((extra - expected).abs() <= 1.0);
        if extra > 1_000_000.0 {
            long += 1;
        }
    }
    assert!(delayed > 800 && delayed < 1200);
    assert!(long > 0 && long < 20);
}

#[test]
fn shares_of_spans_are_rounded_down() {
    assert_eq!(Duration::from_nanos(7).share(RATIO_SCALE / 2), Duration::from_nanos(3));
    assert_eq!(Duration::from_secs(9).share(RATIO_SCALE), Duration::from_secs(9));
    assert_eq!(Duration::from_secs(9).share(0), Duration::zero());
    assert_eq!(Duration::max_value().share(RATIO_SCALE), Duration::max_value());
}

/// A connected pair in a world without faults.
fn connected_pair() -> (SimWorld<XorShift64>, ConnectionId, ConnectionId) {
    connected_pair_with(NetworkConfiguration::fast_local())
}

/// A connected pair in a world with the given latencies.
fn connected_pair_with(
    config: NetworkConfiguration,
) -> (SimWorld<XorShift64>, ConnectionId, ConnectionId) {
    let mut sim = SimWorld::new_with_network_config(config);
    sim.bind("10.0.0.2:80");
    let client = match sim.connect("10.0.0.2:80", Some(IpAddr::V4(0x0a00_0002))) {
        ConnectOutcome::Connected(id) => id,
        other => panic!("not connected: {other:?}"),
    };
    let server = sim.poll_accept("10.0.0.2:80", 1).expect("the connection waits");
    sim.run_until_empty(1000);
    sim.take_woken();
    (sim, client, server)
}

#[test]
fn bytes_arrive_in_order() {
    let (mut sim, client, server) = connected_pair();
    let mut buf = [0u8; 64];
    assert_eq!(sim.poll_read(server, &mut buf, 5), StreamPoll::Pending);
    for part in [&b"Hello, "[..], &b"simulated "[..], &b"world!"[..]] {
        let n = part.len();
        assert_eq!(sim.poll_write(client, part.to_vec(), 6), StreamPoll::Ready(n));
    }
    assert!(sim.run_until_empty(1000));
    assert_eq!(sim.take_woken(), [5]);
    let mut got: Vec<u8> = Vec::new();
    let mut small = [0u8; 4];
    while let StreamPoll::Ready(n) = sim.poll_read(server, &mut small, 7) {
        got.extend_from_slice(&small[..n]);
    }
    assert_eq!(got, b"Hello, simulated world!");
}

/// How many nanoseconds it takes for a message to arrive where `delay` is the
/// receiver's own delay.
fn travel_nanos(read_latency: Duration, delay: Option<Duration>) -> u128 {
    let mut config = NetworkConfiguration::fast_local();
    config.read_latency = DurationRange { start: read_latency, end: read_latency };
    let (mut sim, client, server) = connected_pair_with(config);
    sim.set_asymmetric_delays(server, None, delay);
    let before = sim.current_time().as_nanos();
    sim.poll_write(client, b"ping".to_vec(), 6);
    assert!(sim.run_until_empty(1000));
    let mut buf = [0u8; 8];
    assert_eq!(sim.poll_read(server, &mut buf, 7), StreamPoll::Ready(4));
    sim.current_time().as_nanos() - before
}

#[test]
fn bytes_are_read_after_the_read_latency() {
    let short = travel_nanos(Duration::from_micros(1), None);
    let long = travel_nanos(Duration::from_millis(5), None);
    assert_eq!(long - short, 4_999_000);
    // A connection's own delay takes the latency's place.
    let own = travel_nanos(Duration::from_millis(5), Some(Duration::from_millis(2)));
    assert_eq!(own - short, 1_999_000);
}

#[test]
fn bytes_stay_in_order_when_delays_shrink() {
    let (mut sim, client, server) = connected_pair();
    sim.set_asymmetric_delays(server, None, Some(Duration::from_millis(50)));
    sim.poll_write(client, b"first".to_vec(), 6);
    sim.step();
    sim.set_asymmetric_delays(server, None, Some(Duration::zero()));
    sim.poll_write(client, b"second".to_vec(), 6);
    assert!(sim.run_until_empty(1000));
    let mut buf = [0u8; 16];
    assert_eq!(sim.poll_read(server, &mut buf, 7), StreamPoll::Ready(11));
    assert_eq!(&buf[..11], b"firstsecond");
}

#[test]
fn the_end_of_a_stream_is_read_after_what_was_sent() {
    let (mut sim, client, server) = connected_pair();
    sim.poll_write(client, b"bye".to_vec(), 6);
    sim.run_until_empty(1000);
    sim.close_connection(client);
    assert_eq!(sim.get_close_reason(client), CloseReason::Graceful);
    let mut buf = [0u8; 8];
    assert_eq!(sim.poll_read(server, &mut buf, 7), StreamPoll::Ready(3));
    assert_eq!(&buf[..3], b"bye");
    assert_eq!(sim.poll_read(server, &mut buf, 7), StreamPoll::Ready(0));
    assert_eq!(
        sim.poll_write(client, b"more".to_vec(), 6),
        StreamPoll::Failed(StreamError::BrokenPipe)
    );
}

#[test]
fn resets_show_at_both_ends() {
    let (mut sim, client, server) = connected_pair();
    sim.close_connection_abort(client);
    let mut buf = [0u8; 8];
    assert_eq!(
        sim.poll_read(server, &mut buf, 7),
        StreamPoll::Failed(StreamError::ConnectionReset)
    );
    assert_eq!(
        sim.poll_write(client, b"more".to_vec(), 6),
        StreamPoll::Failed(StreamError::ConnectionReset)
    );
    assert_eq!(
        sim.poll_read(ConnectionId(99), &mut buf, 7),
        StreamPoll::Failed(StreamError::UnknownConnection)
    );
}

#[test]
fn cuts_are_waited_out() {
    let (mut sim, client, server) = connected_pair();
    sim.cut_connection(server, Duration::from_millis(10));
    assert!(sim.is_connection_cut(server));
    let mut buf = [0u8; 8];
    assert_eq!(sim.poll_read(server, &mut buf, 21), StreamPoll::Pending);
    sim.run_until_empty(1000);
    assert!(!sim.is_connection_cut(server));
    assert_eq!(sim.take_woken(), [21]);
    assert!(!sim.is_connection_cut(client));
}

#[test]
fn partitions_end() {
    let mut sim = SimWorld::new_with_network_config(NetworkConfiguration::fast_local());
    let (a, b) = (IpAddr::V4(1), IpAddr::V4(2));
    sim.partition_pair(a, b, Duration::from_millis(10));
    assert!(sim.is_partitioned(a, b));
    assert!(!sim.is_partitioned(b, a));
    sim.restore_partition(a, b);
    assert!(!sim.is_partitioned(a, b));
    sim.partition_send_from(a, Duration::from_millis(10));
    assert!(sim.is_partitioned(a, b));
    sim.partition_recv_to(a, Duration::from_millis(10));
    assert!(sim.is_partitioned(b, a));
    sim.step();
    sim.step();
    assert!(!sim.is_partitioned(a, b));
    assert!(!sim.is_partitioned(b, a));
}

#[test]
fn clients_have_ephemeral_addresses() {
    let mut sim = SimWorld::new_with_network_config(NetworkConfiguration::fast_local());
    let (client, server) = sim.create_connection_pair(
        "client".to_string(),
        "10.0.0.2:80".to_string(),
        Some(IpAddr::V4(0x0a00_0001)),
        Some(IpAddr::V4(0x0a00_0002)),
    );
    assert_eq!(
        sim.get_connection_peer_address(client),
        Some(PeerAddress::Named("10.0.0.2:80".to_string()))
    );
    match sim.get_connection_peer_address(server) {
        Some(PeerAddress::EphemeralV4 { ip, port }) => {
            assert_eq!(ip >> 8, 0x0a_0000);
            assert!((40_000..60_000).contains(&port));
        }
        other => panic!("unexpected address: {other:?}"),
    }
}

#[test]
fn addresses_have_texts() {
    let text = |a: PeerAddress| a.describe();
    assert_eq!(text(PeerAddress::Named("host:80".to_string())).unwrap(), "host:80");
    let v4 = PeerAddress::EphemeralV4 { ip: 0xc0a8_000a, port: 40_001 };
    assert_eq!(text(v4).unwrap(), "192.168.0.10:40001");
    let unknown = PeerAddress::EphemeralUnknown { port: 59_999 };
    assert_eq!(text(unknown).unwrap(), "unknown:59999");
    assert_eq!(text(PeerAddress::EphemeralV6 { ip: 1, port: 2 }), None);
}

#[test]
fn tasks_are_woken_in_the_order_in_which_they_came() {
    let (mut sim, client, server) = connected_pair();
    for token in [9, 3, 7] {
        sim.register_clog_waker(client, token);
    }
    sim.clog_write(client);
    sim.run_until_empty(1000);
    assert_eq!(sim.take_woken(), [9, 3, 7]);
    assert!(sim.take_woken().is_empty());

    // When a connection is closed, the end that closes it comes first.
    let mut buf = [0u8; 8];
    assert_eq!(sim.poll_read(server, &mut buf, 2), StreamPoll::Pending);
    assert_eq!(sim.poll_read(client, &mut buf, 1), StreamPoll::Pending);
    sim.close_connection(server);
    assert_eq!(sim.take_woken(), [2, 1]);
}

#[test]
fn a_shutdown_wakes_tasks_by_rising_ids() {
    let (mut sim, client, server) = connected_pair();
    let mut buf = [0u8; 8];
    let (low, high) = if client.0 < server.0 { (client, server) } else { (server, client) };
    assert_eq!(sim.poll_read(high, &mut buf, 1), StreamPoll::Pending);
    assert_eq!(sim.poll_read(low, &mut buf, 2), StreamPoll::Pending);
    sim.process_event(Event::Shutdown);
    assert_eq!(sim.take_woken(), [2, 1]);
}

#[test]
fn latencies_are_set_once() {
    let mut sim = SimWorld::new_with_network_config(NetworkConfiguration::fast_local());
    let (a, b) = (IpAddr::V4(1), IpAddr::V4(2));
    assert_eq!(sim.get_pair_latency(a, b), None);
    let first = sim.set_pair_latency_if_not_set(a, b, Duration::from_millis(3));
    assert_eq!(first, Duration::from_millis(3));
    let second = sim.set_pair_latency_if_not_set(a, b, Duration::from_millis(9));
    assert_eq!(second, Duration::from_millis(3));
    assert_eq!(sim.get_pair_latency(a, b), Some(Duration::from_millis(3)));
}

#[test]
fn one_bit_flip_is_common_and_many_are_rare() {
    assert_eq!(SimWorld::<XorShift64>::calculate_flip_bit_count(0, 1, 32), 32);
    assert_eq!(SimWorld::<XorShift64>::calculate_flip_bit_count(u32::MAX, 1, 32), 1);
    assert_eq!(SimWorld::<XorShift64>::calculate_flip_bit_count(1, 1, 32), 32);
    assert_eq!(SimWorld::<XorShift64>::calculate_flip_bit_count(0x0001_0000, 1, 32), 16);
    assert_eq!(SimWorld::<XorShift64>::calculate_flip_bit_count(1, 1, 8), 8);
}

#[test]
fn the_same_seed_gives_the_same_world() {
    let run = |seed: u64| {
        let mut sim = SimWorld::new_with_seed(seed);
        let mut times = Vec::new();
        for _ in 0..20 {
            times.push(sim.timer());
        }
        times
    };
    assert_eq!(run(5), run(5));
    assert_ne!(run(5), run(6));
}

#[test]
fn durations_are_drawn_from_their_range() {
    let mut rng = XorShift64::new(3);
    let range = DurationRange { start: Duration::from_nanos(10), end: Duration::from_nanos(20) };
    for _ in 0..50 {
        let d = sample_duration(&mut rng, &range);
        assert!(range.start.le(&d) && d.lt(&range.end));
    }
    let point = DurationRange { start: Duration::from_nanos(10), end: Duration::from_nanos(10) };
    assert_eq!(sample_duration(&mut rng, &point), Duration::from_nanos(10));
}

// Operations.

#[derive(Clone, Debug, PartialEq, Eq)]
enum TestOp {
    A,
    B,
    C,
}

#[test]
fn test_uniform_generator_basic() {
    let mut random = XorShift64::new(42);
    let mut generator = UniformGenerator::new(vec![TestOp::A, TestOp::B, TestOp::C]);

    let ops = generate_sequence(&mut generator, &mut random, 30);
    assert_eq!(ops.len(), 30);

    let has_a = ops.iter().any(|op| matches!(op, TestOp::A));
    let has_b = ops.iter().any(|op| matches!(op, TestOp::B));
    let has_c = ops.iter().any(|op| matches!(op, TestOp::C));

    assert!(has_a, "Should generate TestOp::A");
    assert!(has_b, "Should generate TestOp::B");
    assert!(has_c, "Should generate TestOp::C");
}

#[test]
fn test_uniform_generator_distribution() {
    let generator = UniformGenerator::new(vec![TestOp::A, TestOp::B, TestOp::C]);

    let weights = OperationGenerator::<XorShift64>::weight_distribution(&generator);
    assert_eq!(weights.len(), 3);
    for (_, weight) in weights {
        assert!((weight as f64 / 1_000_000.0 - 1.0 / 3.0).abs() < 0.0001);
    }
}

#[test]
fn test_weighted_generator_basic() {
    let mut random = XorShift64::new(42);
    let mut generator = WeightedGenerator::new()
        .with_operation(TestOp::A, 500_000)
        .with_operation(TestOp::B, 300_000)
        .with_operation(TestOp::C, 200_000);

    let ops = generate_sequence(&mut generator, &mut random, 100);
    assert_eq!(ops.len(), 100);

    let count_a = ops.iter().filter(|op| matches!(op, TestOp::A)).count();
    let count_b = ops.iter().filter(|op| matches!(op, TestOp::B)).count();
    let count_c = ops.iter().filter(|op| matches!(op, TestOp::C)).count();

    assert!(
        count_a > 35 && count_a < 65,
        "Expected ~50 A operations, got {}",
        count_a
    );
    assert!(
        count_b > 15 && count_b < 45,
        "Expected ~30 B operations, got {}",
        count_b
    );
    assert!(
        count_c > 5 && count_c < 35,
        "Expected ~20 C operations, got {}",
        count_c
    );
}

#[test]
fn test_weighted_generator_relative_weights() {
    let mut random = XorShift64::new(789);
    let mut generator = WeightedGenerator::new()
        .with_operation(TestOp::A, 2_000_000)
        .with_operation(TestOp::B, 1_000_000);

    let ops = generate_sequence(&mut generator, &mut random, 90);

    let count_a = ops.iter().filter(|op| matches!(op, TestOp::A)).count();
    let count_b = ops.iter().filter(|op| matches!(op, TestOp::B)).count();

    assert!(
        count_a > 45 && count_a < 75,
        "Expected ~60 A operations, got {}",
        count_a
    );
    assert!(
        count_b > 15 && count_b < 45,
        "Expected ~30 B operations, got {}",
        count_b
    );
}

#[test]
fn test_operation_builder() {
    let mut random = XorShift64::new(456);
    let mut builder = OperationBuilder::new(&mut random);

    let val = builder.random_range(0, 100);
    assert!(val < 100);

    let f = builder.random_ratio();
    assert!(f <= RATIO_SCALE);

    let b = builder.random_bool(500_000);
    assert!(b || !b);

    let items = vec![TestOp::A, TestOp::B, TestOp::C];
    let chosen = builder.choose_item(&items);
    assert!(chosen.is_some());
}

#[test]
fn builders_draw_from_the_callers_generator() {
    let mut random = XorShift64::new(456);
    let mut same = XorShift64::new(456);
    let mut builder = OperationBuilder::new(&mut random);
    assert_eq!(builder.random_ratio(), same.random_ratio());
    assert_eq!(builder.random_range(3, 1000), same.random_range(3, 1000));
    assert_eq!(random.random_ratio(), same.random_ratio());
}

#[test]
fn test_operation_builder_choose_empty() {
    let mut random = XorShift64::new(42);
    let mut builder = OperationBuilder::new(&mut random);

    let items: Vec<TestOp> = vec![];
    let chosen = builder.choose_item(&items);
    assert!(chosen.is_none());
}

#[test]
fn test_determinism() {
    let seed = 12345;

    let mut random1 = XorShift64::new(seed);
    let mut gen1 = UniformGenerator::new(vec![TestOp::A, TestOp::B, TestOp::C]);
    let ops1 = generate_sequence(&mut gen1, &mut random1, 20);

    let mut random2 = XorShift64::new(seed);
    let mut gen2 = UniformGenerator::new(vec![TestOp::A, TestOp::B, TestOp::C]);
    let ops2 = generate_sequence(&mut gen2, &mut random2, 20);

    assert_eq!(ops1, ops2, "Same seed should produce identical sequences");
}

#[test]
fn test_uniform_with_operation() {
    let mut random = XorShift64::new(42);
    let mut generator = UniformGenerator::new(vec![TestOp::A])
        .with_operation(TestOp::B)
        .with_operation(TestOp::C);

    let ops = generate_sequence(&mut generator, &mut random, 30);

    let has_a = ops.iter().any(|op| matches!(op, TestOp::A));
    let has_b = ops.iter().any(|op| matches!(op, TestOp::B));
    let has_c = ops.iter().any(|op| matches!(op, TestOp::C));

    assert!(has_a && has_b && has_c);
}

// The runner.

type Work = fn(&mut XorShift64) -> SimulationResult<SimulationMetrics>;

/// Runs a simulation whose workloads end as soon as they are run.
fn run(builder: SimulationBuilder, work: &[Work]) -> SimulationReport {
    let mut run = builder.run(12345);
    while let Some(seed) = run.next(Duration::zero(), false) {
        let mut sim = run.world(seed);
        let mut o = WorkloadOrchestrator::new(work.len());
        loop {
            o.begin_round(&mut sim);
            for w in work {
                let mut random = XorShift64::new(seed);
                o.workload_ended(&mut sim, WorkloadOutcome::Returned(w(&mut random)));
            }
            match o.end_round(&sim) {
                RoundEnd::Finished => break,
                other => panic!("workloads are left: {other:?}"),
            }
        }
        let metrics = o.finish(&mut sim, 1_000_000).expect("the world comes to an end");
        run.record(Duration::from_millis(1), &o.into_results(), metrics);
    }
    run.report(Vec::new(), Vec::new())
}

fn small_work(random: &mut XorShift64) -> SimulationResult<SimulationMetrics> {
    let mut metrics = SimulationMetrics::default();
    metrics.simulated_time = Duration::from_millis(random.random_range(0, 100));
    metrics.events_processed = random.random_range(0, 10);
    Ok(metrics)
}

#[test]
fn test_simulation_builder_basic() {
    let builder = SimulationBuilder::new()
        .register_workload("test_workload".to_string())
        .set_iterations(3)
        .set_debug_seeds(vec![1, 2, 3]);
    let report = run(builder, &[small_work]);

    assert_eq!(report.iterations, 3);
    assert_eq!(report.successful_runs, 3);
    assert_eq!(report.failed_runs, 0);
    assert_eq!(report.success_rate(), 1_000_000);

    assert_eq!(report.seeds_used, vec![1, 2, 3]);
}

fn failing_work(random: &mut XorShift64) -> SimulationResult<SimulationMetrics> {
    let random_num = random.random_range(0, 100);
    if random_num % 2 == 0 {
        Err(SimulationError::InvalidState("Test failure".to_string()))
    } else {
        let mut metrics = SimulationMetrics::default();
        metrics.simulated_time = Duration::from_millis(100);
        metrics.events_processed = 5;
        Ok(metrics)
    }
}

#[test]
fn test_simulation_builder_with_failures() {
    let builder = SimulationBuilder::new()
        .register_workload("failing_workload".to_string())
        .set_iterations(4)
        .set_debug_seeds(vec![1, 2, 5, 6]);
    let report = run(builder, &[failing_work]);

    assert_eq!(report.iterations, 4);
    assert_eq!(report.successful_runs, 2);
    assert_eq!(report.failed_runs, 2);
    assert_eq!(report.success_rate(), 500_000);

    assert_eq!(report.average_simulated_time(), Duration::from_millis(100));
    assert_eq!(report.average_events_processed(), 5_000_000);
    assert_eq!(report.seeds_failing, [2, 6]);
    assert_eq!(
        report.individual_metrics[1],
        Err(SimulationError::InvalidState("One or more workloads failed (seed 2)".to_string()))
    );
}

#[test]
fn reports_give_rates_and_averages() {
    let mut metrics = SimulationMetrics::default();
    metrics.simulated_time = Duration::from_millis(200);
    metrics.events_processed = 10;

    let report = SimulationReport {
        iterations: 2,
        successful_runs: 2,
        failed_runs: 0,
        metrics,
        individual_metrics: vec![],
        seeds_used: vec![1, 2],
        seeds_failing: vec![42],
        assertion_results: Vec::new(),
        assertion_violations: Vec::new(),
    };

    assert_eq!(report.iterations, 2);
    assert_eq!(report.success_rate(), 1_000_000);
    assert_eq!(report.average_simulated_time(), Duration::from_millis(100));
    assert_eq!(report.average_wall_time(), Duration::zero());
    assert_eq!(report.average_events_processed(), 5_000_000);
}

#[test]
fn averages_are_over_all_successful_runs() {
    let mut metrics = SimulationMetrics::default();
    metrics.wall_time = Duration::from_nanos(10);
    metrics.simulated_time = Duration::from_nanos(20);
    metrics.events_processed = 5;
    let report = SimulationReport {
        iterations: 4,
        successful_runs: 3,
        failed_runs: 1,
        metrics,
        individual_metrics: vec![],
        seeds_used: vec![1, 2, 3, 4],
        seeds_failing: vec![4],
        assertion_results: Vec::new(),
        assertion_violations: Vec::new(),
    };
    assert_eq!(report.success_rate(), 750_000);
    assert_eq!(report.average_wall_time(), Duration::from_nanos(3));
    assert_eq!(report.average_simulated_time(), Duration::from_nanos(6));
    assert_eq!(report.average_events_processed(), 1_666_666);
}

fn network_work(_random: &mut XorShift64) -> SimulationResult<SimulationMetrics> {
    let mut metrics = SimulationMetrics::default();
    metrics.simulated_time = Duration::from_millis(50);
    metrics.events_processed = 10;
    Ok(metrics)
}

#[test]
fn test_simulation_builder_with_network_config() {
    let builder = SimulationBuilder::new()
        .register_workload("network_test".to_string())
        .set_iterations(2)
        .set_debug_seeds(vec![42, 43]);
    let report = run(builder, &[network_work]);

    assert_eq!(report.iterations, 2);
    assert_eq!(report.successful_runs, 2);
    assert_eq!(report.failed_runs, 0);
    assert_eq!(report.success_rate(), 1_000_000);

    assert!(Duration::from_millis(50).le(&report.average_simulated_time()));
}

#[test]
fn test_multiple_workloads() {
    let builder = SimulationBuilder::new()
        .register_workload("workload1".to_string())
        .register_workload("workload2".to_string())
        .set_iterations(2)
        .set_debug_seeds(vec![10, 20]);
    let report = run(builder, &[small_work, small_work]);

    assert_eq!(report.successful_runs, 2);
    assert_eq!(report.failed_runs, 0);
    assert_eq!(report.success_rate(), 1_000_000);
}

#[test]
fn without_workloads_there_is_nothing_to_report() {
    let report = run(SimulationBuilder::new().set_iterations(5), &[]);
    assert_eq!(report.iterations, 0);
    assert_eq!(report.success_rate(), 0);
    assert!(report.seeds_used.is_empty());
}

#[test]
fn workloads_get_addresses_in_order() {
    let run = SimulationBuilder::new()
        .register_workload("a".to_string())
        .register_workload("b".to_string())
        .run_until_all_sometimes_reached(3)
        .set_time_limit(Duration::from_secs(1))
        .set_iteration_control(IterationControl::FixedCount(2))
        .run(5);
    let ips: Vec<&str> = run.workloads().iter().map(|w| w.ip_address.as_str()).collect();
    assert_eq!(ips, ["10.0.0.1", "10.0.0.2"]);
}

#[test]
fn a_deadlock_ends_the_simulation() {
    let builder = SimulationBuilder::new()
        .register_workload("stuck".to_string())
        .use_random_config()
        .set_iterations(5)
        .set_debug_seeds(vec![8]);
    let mut run = builder.run(1);
    let seed = run.next(Duration::zero(), false).unwrap();
    let mut sim = run.world(seed);
    let mut o = WorkloadOrchestrator::new(1);
    let mut rounds = 0;
    loop {
        assert!(!o.begin_round(&mut sim));
        rounds += 1;
        match o.end_round(&sim) {
            RoundEnd::Deadlock => break,
            end => assert_eq!(end, RoundEnd::Continue),
        }
    }
    assert_eq!(rounds, 4);
    run.deadlocked();
    let report = run.report(Vec::new(), vec!["broken".to_string()]);
    assert_eq!(report.iterations, 1);
    assert_eq!(report.failed_runs, 1);
    assert_eq!(report.seeds_failing, [8]);
    assert_eq!(report.assertion_violations, ["broken"]);
}

#[test]
fn the_first_success_shuts_the_others_down() {
    let mut sim = SimWorld::new();
    let mut o = WorkloadOrchestrator::new(3);
    o.begin_round(&mut sim);
    assert!(!o.workload_ended(&mut sim, WorkloadOutcome::Panicked));
    assert_eq!(sim.pending_event_count(), 0);
    let ok = SimulationMetrics::default();
    assert!(o.workload_ended(&mut sim, WorkloadOutcome::Returned(Ok(ok))));
    assert_eq!(sim.pending_event_count(), 100);
    assert!(!o.workload_ended(&mut sim, WorkloadOutcome::Returned(Ok(ok))));
    assert_eq!(sim.pending_event_count(), 100);
    assert_eq!(o.end_round(&sim), RoundEnd::Finished);
    let metrics = o.finish(&mut sim, 1000).unwrap();
    assert_eq!(metrics.events_processed, 100);
    assert_eq!(metrics.simulated_time, Duration::from_nanos(99));
    let results = o.into_results();
    assert_eq!(
        results[0],
        Err(SimulationError::InvalidState("Task panicked".to_string()))
    );
    assert_eq!(results[1], Ok(ok));
}

#[test]
fn deadlocks_need_quiet_rounds_in_a_row() {
    let mut d = DeadlockDetector::new(2);
    assert!(!d.check_deadlock(1, 1, 0, 0));
    assert!(!d.check_deadlock(1, 1, 0, 0));
    assert!(!d.check_deadlock(1, 2, 0, 0));
    assert_eq!(d.no_progress_count(), 0);
    assert!(!d.check_deadlock(1, 1, 0, 0));
    assert!(!d.check_deadlock(1, 1, 0, 0));
    assert!(d.check_deadlock(1, 1, 0, 0));
    assert_eq!(d.no_progress_count(), 3);
}

#[test]
fn iterations_follow_their_control() {
    let mut m = IterationManager::new(IterationControl::FixedCount(2), vec![7], 99);
    assert!(m.should_continue(Duration::from_secs(9), true));
    assert_eq!(m.next_iteration(), 7);
    let made = m.next_iteration();
    assert_eq!(m.seeds_used(), [7, made]);
    assert_eq!(m.current_iteration(), 2);
    assert!(!m.should_continue(Duration::zero(), false));

    let mut again = IterationManager::new(IterationControl::FixedCount(2), vec![7], 99);
    again.next_iteration();
    assert_eq!(again.next_iteration(), made);

    let limit = IterationControl::TimeLimit(Duration::from_secs(1));
    let m = IterationManager::new(limit, vec![], 1);
    assert!(m.should_continue(Duration::from_millis(999), false));
    assert!(!m.should_continue(Duration::from_secs(1), false));

    let until = IterationControl::UntilAllSometimesReached(3);
    let mut m = IterationManager::new(until, vec![], 1);
    assert!(m.should_continue(Duration::zero(), true));
    m.next_iteration();
    assert!(!m.should_continue(Duration::zero(), true));
    assert!(m.should_continue(Duration::zero(), false));
}

#[test]
fn made_seeds_are_hashes() {
    let mut m = IterationManager::new(IterationControl::FixedCount(9), vec![], 99);
    for i in 0..3usize {
        let mut hasher = DefaultHasher::new();
        99u64.hash(&mut hasher);
        i.hash(&mut hasher);
        assert_eq!(m.next_iteration(), hasher.finish());
    }
}

#[test]
fn assertions_are_reached_when_each_has_held() {
    let stats = |total_checks, successes| AssertionStats { total_checks, successes };
    let reached = IterationManager::all_sometimes_assertions_reached;
    assert!(!reached(&vec![]));
    assert!(reached(&vec![("a".to_string(), stats(3, 1)), ("b".to_string(), stats(1, 1))]));
    assert!(!reached(&vec![("a".to_string(), stats(0, 0))]));
    assert!(!reached(&vec![("a".to_string(), stats(3, 1)), ("b".to_string(), stats(0, 0))]));
    assert!(!reached(&vec![("a".to_string(), stats(3, 1)), ("b".to_string(), stats(2, 0))]));
}

#[test]
fn collected_metrics_prefer_what_workloads_report() {
    let mut c = MetricsCollector::new();
    let workload = SimulationMetrics {
        wall_time: Duration::zero(),
        simulated_time: Duration::from_secs(1),
        events_processed: 0,
    };
    let world = SimulationMetrics {
        wall_time: Duration::zero(),
        simulated_time: Duration::from_secs(2),
        events_processed: 7,
    };
    c.record_iteration(1, Duration::from_secs(3), &vec![Ok(workload)], world);
    assert_eq!(c.aggregated_metrics.simulated_time, Duration::from_secs(2));
    assert_eq!(c.aggregated_metrics.events_processed, 7);
    assert_eq!(c.aggregated_metrics.wall_time, Duration::from_secs(3));
    assert_eq!(c.current_stats(), (1, 0));
}

#[test]
fn workloads_know_their_peers() {
    let workload = |name: &str, ip: &str| Workload {
        name: name.to_string(),
        ip_address: ip.to_string(),
    };
    let all = vec![
        workload("server", "10.0.0.1"),
        workload("client_a", "10.0.0.2"),
        workload("client_b", "10.0.0.3"),
    ];
    let t = TopologyFactory::create_topology("10.0.0.2", &all);
    assert_eq!(t.my_ip, "10.0.0.2");
    assert_eq!(t.peer_ips, ["10.0.0.1", "10.0.0.3"]);
    assert_eq!(t.peer_names, ["server", "client_b"]);
    assert_eq!(t.get_peer_by_name("server"), Some("10.0.0.1".to_string()));
    assert_eq!(t.get_peer_by_name("client_a"), None);
    assert_eq!(
        t.get_peers_with_prefix("client_"),
        [("client_b".to_string(), "10.0.0.3".to_string())]
    );
    assert_eq!(t.get_peers_with_prefix("").len(), 2);
}
