//! What runs, reports and generated operations are good for.

use crate::adaptive::{
    Scenario, ScenarioRun, ScenarioStepView, scenario_fault, scenario_stepped,
};
use crate::config::{
    NetworkConfiguration, chaos_ranges, is_drawn_network, latency_ranges, range_draws_chaos,
};
use crate::context::ExplorerView;
use crate::error::SimulationResult;
use crate::events::EventView;
use crate::explorer::{exploring, next_seed};
use crate::latency::{is_queued, lemma_event_is_queued};
use crate::operation_gen::{OperationGenerator, drawn_sequence, weight_sum, weighted_pick};
use crate::orchestrator::{
    IterationControl, IterationsView, OrchestratorView, WorkloadOutcome, asks_shutdown, goes_on,
    is_quiet, is_result_of, iterations_started, seed_of, shutdown_scheduled, wakes_scheduled,
    workload_taken,
};
use crate::random::{RandomProvider, range_draws};
use crate::report::{
    MetricsCollector, MetricsView, SimulationMetrics, all_ok, combined, iteration_recorded, share,
    workloads_total,
};
use crate::shared_stats::ExplorationStats;
use crate::split_config::{ExplorationConfig, Parallelism, parallel_slots};
use crate::time::MAX_NANOS;
use crate::topology::{Workload, elsewhere, named_like, workload_views};
use crate::world::{WorldView, event_scheduled, ran, stepped};
use crate::xorshift::{XorShift64, advanced, xorshift};
use vstd::prelude::*;

verus! {

/// A simulation of a fixed number of iterations runs exactly so many. One with a time limit
/// goes on while it is not reached. One that runs until all assertions were reached ends after
/// the first iteration by which they were, or after the most iterations.
pub proof fn lemma_simulations_end(
    control: IterationControl,
    seeds: Seq<u64>,
    base_seed: u64,
    k: nat,
    elapsed: nat,
    all_reached: bool,
)
    ensures
        ({
            let start = IterationsView { control, seeds, base_seed, count: 0 };
            let v = iterations_started(start, k);
            let more = goes_on(v, elapsed, all_reached);
            &&& control matches IterationControl::FixedCount(n) ==> (more <==> k < n)
            &&& control matches IterationControl::TimeLimit(d) ==> (more <==> elapsed < d@)
            &&& control matches IterationControl::UntilAllSometimesReached(n) ==> (more <==> k < n
                && (k == 0 || !all_reached))
            &&& k < seeds.len() ==> seed_of(v, k) == seeds[k as int]
        }),
{
    crate::orchestrator::lemma_seeds_are_reproducible(control, seeds, base_seed, k);
    lemma_control_stays(IterationsView { control, seeds, base_seed, count: 0 }, k);
    let start = IterationsView { control, seeds, base_seed, count: 0 };
    let v = iterations_started(start, k);
    if k < seeds.len() {
        assert(v.seeds[k as int] == seed_of(start, k));
    }
}

proof fn lemma_control_stays(v: IterationsView, n: nat)
    ensures
        iterations_started(v, n).control == v.control,
    decreases n,
{
    if n > 0 {
        lemma_control_stays(v, (n - 1) as nat);
    }
}

/// A round makes no progress exactly where no workload ended in it and there was no event
/// before it and is none after it.
pub proof fn lemma_quiet_rounds_do_nothing(
    handles: nat,
    initial_handles: nat,
    events: nat,
    initial_events: nat,
)
    ensures
        is_quiet(handles, initial_handles, events, initial_events) <==> handles == initial_handles
            && events == 0 && initial_events == 0,
{
}

/// A run of at most `limit` events either ends, or takes that many steps. It ends with no
/// events left but such as only maintain the network, and it ends at once where there are none.
pub proof fn lemma_runs_go_to_their_end<R: RandomProvider>(w: WorldView<R>, limit: nat)
    ensures
        ran(w, limit).1 ==> crate::events::only_infrastructure(ran(w, limit).0.queue),
        w.queue.len() == 0 && limit > 0 ==> ran(w, limit) == (w, true),
        limit == 0 ==> ran(w, limit) == (w, false),
        limit > 0 && stepped(w).queue.len() == 0 ==> ran(w, limit) == (stepped(w), true),
        limit > 0 && stepped(w).queue.len() > 0 && stepped(w).events_processed % 50 != 0 ==> ran(
            w,
            limit,
        ) == ran(stepped(w), (limit - 1) as nat),
        limit > 0 && !crate::events::only_infrastructure(stepped(w).queue) ==> ran(w, limit) == ran(
            stepped(w),
            (limit - 1) as nat,
        ),
    decreases limit,
{
    if limit > 0 {
        lemma_runs_go_to_their_end(stepped(w), (limit - 1) as nat);
    }
}

/// When the first workload has succeeded a shutdown is due after a nanosecond, which wakes
/// all that sleep or read, and timers follow it, one each nanosecond.
pub proof fn lemma_shutdowns_are_scheduled<R: RandomProvider>(w: WorldView<R>, k: nat)
    requires
        w.now + 99 <= MAX_NANOS,
        1 <= k <= 99,
    ensures
        is_queued(shutdown_scheduled(w).queue, w.now + 1, EventView::Shutdown),
        is_queued(
            shutdown_scheduled(w).queue,
            w.now + k,
            EventView::Timer { task_id: (u64::MAX - k) as u64 },
        ),
        shutdown_scheduled(w).queue.len() == w.queue.len() + 100,
        shutdown_scheduled(w).net == w.net,
{
    let w1 = event_scheduled(w, w.now + 1, EventView::Shutdown);
    lemma_event_is_queued(w, w.now + 1, EventView::Shutdown);
    lemma_wakes_are_queued(w1, 99, k);
    assert(shutdown_scheduled(w) == wakes_scheduled(w1, 99));
}

proof fn lemma_wakes_are_queued<R>(w: WorldView<R>, n: nat, k: nat)
    requires
        w.now + n <= MAX_NANOS,
        k >= 1,
    ensures
        1 <= k <= n ==> is_queued(
            wakes_scheduled(w, n).queue,
            w.now + k,
            EventView::Timer { task_id: (u64::MAX - k) as u64 },
        ),
        wakes_scheduled(w, n).queue.len() == w.queue.len() + n,
        wakes_scheduled(w, n).now == w.now,
        wakes_scheduled(w, n).net == w.net,
        forall|t: nat, e: EventView|
            is_queued(w.queue, t, e) ==> is_queued(wakes_scheduled(w, n).queue, t, e),
    decreases n,
{
    if n > 0 {
        lemma_wakes_are_queued(w, (n - 1) as nat, k);
        lemma_event_is_queued(
            wakes_scheduled(w, (n - 1) as nat),
            w.now + n,
            EventView::Timer { task_id: (u64::MAX - n) as u64 },
        );
    }
}

/// The events of the workloads that succeeded, all together.
pub open spec fn all_events(results: Seq<SimulationResult<SimulationMetrics>>) -> nat
    decreases results.len(),
{
    if results.len() == 0 {
        0
    } else {
        all_events(results.drop_last()) + match results.last() {
            Ok(m) => m.events_processed as nat,
            Err(_) => 0,
        }
    }
}

/// The results of workloads taken together are the longest simulated time of those that
/// succeeded, and all their events; without a success, nothing.
pub proof fn lemma_workloads_add_up(results: Seq<SimulationResult<SimulationMetrics>>)
    requires
        all_events(results) <= u64::MAX,
    ensures
        workloads_total(results).events == all_events(results),
        forall|i: int|
            0 <= i < results.len() && (#[trigger] results[i]) is Ok
                ==> results[i]->Ok_0@.simulated <= workloads_total(results).simulated,
        workloads_total(results).simulated == 0 || exists|i: int|
            0 <= i < results.len() && (#[trigger] results[i]) is Ok && results[i]->Ok_0@.simulated
                == workloads_total(results).simulated,
        workloads_total(results).wall == 0,
    decreases results.len(),
{
    if results.len() > 0 {
        let t = results.drop_last();
        lemma_workloads_add_up(t);
        assert forall|i: int|
            0 <= i < results.len() && (#[trigger] results[i]) is Ok implies
            results[i]->Ok_0@.simulated <= workloads_total(results).simulated by {
            if i < t.len() {
                assert(t[i] == results[i]);
            }
        }
        if workloads_total(results).simulated != 0 {
            if workloads_total(results).simulated == workloads_total(t).simulated {
                let i = choose|i: int|
                    0 <= i < t.len() && (#[trigger] t[i]) is Ok && t[i]->Ok_0@.simulated
                        == workloads_total(t).simulated;
                assert(results[i] == t[i]);
            } else {
                assert(results[results.len() - 1] is Ok);
            }
        }
    }
}

/// An iteration takes as long as the longer of what its workloads and its world measured, and
/// has the events that the workloads report, or those of the world where they report none.
pub proof fn lemma_measures_are_combined(
    workloads: MetricsView,
    world: MetricsView,
)
    ensures
        combined(workloads, world).simulated >= workloads.simulated,
        combined(workloads, world).simulated >= world.simulated,
        combined(workloads, world).simulated == workloads.simulated || combined(
            workloads,
            world,
        ).simulated == world.simulated,
        workloads.events > 0 ==> combined(workloads, world).events == workloads.events,
        workloads.events == 0 ==> combined(workloads, world).events == world.events,
{
}

/// A share is the largest number that, taken as often as there are runs, is no more than the
/// total.
pub proof fn lemma_shares_are_equal(total: nat, runs: nat)
    requires
        runs > 0,
    ensures
        share(total, runs) * runs <= total,
        total < (share(total, runs) + 1) * runs,
        share(total, 0) == 0,
{
    vstd::arithmetic::div_mod::lemma_fundamental_div_mod(total as int, runs as int);
    vstd::arithmetic::div_mod::lemma_mod_bound(total as int, runs as int);
    let q: int = share(total, runs) as int;
    assert(q * runs <= total && total < (q + 1) * runs) by (nonlinear_arith)
        requires
            total == runs * q + total as int % runs as int,
            0 <= total as int % runs as int,
            (total as int % runs as int) < runs,
    ;
}

/// Of weighted operations the one is chosen whose part of the weights the drawn ratio falls
/// into: the weights before it are less than that ratio of all weights, and with its own they are
/// not. So no operation is chosen for a ratio that belongs to another.
pub proof fn lemma_weights_decide(weights: Seq<u32>, ratio: u64)
    requires
        weights.len() > 0,
        ratio < 9_007_199_254_740_992,
    ensures
        ({
            let i = weighted_pick(weights, ratio, 0);
            let all = weight_sum(weights, weights.len() as int);
            &&& 0 <= i < weights.len()
            &&& ratio * all <= weight_sum(weights, i + 1) * 9_007_199_254_740_992
            &&& i > 0 ==> weight_sum(weights, i) * 9_007_199_254_740_992 < ratio * all
            &&& weight_sum(weights, i + 1) == weight_sum(weights, i) + weights[i]
        }),
{
    let all = weight_sum(weights, weights.len() as int);
    lemma_sum_not_negative(weights, weights.len() as int);
    assert(ratio * all <= all * 9_007_199_254_740_992) by (nonlinear_arith)
        requires
            ratio < 9_007_199_254_740_992,
            all >= 0,
    ;
    lemma_picked_from(weights, ratio, 0);
}

proof fn lemma_sum_not_negative(weights: Seq<u32>, n: int)
    ensures
        weight_sum(weights, n) >= 0,
    decreases n,
{
    if n > 0 {
        lemma_sum_not_negative(weights, n - 1);
    }
}

proof fn lemma_picked_from(weights: Seq<u32>, ratio: u64, from: int)
    requires
        0 <= from < weights.len(),
        ratio * weight_sum(weights, weights.len() as int) <= weight_sum(
            weights,
            weights.len() as int,
        ) * 9_007_199_254_740_992,
        from > 0 ==> weight_sum(weights, from) * 9_007_199_254_740_992 < ratio * weight_sum(
            weights,
            weights.len() as int,
        ),
    ensures
        ({
            let i = weighted_pick(weights, ratio, from);
            let all = weight_sum(weights, weights.len() as int);
            &&& from <= i < weights.len()
            &&& ratio * all <= weight_sum(weights, i + 1) * 9_007_199_254_740_992
            &&& i > 0 ==> weight_sum(weights, i) * 9_007_199_254_740_992 < ratio * all
        }),
    decreases weights.len() - from,
{
    if !crate::operation_gen::within(weights, ratio, from) {
        if from + 1 < weights.len() {
            lemma_picked_from(weights, ratio, from + 1);
        }
    }
}

/// The peers of a workload are just the workloads at other addresses; and those with a name
/// like some prefix just the ones whose names begin with it.
pub proof fn lemma_peers_are_the_others(
    w: Seq<Workload>,
    ip: Seq<char>,
    prefix: Seq<char>,
    p: (Seq<char>, Seq<char>),
)
    ensures
        workload_views(w).filter(elsewhere(ip)).contains(p) <==> workload_views(w).contains(p) && p.1
            != ip,
        workload_views(w).filter(named_like(prefix)).contains(p) <==> workload_views(w).contains(p)
            && prefix.len() <= p.0.len() && p.0.take(prefix.len() as int) == prefix,
{
    let s = workload_views(w);
    let apart = elsewhere(ip);
    lemma_filter_keeps_just(s, apart, p);
    let alike = named_like(prefix);
    lemma_filter_keeps_just(s, alike, p);
    if alike(p) {
        assert(p.0.take(prefix.len() as int) =~= prefix);
    }
    if prefix.len() <= p.0.len() && p.0.take(prefix.len() as int) == prefix {
        assert(prefix =~= p.0.subrange(0, prefix.len() as int));
    }
}

/// A filter keeps just what passes it.
proof fn lemma_filter_keeps_just<A>(s: Seq<A>, f: spec_fn(A) -> bool, a: A)
    ensures
        s.filter(f).contains(a) <==> s.contains(a) && f(a),
{
    if s.filter(f).contains(a) {
        s.lemma_filter_contains_rev(f, a);
        let i = choose|i: int| 0 <= i < s.filter(f).len() && s.filter(f)[i] == a;
        s.lemma_filter_pred(f, i);
    }
    if s.contains(a) && f(a) {
        let i = choose|i: int| 0 <= i < s.len() && s[i] == a;
        s.lemma_filter_contains(f, i);
    }
}

/// Numbers that are drawn from ranges, one after the other, lie in them.
pub proof fn lemma_draws_lie_in_their_ranges<R: RandomProvider>(rng: R, ranges: Seq<(u64, u64)>)
    requires
        forall|i: int| 0 <= i < ranges.len() ==> (#[trigger] ranges[i]).0 < ranges[i].1,
    ensures
        range_draws(rng, ranges).0.len() == ranges.len(),
        forall|i: int|
            0 <= i < ranges.len() ==> (#[trigger] ranges[i]).0 <= range_draws(rng, ranges).0[i]
                < ranges[i].1,
    decreases ranges.len(),
{
    if ranges.len() > 0 {
        let t = ranges.drop_last();
        assert forall|i: int| 0 <= i < t.len() implies (#[trigger] t[i]).0 < t[i].1 by {
            assert(t[i] == ranges[i]);
        }
        lemma_draws_lie_in_their_ranges(rng, t);
        let (before, state) = range_draws(rng, t);
        let last = ranges[ranges.len() - 1];
        state.lemma_draws(last.0, last.1);
        assert forall|i: int| 0 <= i < ranges.len() implies (#[trigger] ranges[i]).0 <= range_draws(
            rng,
            ranges,
        ).0[i] < ranges[i].1 by {
            if i < t.len() {
                assert(t[i] == ranges[i]);
            }
        }
    }
}

/// A network that is set up at random has latencies and faults as they may occur: each within
/// its bounds.
pub proof fn lemma_random_networks_are_within_bounds<R: RandomProvider>(
    c: NetworkConfiguration,
    rng: R,
)
    requires
        is_drawn_network(c, rng),
    ensures
        10_000 <= c.bind_latency.start@ < 200_000,
        50_000 <= c.bind_latency.end@ < 300_000,
        1_000_000 <= c.accept_latency.start@ < 10_000_000,
        5_000_000 <= c.accept_latency.end@ < 15_000_000,
        1_000_000 <= c.connect_latency.start@ < 50_000_000,
        10_000_000 <= c.connect_latency.end@ < 100_000_000,
        5_000 <= c.read_latency.start@ < 100_000,
        50_000 <= c.read_latency.end@ < 200_000,
        50_000 <= c.write_latency.start@ < 1_000_000,
        200_000 <= c.write_latency.end@ < 2_000_000,
        c.chaos.clog_probability < 200_000,
        50_000_000 <= c.chaos.clog_duration.start@ < 300_000_000,
        100_000_000 <= c.chaos.clog_duration.end@ < 500_000_000,
        c.chaos.partition_probability < 150_000,
        100_000_000 <= c.chaos.partition_duration.start@ < 1_000_000_000,
        500_000_000 <= c.chaos.partition_duration.end@ < 3_000_000_000,
        10 <= c.chaos.bit_flip_probability < 200,
        100 <= c.chaos.partial_write_max_bytes < 2_000,
        1 <= c.chaos.random_close_probability < 100,
        200_000 <= c.chaos.random_close_explicit_ratio < 400_000,
        c.chaos.clock_drift_enabled && c.chaos.buggified_delay_enabled,
        200_000 <= c.chaos.buggified_delay_probability < 300_000,
        400_000 <= c.chaos.connect_failure_probability < 600_000,
{
    let ranges = latency_ranges();
    assert forall|i: int| 0 <= i < ranges.len() implies (#[trigger] ranges[i]).0 < ranges[i].1 by {}
    lemma_draws_lie_in_their_ranges(rng, ranges);
    let (d, after) = range_draws(rng, ranges);
    assert(ranges[0].0 <= d[0] < ranges[0].1);
    assert(ranges[1].0 <= d[1] < ranges[1].1);
    assert(ranges[2].0 <= d[2] < ranges[2].1);
    assert(ranges[3].0 <= d[3] < ranges[3].1);
    assert(ranges[4].0 <= d[4] < ranges[4].1);
    assert(ranges[5].0 <= d[5] < ranges[5].1);
    assert(ranges[6].0 <= d[6] < ranges[6].1);
    assert(ranges[7].0 <= d[7] < ranges[7].1);
    assert(ranges[8].0 <= d[8] < ranges[8].1);
    assert(ranges[9].0 <= d[9] < ranges[9].1);
    let faults = chaos_ranges();
    assert forall|i: int| 0 <= i < faults.len() implies (#[trigger] faults[i]).0 < faults[i].1 by {}
    lemma_draws_lie_in_their_ranges(after, faults);
    let e = range_draws_chaos(after).0;
    assert(faults[0].0 <= e[0] < faults[0].1);
    assert(faults[1].0 <= e[1] < faults[1].1);
    assert(faults[2].0 <= e[2] < faults[2].1);
    assert(faults[3].0 <= e[3] < faults[3].1);
    assert(faults[4].0 <= e[4] < faults[4].1);
    assert(faults[5].0 <= e[5] < faults[5].1);
    assert(faults[6].0 <= e[6] < faults[6].1);
    assert(faults[8].0 <= e[8] < faults[8].1);
    assert(faults[9].0 <= e[9] < faults[9].1);
    assert(faults[11].0 <= e[11] < faults[11].1);
    assert(faults[14].0 <= e[14] < faults[14].1);
    assert(faults[16].0 <= e[16] < faults[16].1);
}

/// An exploration starts with its settings: active, at no depth, with all its energy, and with
/// nothing counted or covered. For the next seed it starts so again, with the energy of that
/// seed, and knows what was explored.
pub proof fn lemma_explorations_start_with_their_energy(
    e: ExplorerView,
    config: ExplorationConfig,
    energy: i64,
)
    ensures
        ({
            let x = exploring(e, config);
            &&& x.ctx.active && !x.ctx.is_child && x.ctx.depth == 0
            &&& x.ctx.max_depth == config.max_depth
            &&& x.ctx.timelines_per_split == config.timelines_per_split
            &&& x.stats is Some && x.stats->0.global_energy == config.global_energy
            &&& x.stats->0.total_timelines == 0 && x.stats->0.bug_found == 0
            &&& x.explored == Some(Set::<int>::empty())
            &&& x.recipe is Some && !x.recipe->0.claimed
            &&& x.energy is Some <==> config.adaptive is Some
            &&& config.adaptive matches Some(a) ==> x.energy->0.global_remaining
                == config.global_energy && x.energy->0.per_mark_initial == a.per_mark_energy
            &&& x.assertions is Some
        }),
        ({
            let x = next_seed(e, energy);
            &&& e.stats is Some ==> x.stats is Some && x.stats->0.global_energy == energy
                && x.stats->0.bug_found == 0
            &&& e.energy matches Some(b) ==> x.energy is Some && x.energy->0.global_remaining
                == energy && x.energy->0.per_mark_initial == b.per_mark_initial
                && x.energy->0.realloc_pool == 0
            &&& x.explored == e.explored
            &&& e.bitmap is Some ==> x.bitmap == Some(Set::<int>::empty())
            &&& e.recipe is Some ==> x.recipe is Some && !x.recipe->0.claimed
            &&& x.ctx.depth == 0 && !x.ctx.is_child && x.ctx.warm_start
            &&& x.ctx.active == e.ctx.active
        }),
{
}

/// As many timelines run at a time as there are processors, half of them, a given number, or
/// all but some; and always at least one.
pub proof fn lemma_timelines_fit_the_processors(p: Parallelism, n: nat)
    ensures
        parallel_slots(p, n) >= 1,
        p == Parallelism::MaxCores && n >= 1 ==> parallel_slots(p, n) == n,
        p == Parallelism::HalfCores && n >= 1 ==> 2 * parallel_slots(p, n) == n || 2
            * parallel_slots(p, n) == n + 1,
        p matches Parallelism::Cores(c) ==> c >= 1 ==> parallel_slots(p, n) == c,
        p matches Parallelism::MaxCoresMinus(m) ==> n > m ==> parallel_slots(p, n) == n - m,
        p matches Parallelism::MaxCoresMinus(m) ==> n <= m ==> parallel_slots(p, n) == 1,
{
}

/// An iteration fails where one of its workloads does: that is counted, and its seed is kept,
/// and nothing that it measured goes into the totals. Else it succeeds: that is counted, and
/// the time that it took, the longest that was simulated in it and its events are added to the
/// totals. Results of iterations before it stay.
pub proof fn lemma_iterations_are_recorded(
    before: MetricsCollector,
    after: MetricsCollector,
    seed: u64,
    wall: nat,
    results: Seq<SimulationResult<SimulationMetrics>>,
    world: MetricsView,
    i: int,
)
    requires
        iteration_recorded(before, after, seed, wall, results, world),
    ensures
        after.individual_metrics@.len() == before.individual_metrics@.len() + 1,
        forall|k: int|
            0 <= k < before.individual_metrics@.len() ==> (#[trigger] after.individual_metrics@[k])
                == before.individual_metrics@[k],
        after.successful_runs + after.failed_runs == before.successful_runs + before.failed_runs + 1,
        0 <= i < results.len() && results[i] is Err ==> {
            &&& after.failed_runs == before.failed_runs + 1
            &&& after.faulty_seeds@.len() == before.faulty_seeds@.len() + 1
            &&& after.faulty_seeds@.last() == seed
            &&& after.aggregated_metrics == before.aggregated_metrics
            &&& after.individual_metrics@.last() is Err
        },
        (forall|k: int| 0 <= k < results.len() ==> #[trigger] results[k] is Ok) ==> {
            &&& after.successful_runs == before.successful_runs + 1
            &&& after.faulty_seeds@ == before.faulty_seeds@
            &&& before.aggregated_metrics@.wall + wall <= MAX_NANOS
                ==> after.aggregated_metrics@.wall == before.aggregated_metrics@.wall + wall
            &&& before.aggregated_metrics@.simulated + world.simulated <= MAX_NANOS
                ==> after.aggregated_metrics@.simulated >= before.aggregated_metrics@.simulated
                + world.simulated
            &&& results.len() == 0 && before.aggregated_metrics@.events + world.events <= u64::MAX
                ==> after.aggregated_metrics@.events == before.aggregated_metrics@.events
                + world.events
            &&& 0 < all_events(results) <= u64::MAX && before.aggregated_metrics@.events
                + all_events(results) <= u64::MAX ==> after.aggregated_metrics@.events
                == before.aggregated_metrics@.events + all_events(results)
        },
{
    let kept = after.individual_metrics@.drop_last();
    assert forall|k: int| 0 <= k < before.individual_metrics@.len() implies (
    #[trigger] after.individual_metrics@[k]) == before.individual_metrics@[k] by {
        assert(kept[k] == after.individual_metrics@[k]);
    }
    if 0 <= i < results.len() && results[i] is Err {
        assert(!all_ok(results));
    }
    if all_events(results) <= u64::MAX {
        lemma_workloads_add_up(results);
    }
    if results.len() == 0 {
        assert(workloads_total(results).events == 0);
    }
}

/// The first workload that succeeds shuts the others down, and no other does. Each that ends
/// is one less that runs, and its result is kept after those before it: an error where it
/// panicked.
pub proof fn lemma_first_success_shuts_down(
    v: OrchestratorView,
    result: SimulationResult<SimulationMetrics>,
    outcome: WorkloadOutcome,
    later: WorkloadOutcome,
)
    requires
        v.remaining > 0,
        is_result_of(result, outcome),
    ensures
        ({
            let w = workload_taken(v, result, outcome);
            &&& w.remaining + 1 == v.remaining
            &&& w.results.len() == v.results.len() + 1
            &&& w.results.last() == result
            &&& w.results.take(v.results.len() as int) == v.results
            &&& outcome is Panicked ==> result is Err && !asks_shutdown(v, outcome) && w.shut_down
                == v.shut_down
            &&& outcome matches WorkloadOutcome::Returned(r) ==> {
                &&& result == r
                &&& asks_shutdown(v, outcome) <==> r is Ok && !v.shut_down
                &&& w.shut_down <==> v.shut_down || r is Ok
            }
            &&& asks_shutdown(v, outcome) ==> !asks_shutdown(w, later)
        }),
{
    let w = workload_taken(v, result, outcome);
    assert(w.results.take(v.results.len() as int) =~= v.results);
}

/// A sequence of operations has as many as were asked for, each of those that there are. A
/// longer one begins with the shorter one and goes on where it ended.
pub proof fn lemma_sequences_are_generated_in_turn<G: OperationGenerator<R>, R: RandomProvider>(
    g: G,
    rng: R,
    count: nat,
)
    requires
        g.ready(),
    ensures
        ({
            let (s, g1, rng1) = drawn_sequence(g, rng, count);
            let (more, g2, rng2) = drawn_sequence(g, rng, count + 1);
            &&& s.len() == count
            &&& forall|i: int| 0 <= i < count ==> 0 <= #[trigger] s[i] < g.operations().len()
            &&& g1.ready() && g1.operations() == g.operations()
            &&& more.take(count as int) == s
            &&& more.last() == g1.drawn(rng1).0
            &&& g2 == g1.drawn(rng1).1
            &&& rng2 == g1.drawn(rng1).2
        }),
    decreases count,
{
    let (s, g1, rng1) = drawn_sequence(g, rng, count);
    let more = drawn_sequence(g, rng, count + 1).0;
    if count > 0 {
        lemma_sequences_are_generated_in_turn(g, rng, (count - 1) as nat);
        let (t, g0, rng0) = drawn_sequence(g, rng, (count - 1) as nat);
        g0.lemma_stays_ready(rng0);
        assert forall|i: int| 0 <= i < count implies 0 <= #[trigger] s[i] < g.operations().len() by {
            if i < count - 1 {
                assert(s[i] == t[i]);
            }
        }
    }
    assert(more == s.push(g1.drawn(rng1).0));
    assert(more.take(count as int) =~= s);
}

/// A timeline of the maze passes its entry, and each door after it with three of ten numbers;
/// one of the dungeon passes with one of five. At a door that it does not pass it stops for good.
/// A child ends with the code of a bug exactly where it passed all seven marks of the maze, or
/// all six of the dungeon; the root just ends.
pub proof fn lemma_timelines_end_at_doors(r: ScenarioRun, rng: XorShift64, is_child: bool)
    requires
        r.next_mark < 100,
    ensures
        ({
            let drawn = xorshift(rng.state);
            let (after, rng1, step) = scenario_stepped(r, rng, is_child);
            let marks: int = match r.scenario {
                Scenario::MazeCascade => 7,
                Scenario::DungeonFloors => 6,
                Scenario::EnergyBudget => 3,
            };
            let passes = r.next_mark == 0 || match r.scenario {
                Scenario::MazeCascade => drawn % 10 < 3,
                Scenario::DungeonFloors => drawn % 5 == 0,
                Scenario::EnergyBudget => true,
            };
            &&& step is Mark <==> !r.stopped && r.next_mark < marks && passes
            &&& step is Mark ==> after.next_mark == r.next_mark + 1 && !after.stopped
            &&& step !is Mark ==> after.next_mark == r.next_mark
            &&& r.next_mark < marks && step !is Mark ==> after.stopped
            &&& after.scenario == r.scenario
            &&& step !is Mark && !is_child ==> step is Done
            &&& step !is Mark && is_child ==> step == ScenarioStepView::Exit(
                if r.next_mark >= marks && r.scenario != Scenario::EnergyBudget {
                    42
                } else {
                    0
                },
            )
            &&& step is Mark && r.next_mark > 0 && r.scenario != Scenario::EnergyBudget ==> rng1
                == advanced(rng)
            &&& r.next_mark == 0 || r.stopped ==> rng1 == rng
        }),
{
}

/// A scenario is in order where timelines were split off at some point, and the one on energy
/// where there were no more timelines than its energy and none of it is overdrawn.
pub proof fn lemma_scenarios_are_checked(t: ExplorationStats)
    ensures
        scenario_fault(Scenario::MazeCascade, Some(t)) is None <==> t.total_timelines > 0
            && t.fork_points > 0,
        scenario_fault(Scenario::DungeonFloors, Some(t)) is None <==> t.total_timelines > 0
            && t.fork_points > 0,
        scenario_fault(Scenario::EnergyBudget, Some(t)) is None <==> t.total_timelines <= 8
            && t.global_energy >= 0 && t.realloc_pool_remaining >= 0,
        forall|s: Scenario| scenario_fault(s, None) is Some,
{
}

} // verus!
