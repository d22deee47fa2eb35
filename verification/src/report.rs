//! What simulation runs measured.

use crate::error::{SimulationError, SimulationResult, is_invalid_state};
use crate::text::{append_decimal, decimal};
use crate::time::{Duration, max_nanos, plus_nanos};
use vstd::prelude::*;

verus! {

/// How often an assertion was checked and how often it held.
#[derive(Debug, Clone, Copy, PartialEq, Eq, Structural)]
pub struct AssertionStats {
    /// The checks.
    pub total_checks: usize,
    /// The checks that held.
    pub successes: usize,
}

/// What a simulation run measured.
#[derive(Debug, Clone, Copy, PartialEq, Eq, Structural)]
pub struct SimulationMetrics {
    /// The time that passed outside.
    pub wall_time: Duration,
    /// The time that passed in the simulation.
    pub simulated_time: Duration,
    /// The number of events.
    pub events_processed: u64,
}

impl Default for SimulationMetrics {
    /// Nothing measured.
    fn default() -> (m: Self)
        ensures
            m@ == no_metrics(),
    {
        SimulationMetrics {
            wall_time: Duration::zero(),
            simulated_time: Duration::zero(),
            events_processed: 0,
        }
    }
}

/// What [`SimulationMetrics`] say.
pub ghost struct MetricsView {
    pub wall: nat,
    pub simulated: nat,
    pub events: u64,
}

impl View for SimulationMetrics {
    type V = MetricsView;

    open spec fn view(&self) -> MetricsView {
        MetricsView {
            wall: self.wall_time@,
            simulated: self.simulated_time@,
            events: self.events_processed,
        }
    }
}

/// Nothing measured.
pub open spec fn no_metrics() -> MetricsView {
    MetricsView { wall: 0, simulated: 0, events: 0 }
}

/// The sum of two event counts, which starts over after the largest count.
pub open spec fn plus_events(a: u64, b: u64) -> u64 {
    if a + b <= u64::MAX {
        (a + b) as u64
    } else {
        (a + b - 0x1_0000_0000_0000_0000) as u64
    }
}

/// The results of workloads taken together: the longest simulated time and all
/// events of those that succeeded.
pub open spec fn workloads_total(results: Seq<SimulationResult<SimulationMetrics>>) -> MetricsView
    decreases results.len(),
{
    if results.len() == 0 {
        no_metrics()
    } else {
        let before = workloads_total(results.drop_last());
        match results.last() {
            Ok(m) => MetricsView {
                wall: 0,
                simulated: max_nanos(before.simulated, m@.simulated),
                events: plus_events(before.events, m@.events),
            },
            Err(_) => before,
        }
    }
}

/// Whether every workload succeeded.
pub open spec fn all_ok(results: Seq<SimulationResult<SimulationMetrics>>) -> bool {
    forall|i: int| 0 <= i < results.len() ==> #[trigger] results[i] is Ok
}

/// What workloads and world measured together: the longer time, and the events
/// of the world where the workloads report none.
pub open spec fn combined(workloads: MetricsView, world: MetricsView) -> MetricsView {
    MetricsView {
        wall: workloads.wall,
        simulated: max_nanos(workloads.simulated, world.simulated),
        events: if workloads.events == 0 {
            world.events
        } else {
            workloads.events
        },
    }
}

/// The message for a failed iteration.
pub open spec fn failure_text(seed: u64) -> Seq<char> {
    "One or more workloads failed (seed "@ + decimal(seed as int) + ")"@
}

/// Sums up what iterations measured.
pub struct MetricsCollector {
    /// Iterations in which every workload succeeded.
    pub successful_runs: usize,
    /// Iterations in which some workload failed.
    pub failed_runs: usize,
    /// The sums over the successful iterations.
    pub aggregated_metrics: SimulationMetrics,
    /// What each iteration measured.
    pub individual_metrics: Vec<SimulationResult<SimulationMetrics>>,
    /// The seeds of the failed iterations.
    pub faulty_seeds: Vec<u64>,
}

/// A successful iteration was added.
pub open spec fn success_recorded(
    before: MetricsCollector,
    after: MetricsCollector,
    wall: nat,
    metrics: MetricsView,
) -> bool {
    &&& after.successful_runs == before.successful_runs + 1
    &&& after.failed_runs == before.failed_runs
    &&& after.aggregated_metrics@ == (MetricsView {
        wall: plus_nanos(before.aggregated_metrics@.wall, wall),
        simulated: plus_nanos(before.aggregated_metrics@.simulated, metrics.simulated),
        events: plus_events(before.aggregated_metrics@.events, metrics.events),
    })
    &&& after.individual_metrics@.len() == before.individual_metrics@.len() + 1
    &&& after.individual_metrics@.drop_last() == before.individual_metrics@
    &&& after.individual_metrics@.last() is Ok
    &&& after.individual_metrics@.last()->Ok_0@ == metrics
    &&& after.faulty_seeds@ == before.faulty_seeds@
}

/// A failed iteration was added.
pub open spec fn failure_recorded(before: MetricsCollector, after: MetricsCollector, seed: u64) -> bool {
    &&& after.successful_runs == before.successful_runs
    &&& after.failed_runs == before.failed_runs + 1
    &&& after.aggregated_metrics == before.aggregated_metrics
    &&& after.individual_metrics@.len() == before.individual_metrics@.len() + 1
    &&& after.individual_metrics@.drop_last() == before.individual_metrics@
    &&& after.individual_metrics@.last() is Err
    &&& is_invalid_state(after.individual_metrics@.last()->Err_0, failure_text(seed))
    &&& after.faulty_seeds@ == before.faulty_seeds@.push(seed)
}

impl MetricsCollector {
    /// Nothing collected.
    pub fn new() -> (c: Self)
        ensures
            c.successful_runs == 0,
            c.failed_runs == 0,
            c.aggregated_metrics@ == no_metrics(),
            c.individual_metrics@.len() == 0,
            c.faulty_seeds@.len() == 0,
    {
        MetricsCollector {
            successful_runs: 0,
            failed_runs: 0,
            aggregated_metrics: SimulationMetrics::default(),
            individual_metrics: Vec::new(),
            faulty_seeds: Vec::new(),
        }
    }

    /// Adds the results of an iteration.
    pub fn record_iteration(
        &mut self,
        seed: u64,
        wall_time: Duration,
        all_results: &Vec<SimulationResult<SimulationMetrics>>,
        sim_metrics: SimulationMetrics,
    )
        requires
            old(self).successful_runs < usize::MAX,
            old(self).failed_runs < usize::MAX,
        ensures
            iteration_recorded(
                *old(self),
                *final(self),
                seed,
                wall_time@,
                all_results@,
                sim_metrics@,
            ),
    {
        let mut iteration_successful: bool = true;
        let mut total = SimulationMetrics::default();
        let mut i: usize = 0;
        proof {
            assert(all_results@.take(0) =~= Seq::empty());
        }
        while i < all_results.len()
            invariant
                i <= all_results@.len(),
                total@.wall == 0,
                total@ == workloads_total(all_results@.take(i as int)),
                iteration_successful == all_ok(all_results@.take(i as int)),
            decreases all_results@.len() - i,
        {
            proof {
                let next = all_results@.take(i + 1);
                assert(next.drop_last() =~= all_results@.take(i as int));
                assert(next.last() == all_results@[i as int]);
                assert forall|j: int| 0 <= j < i implies next[j] == #[trigger] all_results@.take(
                    i as int,
                )[j] by {}
                assert(all_ok(next) == (all_ok(all_results@.take(i as int))
                    && all_results@[i as int] is Ok)) by {
                    if all_ok(next) {
                        assert forall|j: int| 0 <= j < i implies #[trigger] all_results@.take(
                            i as int,
                        )[j] is Ok by {
                            assert(next[j] is Ok);
                        }
                        assert(next[i as int] is Ok);
                    }
                }
            }
            match &all_results[i] {
                Ok(metrics) => {
                    total.simulated_time = total.simulated_time.max(metrics.simulated_time);
                    total.events_processed = total.events_processed.wrapping_add(
                        metrics.events_processed,
                    );
                },
                Err(_) => {
                    iteration_successful = false;
                },
            }
            i += 1;
        }
        proof {
            assert(all_results@.take(i as int) =~= all_results@);
        }
        let ghost listed = self.individual_metrics@;
        if iteration_successful {
            self.successful_runs += 1;
            if total.simulated_time.lt(&sim_metrics.simulated_time) {
                total.simulated_time = sim_metrics.simulated_time;
            }
            if total.events_processed == 0 && sim_metrics.events_processed > 0 {
                total.events_processed = sim_metrics.events_processed;
            }
            self.aggregated_metrics.wall_time = self.aggregated_metrics.wall_time.saturating_add(
                wall_time,
            );
            self.aggregated_metrics.simulated_time =
                self.aggregated_metrics.simulated_time.saturating_add(total.simulated_time);
            self.aggregated_metrics.events_processed =
                self.aggregated_metrics.events_processed.wrapping_add(total.events_processed);
            self.individual_metrics.push(Ok(total));
        } else {
            self.failed_runs += 1;
            let mut text: String = "One or more workloads failed (seed ".to_owned();
            append_decimal(&mut text, seed);
            text.append(")");
            self.individual_metrics.push(Err(SimulationError::InvalidState(text)));
            self.faulty_seeds.push(seed);
        }
        proof {
            assert(self.individual_metrics@.drop_last() =~= listed);
        }
    }

    /// Adds seeds that failed for another reason.
    pub fn add_faulty_seeds(&mut self, seeds: Vec<u64>)
        ensures
            *final(self) == (MetricsCollector {
                faulty_seeds: final(self).faulty_seeds,
                ..*old(self)
            }),
            final(self).faulty_seeds@ == old(self).faulty_seeds@ + seeds@,
    {
        let mut more = seeds;
        self.faulty_seeds.append(&mut more);
    }

    /// Adds iterations that failed for another reason.
    pub fn add_failed_runs(&mut self, count: usize)
        requires
            old(self).failed_runs + count <= usize::MAX,
        ensures
            *final(self) == (MetricsCollector {
                failed_runs: (old(self).failed_runs + count) as usize,
                ..*old(self)
            }),
    {
        self.failed_runs += count;
    }

    /// The report on what was collected.
    pub fn generate_report(
        self,
        iteration_count: usize,
        seeds_used: Vec<u64>,
        assertion_results: Vec<(String, AssertionStats)>,
        assertion_violations: Vec<String>,
    ) -> (r: SimulationReport)
        ensures
            r == (SimulationReport {
                iterations: iteration_count,
                successful_runs: self.successful_runs,
                failed_runs: self.failed_runs,
                metrics: self.aggregated_metrics,
                individual_metrics: self.individual_metrics,
                seeds_used,
                seeds_failing: self.faulty_seeds,
                assertion_results,
                assertion_violations,
            }),
    {
        SimulationReport {
            iterations: iteration_count,
            successful_runs: self.successful_runs,
            failed_runs: self.failed_runs,
            metrics: self.aggregated_metrics,
            individual_metrics: self.individual_metrics,
            seeds_used,
            seeds_failing: self.faulty_seeds,
            assertion_results,
            assertion_violations,
        }
    }

    /// The numbers of successful and of failed iterations.
    pub fn current_stats(&self) -> (r: (usize, usize))
        ensures
            r == (self.successful_runs, self.failed_runs),
    {
        (self.successful_runs, self.failed_runs)
    }
}

/// What became of a simulation.
#[derive(Debug)]
pub struct SimulationReport {
    /// The number of iterations.
    pub iterations: usize,
    /// The number of successful iterations.
    pub successful_runs: usize,
    /// The number of failed iterations.
    pub failed_runs: usize,
    /// The sums over the successful iterations.
    pub metrics: SimulationMetrics,
    /// What each iteration measured.
    pub individual_metrics: Vec<SimulationResult<SimulationMetrics>>,
    /// The seeds of the iterations.
    pub seeds_used: Vec<u64>,
    /// The seeds of the failed iterations.
    pub seeds_failing: Vec<u64>,
    /// The assertions that were checked.
    pub assertion_results: Vec<(String, AssertionStats)>,
    /// The assertions whose contract was broken.
    pub assertion_violations: Vec<String>,
}

/// An iteration with some results was added.
pub open spec fn iteration_recorded(
    before: MetricsCollector,
    after: MetricsCollector,
    seed: u64,
    wall: nat,
    results: Seq<SimulationResult<SimulationMetrics>>,
    world: MetricsView,
) -> bool {
    if all_ok(results) {
        success_recorded(before, after, wall, combined(workloads_total(results), world))
    } else {
        failure_recorded(before, after, seed)
    }
}

/// An equal share of `total` among `runs`, nothing where there are none.
pub open spec fn share(total: nat, runs: nat) -> nat {
    if runs == 0 {
        0
    } else {
        total / runs
    }
}

impl SimulationReport {
    /// How many of a million iterations succeed at the rate of this report.
    pub fn success_rate(&self) -> (ppm: u128)
        ensures
            ppm == share(self.successful_runs as nat * 1_000_000, self.iterations as nat),
    {
        if self.iterations == 0 {
            0
        } else {
            (self.successful_runs as u128 * 1_000_000) / (self.iterations as u128)
        }
    }

    /// The time outside that a successful iteration took on average.
    pub fn average_wall_time(&self) -> (d: Duration)
        ensures
            d@ == share(self.metrics@.wall, self.successful_runs as nat),
    {
        if self.successful_runs == 0 {
            Duration::zero()
        } else {
            self.metrics.wall_time.div(self.successful_runs as u64)
        }
    }

    /// The simulated time that a successful iteration took on average.
    pub fn average_simulated_time(&self) -> (d: Duration)
        ensures
            d@ == share(self.metrics@.simulated, self.successful_runs as nat),
    {
        if self.successful_runs == 0 {
            Duration::zero()
        } else {
            self.metrics.simulated_time.div(self.successful_runs as u64)
        }
    }

    /// The events of a million successful iterations at the average of this report.
    pub fn average_events_processed(&self) -> (millionths: u128)
        ensures
            millionths == share(
                self.metrics.events_processed as nat * 1_000_000,
                self.successful_runs as nat,
            ),
    {
        if self.successful_runs == 0 {
            0
        } else {
            (self.metrics.events_processed as u128 * 1_000_000) / (self.successful_runs as u128)
        }
    }
}

/// Failed workloads leave no trace in the totals: only successes count.
pub proof fn lemma_failures_do_not_count(
    results: Seq<SimulationResult<SimulationMetrics>>,
    error: SimulationError,
)
    ensures
        workloads_total(results.push(Err(error))) == workloads_total(results),
        !all_ok(results.push(Err(error))),
{
    let more = results.push(Err::<SimulationMetrics, SimulationError>(error));
    assert(more.drop_last() =~= results);
    assert(!(more[results.len() as int] is Ok));
}

} // verus!
