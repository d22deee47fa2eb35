//! Simulations of many iterations.

use crate::buggify::{BuggifyView, buggify_init};
use crate::config::{
    NetworkConfiguration, is_default_network, is_drawn_network,
};
use crate::error::SimulationResult;
use crate::orchestrator::{
    IterationControl, IterationManager, IterationsView, goes_on, iteration_started, seed_of,
};
use crate::report::{
    AssertionStats, MetricsCollector, SimulationMetrics, SimulationReport, iteration_recorded,
    no_metrics,
};
use crate::text::{append_decimal, decimal, lemma_decimal_injective};
use crate::time::Duration;
use crate::topology::{Workload, workload_views};
use crate::world::{SimWorld, WorldView, empty_world};
use crate::xorshift::{XorShift64, seeded};
use vstd::prelude::*;

verus! {

/// The probability, in parts per million, that a fault location is active.
pub const ACTIVATION: u32 = 500_000;

/// The probability, in parts per million, that an active fault location fires.
pub const FIRING: u32 = 250_000;

impl SimWorld<XorShift64> {
    /// A world with default settings and the seed zero.
    pub fn new() -> (w: Self)
        ensures
            w.wf(),
            w@ == empty_world(w@.net.config, seeded(0)),
            is_default_network(w@.net.config),
    {
        SimWorld::new_with_seed(0)
    }

    /// A world with default settings and a seed.
    pub fn new_with_seed(seed: u64) -> (w: Self)
        ensures
            w.wf(),
            w@ == empty_world(w@.net.config, seeded(seed)),
            is_default_network(w@.net.config),
    {
        SimWorld::new_with_network_config_and_seed(NetworkConfiguration::default(), seed)
    }

    /// A world with the given settings and the seed zero.
    pub fn new_with_network_config(network_config: NetworkConfiguration) -> (w: Self)
        ensures
            w.wf(),
            w@ == empty_world(network_config, seeded(0)),
    {
        SimWorld::new_with_network_config_and_seed(network_config, 0)
    }

    /// A world with the given settings and seed.
    pub fn new_with_network_config_and_seed(
        network_config: NetworkConfiguration,
        seed: u64,
    ) -> (w: Self)
        ensures
            w.wf(),
            w@ == empty_world(network_config, seeded(seed)),
    {
        SimWorld::new_with_config(network_config, XorShift64::new(seed))
    }
}

impl Default for SimWorld<XorShift64> {
    fn default() -> (w: Self)
        ensures
            w.wf(),
            w@ == empty_world(w@.net.config, seeded(0)),
            is_default_network(w@.net.config),
    {
        SimWorld::new()
    }
}

/// Worlds that are given the same settings and the same seed are the same world.
pub proof fn lemma_same_seed_same_world(config: NetworkConfiguration, seed: u64, a: SimWorld<
    XorShift64,
>, b: SimWorld<XorShift64>)
    requires
        a@ == empty_world(config, seeded(seed)),
        b@ == empty_world(config, seeded(seed)),
    ensures
        forall|limit: nat| #[trigger] crate::world::ran(a@, limit) == crate::world::ran(b@, limit),
{
}

/// The settings of a simulation.
pub struct SimulationBuilder {
    iteration_control: IterationControl,
    workloads: Vec<Workload>,
    seeds: Vec<u64>,
    next_ip: u32,
    use_random_config: bool,
}

/// What a [`SimulationBuilder`] says.
#[verifier::ext_equal]
pub ghost struct BuilderView {
    pub control: IterationControl,
    /// Names and addresses of the workloads.
    pub workloads: Seq<(Seq<char>, Seq<char>)>,
    /// The seeds of the first iterations.
    pub seeds: Seq<u64>,
    /// The last number in the address of the next workload.
    pub next_ip: u32,
    /// Whether the network is set up at random.
    pub random_config: bool,
}

impl View for SimulationBuilder {
    type V = BuilderView;

    closed spec fn view(&self) -> BuilderView {
        BuilderView {
            control: self.iteration_control,
            workloads: workload_views(self.workloads@),
            seeds: self.seeds@,
            next_ip: self.next_ip,
            random_config: self.use_random_config,
        }
    }
}

/// No settings: one iteration without workloads.
pub open spec fn empty_builder() -> BuilderView {
    BuilderView {
        control: IterationControl::FixedCount(1),
        workloads: Seq::empty(),
        seeds: Seq::empty(),
        next_ip: 1,
        random_config: false,
    }
}

/// The address with the last number `n`.
pub open spec fn ip_text(n: u32) -> Seq<char> {
    "10.0.0."@ + decimal(n as int)
}

impl SimulationBuilder {
    /// No settings: one iteration without workloads.
    pub fn new() -> (b: Self)
        ensures
            b@ == empty_builder(),
    {
        let b = SimulationBuilder {
            iteration_control: IterationControl::FixedCount(1),
            workloads: Vec::new(),
            seeds: Vec::new(),
            next_ip: 1,
            use_random_config: false,
        };
        proof {
            assert(b@.workloads =~= Seq::empty());
        }
        b
    }

    /// Registers a workload, which gets the next address.
    pub fn register_workload(self, name: String) -> (b: Self)
        requires
            self@.next_ip < u32::MAX,
        ensures
            b@ == (BuilderView {
                workloads: self@.workloads.push((name@, ip_text(self@.next_ip))),
                next_ip: (self@.next_ip + 1) as u32,
                ..self@
            }),
    {
        let mut b = self;
        let ghost before = b.workloads@;
        let mut ip_address: String = "10.0.0.".to_owned();
        append_decimal(&mut ip_address, b.next_ip as u64);
        b.next_ip = b.next_ip + 1;
        b.workloads.push(Workload { name, ip_address });
        proof {
            assert(workload_views(b.workloads@) =~= workload_views(before).push(
                (name@, ip_text(self.next_ip)),
            ));
        }
        b
    }

    /// Runs a number of iterations.
    pub fn set_iterations(self, iterations: usize) -> (b: Self)
        ensures
            b@ == (BuilderView { control: IterationControl::FixedCount(iterations), ..self@ }),
    {
        let mut b = self;
        b.iteration_control = IterationControl::FixedCount(iterations);
        b
    }

    /// Says how long to run.
    pub fn set_iteration_control(self, control: IterationControl) -> (b: Self)
        ensures
            b@ == (BuilderView { control, ..self@ }),
    {
        let mut b = self;
        b.iteration_control = control;
        b
    }

    /// Runs for a time outside.
    pub fn set_time_limit(self, duration: Duration) -> (b: Self)
        ensures
            b@ == (BuilderView { control: IterationControl::TimeLimit(duration), ..self@ }),
    {
        let mut b = self;
        b.iteration_control = IterationControl::TimeLimit(duration);
        b
    }

    /// Runs until every assertion that was checked has held, and at most
    /// `safety_limit` iterations.
    pub fn run_until_all_sometimes_reached(self, safety_limit: usize) -> (b: Self)
        ensures
            b@ == (BuilderView {
                control: IterationControl::UntilAllSometimesReached(safety_limit),
                ..self@
            }),
    {
        let mut b = self;
        b.iteration_control = IterationControl::UntilAllSometimesReached(safety_limit);
        b
    }

    /// Gives the seeds of the first iterations.
    pub fn set_debug_seeds(self, seeds: Vec<u64>) -> (b: Self)
        ensures
            b@ == (BuilderView { seeds: seeds@, ..self@ }),
    {
        let mut b = self;
        b.seeds = seeds;
        b
    }

    /// Sets up the network at random.
    pub fn use_random_config(self) -> (b: Self)
        ensures
            b@ == (BuilderView { random_config: true, ..self@ }),
    {
        let mut b = self;
        b.use_random_config = true;
        b
    }

    /// Starts the simulation, with the base seed for iterations that were given
    /// none.
    pub fn run(self, base_seed: u64) -> (r: SimulationRun)
        ensures
            r.wf(),
            r.workload_views() == self@.workloads,
            r.random_config() == self@.random_config,
            r.iterations() == (IterationsView {
                control: self@.control,
                seeds: self@.seeds,
                base_seed,
                count: 0,
            }),
            r.collected().successful_runs == 0,
            r.collected().failed_runs == 0,
            r.collected().aggregated_metrics@ == no_metrics(),
            r.collected().individual_metrics@.len() == 0,
            r.collected().faulty_seeds@.len() == 0,
            r.stage() == RunStage::Between,
    {
        let r = SimulationRun {
            workloads: self.workloads,
            use_random_config: self.use_random_config,
            manager: IterationManager::new(self.iteration_control, self.seeds, base_seed),
            collector: MetricsCollector::new(),
            stage: RunStage::Between,
        };
        assert(collects(r.collected(), r.iterations().seeds, 0, false)) by {
            assert(r.collected().faulty_seeds@ =~= Seq::<u64>::empty());
        }
        r
    }
}

impl Default for SimulationBuilder {
    fn default() -> (b: Self)
        ensures
            b@ == empty_builder(),
    {
        SimulationBuilder::new()
    }
}

/// Where a simulation stands.
#[derive(Debug, Clone, Copy, PartialEq, Eq, Structural)]
pub enum RunStage {
    /// No iteration is running.
    Between,
    /// The iteration with this seed is running.
    Running(u64),
    /// The simulation is over.
    Over,
}

/// A simulation that is under way.
pub struct SimulationRun {
    workloads: Vec<Workload>,
    use_random_config: bool,
    manager: IterationManager,
    collector: MetricsCollector,
    stage: RunStage,
}

/// Whether a network was set up as the settings of a simulation say, for a seed.
pub open spec fn is_network_for(config: NetworkConfiguration, random: bool, seed: u64) -> bool {
    if random {
        is_drawn_network(config, seeded(seed))
    } else {
        is_default_network(config)
    }
}

/// The seeds of the iterations that failed, in order.
pub open spec fn failing_seeds(
    seeds: Seq<u64>,
    results: Seq<SimulationResult<SimulationMetrics>>,
) -> Seq<u64>
    decreases results.len(),
{
    if results.len() == 0 {
        Seq::empty()
    } else {
        let before = failing_seeds(seeds, results.drop_last());
        if results.last() is Err {
            before.push(seeds[results.len() - 1])
        } else {
            before
        }
    }
}

/// How many iterations succeeded.
pub open spec fn success_count(results: Seq<SimulationResult<SimulationMetrics>>) -> nat
    decreases results.len(),
{
    if results.len() == 0 {
        0
    } else {
        success_count(results.drop_last()) + if results.last() is Ok {
            1nat
        } else {
            0nat
        }
    }
}

/// What was collected is what iterations gave: a result for each that ended, but for one
/// that came to a deadlock, and the seeds of those that failed.
pub open spec fn collects(c: MetricsCollector, seeds: Seq<u64>, ended: nat, deadlock: bool) -> bool {
    let results = c.individual_metrics@;
    &&& results.len() == (if deadlock {
        ended - 1
    } else {
        ended as int
    })
    &&& c.successful_runs == success_count(results)
    &&& c.failed_runs == ended - c.successful_runs
    &&& c.faulty_seeds@ == (if deadlock {
        failing_seeds(seeds, results).push(seeds[ended - 1])
    } else {
        failing_seeds(seeds, results)
    })
}

proof fn lemma_failing_seeds_stay(
    seeds: Seq<u64>,
    more: u64,
    results: Seq<SimulationResult<SimulationMetrics>>,
)
    requires
        results.len() <= seeds.len(),
    ensures
        failing_seeds(seeds.push(more), results) == failing_seeds(seeds, results),
    decreases results.len(),
{
    if results.len() > 0 {
        lemma_failing_seeds_stay(seeds, more, results.drop_last());
    }
}

proof fn lemma_success_count(results: Seq<SimulationResult<SimulationMetrics>>)
    ensures
        success_count(results) <= results.len(),
    decreases results.len(),
{
    if results.len() > 0 {
        lemma_success_count(results.drop_last());
    }
}

impl SimulationRun {
    /// Names and addresses of the workloads.
    pub closed spec fn workload_views(&self) -> Seq<(Seq<char>, Seq<char>)> {
        workload_views(self.workloads@)
    }

    /// Whether networks are set up at random.
    pub closed spec fn random_config(&self) -> bool {
        self.use_random_config
    }

    /// The iterations so far.
    pub closed spec fn iterations(&self) -> IterationsView {
        self.manager@
    }

    /// What was collected so far.
    pub closed spec fn collected(&self) -> MetricsCollector {
        self.collector
    }

    /// Where the simulation stands.
    pub closed spec fn stage(&self) -> RunStage {
        self.stage
    }

    /// How many iterations have ended.
    pub open spec fn ended(&self) -> int {
        self.iterations().count - if self.stage() is Running {
            1int
        } else {
            0int
        }
    }

    /// Every iteration that ended has succeeded or failed: its result is kept, unless it
    /// came to a deadlock and ended the simulation, and its seed is kept where it failed.
    /// One that is running is not counted yet.
    pub open spec fn wf(&self) -> bool {
        &&& self.iterations().count <= self.iterations().seeds.len()
        &&& self.iterations().count <= usize::MAX
        &&& self.ended() >= 0
        &&& self.stage() matches RunStage::Running(seed) ==> seed
            == self.iterations().seeds[self.iterations().count - 1]
        &&& collects(self.collected(), self.iterations().seeds, self.ended() as nat, false) || (
        self.stage() is Over && self.ended() > 0 && collects(
            self.collected(),
            self.iterations().seeds,
            self.ended() as nat,
            true,
        ))
    }

    /// The workloads.
    pub fn workloads(&self) -> (w: &Vec<Workload>)
        ensures
            workload_views(w@) == self.workload_views(),
    {
        &self.workloads
    }

    /// Starts another iteration, if one is due. Returns its seed.
    pub fn next(&mut self, elapsed: Duration, all_reached: bool) -> (seed: Option<u64>)
        requires
            old(self).wf(),
            old(self).stage() == RunStage::Between,
            old(self).iterations().count < usize::MAX,
        ensures
            final(self).wf(),
            final(self).workload_views() == old(self).workload_views(),
            final(self).random_config() == old(self).random_config(),
            final(self).collected() == old(self).collected(),
            seed is Some == (old(self).workload_views().len() > 0 && goes_on(
                old(self).iterations(),
                elapsed@,
                all_reached,
            )),
            match seed {
                Some(s) => {
                    &&& s == seed_of(old(self).iterations(), old(self).iterations().count)
                    &&& final(self).iterations() == iteration_started(old(self).iterations())
                    &&& final(self).stage() == RunStage::Running(s)
                },
                None => {
                    &&& final(self).iterations() == old(self).iterations()
                    &&& final(self).stage() == RunStage::Over
                },
            },
    {
        if self.workloads.len() > 0 && self.manager.should_continue(elapsed, all_reached) {
            proof {
                let v = self.iterations();
                lemma_failing_seeds_stay(
                    v.seeds,
                    seed_of(v, v.count),
                    self.collected().individual_metrics@,
                );
            }
            let seed: u64 = self.manager.next_iteration();
            self.stage = RunStage::Running(seed);
            Some(seed)
        } else {
            self.stage = RunStage::Over;
            None
        }
    }

    /// The world of an iteration, with fault injection.
    pub fn world(&self, seed: u64) -> (w: SimWorld<XorShift64>)
        ensures
            w.wf(),
            is_network_for(w@.net.config, self.random_config(), seed),
            w@ == (WorldView {
                buggify: BuggifyView {
                    enabled: true,
                    active: Map::empty(),
                    activation: ACTIVATION,
                },
                ..empty_world(w@.net.config, seeded(seed))
            }),
    {
        let network_config = if self.use_random_config {
            let mut rng = XorShift64::new(seed);
            NetworkConfiguration::random_for_seed(&mut rng)
        } else {
            NetworkConfiguration::default()
        };
        let mut w = SimWorld::new_with_network_config_and_seed(network_config, seed);
        buggify_init(&mut w.buggify, ACTIVATION, FIRING);
        w
    }

    /// Records the results of the running iteration.
    pub fn record(
        &mut self,
        wall_time: Duration,
        all_results: &Vec<SimulationResult<SimulationMetrics>>,
        sim_metrics: SimulationMetrics,
    )
        requires
            old(self).wf(),
            old(self).stage() is Running,
        ensures
            final(self).wf(),
            final(self).workload_views() == old(self).workload_views(),
            final(self).random_config() == old(self).random_config(),
            final(self).iterations() == old(self).iterations(),
            final(self).stage() == RunStage::Between,
            iteration_recorded(
                old(self).collected(),
                final(self).collected(),
                old(self).stage()->Running_0,
                wall_time@,
                all_results@,
                sim_metrics@,
            ),
    {
        proof {
            lemma_success_count(self.collected().individual_metrics@);
        }
        if let RunStage::Running(seed) = self.stage {
            self.collector.record_iteration(seed, wall_time, all_results, sim_metrics);
            self.stage = RunStage::Between;
        }
    }

    /// Records that the running iteration came to a deadlock, which ends the
    /// simulation.
    pub fn deadlocked(&mut self)
        requires
            old(self).wf(),
            old(self).stage() is Running,
        ensures
            final(self).wf(),
            final(self).workload_views() == old(self).workload_views(),
            final(self).random_config() == old(self).random_config(),
            final(self).iterations() == old(self).iterations(),
            final(self).stage() == RunStage::Over,
            final(self).collected() == (MetricsCollector {
                failed_runs: (old(self).collected().failed_runs + 1) as usize,
                faulty_seeds: final(self).collected().faulty_seeds,
                ..old(self).collected()
            }),
            final(self).collected().faulty_seeds@ == old(self).collected().faulty_seeds@.push(
                old(self).stage()->Running_0,
            ),
    {
        proof {
            lemma_success_count(self.collected().individual_metrics@);
        }
        if let RunStage::Running(seed) = self.stage {
            let ghost before = self.collector.faulty_seeds@;
            let mut seeds: Vec<u64> = Vec::new();
            seeds.push(seed);
            proof {
                assert(before + seeds@ =~= before.push(seed));
            }
            self.collector.add_faulty_seeds(seeds);
            self.collector.add_failed_runs(1);
            self.stage = RunStage::Over;
        }
    }

    /// The report on a simulation that is over, with the assertions as they stand.
    /// Without workloads there is nothing to report.
    pub fn report(
        self,
        assertion_results: Vec<(String, AssertionStats)>,
        assertion_violations: Vec<String>,
    ) -> (r: SimulationReport)
        requires
            self.wf(),
        ensures
            r.iterations == self.iterations().count,
            r.successful_runs == self.collected().successful_runs,
            r.failed_runs == self.collected().failed_runs,
            r.metrics == self.collected().aggregated_metrics,
            r.individual_metrics == self.collected().individual_metrics,
            r.seeds_used@ == self.iterations().seeds.take(self.iterations().count as int),
            r.seeds_failing == self.collected().faulty_seeds,
            if self.workload_views().len() > 0 {
                r.assertion_results == assertion_results && r.assertion_violations
                    == assertion_violations
            } else {
                r.assertion_results@.len() == 0 && r.assertion_violations@.len() == 0
            },
    {
        let iterations: usize = self.manager.current_iteration();
        let seeds: Vec<u64> = self.manager.seeds_used();
        if self.workloads.len() > 0 {
            self.collector.generate_report(
                iterations,
                seeds,
                assertion_results,
                assertion_violations,
            )
        } else {
            self.collector.generate_report(iterations, seeds, Vec::new(), Vec::new())
        }
    }
}

/// In the report on a simulation that is over, every iteration has succeeded or failed,
/// and there are as many failing seeds as failed iterations. But for a last one that came
/// to a deadlock, each has a result of its own.
pub proof fn lemma_iterations_are_accounted_for(r: SimulationRun)
    requires
        r.wf(),
        !(r.stage() is Running),
    ensures
        r.collected().successful_runs + r.collected().failed_runs == r.iterations().count,
        r.collected().faulty_seeds@.len() == r.collected().failed_runs,
        r.collected().individual_metrics@.len() == r.iterations().count
            || r.collected().individual_metrics@.len() + 1 == r.iterations().count,
{
    lemma_failing_seeds_len(r.iterations().seeds, r.collected().individual_metrics@);
}

proof fn lemma_failing_seeds_len(
    seeds: Seq<u64>,
    results: Seq<SimulationResult<SimulationMetrics>>,
)
    ensures
        failing_seeds(seeds, results).len() + success_count(results) == results.len(),
    decreases results.len(),
{
    if results.len() > 0 {
        lemma_failing_seeds_len(seeds, results.drop_last());
    }
}

/// Workloads get different addresses.
pub proof fn lemma_addresses_differ(a: u32, b: u32)
    requires
        a != b,
    ensures
        ip_text(a) != ip_text(b),
{
    if ip_text(a) == ip_text(b) {
        let n = "10.0.0."@.len() as int;
        assert(ip_text(a).skip(n) =~= decimal(a as int));
        assert(ip_text(b).skip(n) =~= decimal(b as int));
        lemma_decimal_injective(a as int, b as int);
    }
}

} // verus!
