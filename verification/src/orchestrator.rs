//! How the workloads of an iteration are driven, and how iterations follow each
//! other.

use crate::bytes::{le_bytes, push_le};
use crate::error::{SimulationError, SimulationResult, is_invalid_state};
use crate::events::{Event, EventView};
use crate::random::RandomProvider;
use crate::report::{AssertionStats, SimulationMetrics};
use crate::time::{Duration, plus_nanos};
use crate::world::{SimWorld, WorldView, event_scheduled, ran, stepped};
use std::collections::hash_map::DefaultHasher;
use std::hash::Hasher;
use vstd::prelude::*;

verus! {

/// How many rounds may pass without progress before that is a deadlock.
pub const DEADLOCK_THRESHOLD: usize = 3;

/// How many timers follow a shutdown.
pub const SHUTDOWN_WAKES: u64 = 99;

/// Finds out that nothing moves any more.
#[derive(Debug)]
pub struct DeadlockDetector {
    no_progress_count: usize,
    threshold: usize,
}

/// What a [`DeadlockDetector`] says.
pub ghost struct DetectorView {
    /// The rounds without progress since the last one with progress.
    pub quiet: nat,
    pub threshold: nat,
}

impl View for DeadlockDetector {
    type V = DetectorView;

    closed spec fn view(&self) -> DetectorView {
        DetectorView { quiet: self.no_progress_count as nat, threshold: self.threshold as nat }
    }
}

/// Whether a round made no progress: no workload ended, and there was no event
/// before it and is none after it.
pub open spec fn is_quiet(handles: nat, initial_handles: nat, events: nat, initial_events: nat) -> bool {
    events == 0 && handles == initial_handles && initial_events == 0
}

/// The detector after a round.
pub open spec fn round_noted(d: DetectorView, quiet: bool) -> DetectorView {
    DetectorView {
        quiet: if quiet {
            d.quiet + 1
        } else {
            0
        },
        ..d
    }
}

impl DeadlockDetector {
    /// A detector that allows `threshold` rounds in a row without progress.
    pub fn new(threshold: usize) -> (d: Self)
        ensures
            d@ == (DetectorView { quiet: 0, threshold: threshold as nat }),
    {
        DeadlockDetector { no_progress_count: 0, threshold }
    }

    /// Notes a round. Returns whether it shows a deadlock.
    pub fn check_deadlock(
        &mut self,
        handles_count: usize,
        initial_handle_count: usize,
        event_count: usize,
        initial_event_count: usize,
    ) -> (deadlock: bool)
        requires
            old(self)@.quiet < usize::MAX,
        ensures
            ({
                let quiet = is_quiet(
                    handles_count as nat,
                    initial_handle_count as nat,
                    event_count as nat,
                    initial_event_count as nat,
                );
                &&& final(self)@ == round_noted(old(self)@, quiet)
                &&& deadlock == (final(self)@.quiet > final(self)@.threshold)
            }),
    {
        if event_count == 0 && handles_count == initial_handle_count && initial_event_count == 0 {
            self.no_progress_count += 1;
            self.no_progress_count > self.threshold
        } else {
            self.no_progress_count = 0;
            false
        }
    }

    /// The rounds without progress so far.
    pub fn no_progress_count(&self) -> (n: usize)
        ensures
            n == self@.quiet,
    {
        self.no_progress_count
    }
}

/// The detector after several rounds.
pub open spec fn rounds_noted(d: DetectorView, quiet: Seq<bool>) -> DetectorView
    decreases quiet.len(),
{
    if quiet.len() == 0 {
        d
    } else {
        round_noted(rounds_noted(d, quiet.drop_last()), quiet.last())
    }
}

/// From a fresh detector, the count exceeds the threshold if and only if more
/// rounds than the threshold, the last ones, all made no progress.
pub proof fn lemma_deadlock_means_quiet(threshold: nat, quiet: Seq<bool>)
    ensures
        ({
            let d = rounds_noted(DetectorView { quiet: 0, threshold }, quiet);
            &&& d.threshold == threshold
            &&& d.quiet <= quiet.len()
            &&& forall|i: int| quiet.len() - d.quiet <= i < quiet.len() ==> #[trigger] quiet[i]
            &&& d.quiet < quiet.len() ==> !quiet[quiet.len() - d.quiet - 1]
            &&& (d.quiet > threshold) == (quiet.len() > threshold && forall|i: int|
                quiet.len() - threshold - 1 <= i < quiet.len() ==> #[trigger] quiet[i])
        }),
    decreases quiet.len(),
{
    let d = rounds_noted(DetectorView { quiet: 0, threshold }, quiet);
    if quiet.len() > 0 {
        let before = quiet.drop_last();
        lemma_deadlock_means_quiet(threshold, before);
        let e = rounds_noted(DetectorView { quiet: 0, threshold }, before);
        assert forall|i: int| quiet.len() - d.quiet <= i < quiet.len() implies #[trigger] quiet[i] by {
            if i < before.len() {
                assert(before[i] == quiet[i]);
            }
        }
        if d.quiet < quiet.len() && quiet.last() {
            assert(quiet[quiet.len() - d.quiet - 1] == before[before.len() - e.quiet - 1]);
        }
    }
    if quiet.len() > threshold && d.quiet <= threshold {
        assert(!quiet[quiet.len() - d.quiet - 1]);
    }
}

/// The world with a shutdown scheduled, and timers that wake tasks after it.
pub open spec fn shutdown_scheduled<R>(w: WorldView<R>) -> WorldView<R> {
    wakes_scheduled(
        event_scheduled(w, plus_nanos(w.now, 1), EventView::Shutdown),
        SHUTDOWN_WAKES as nat,
    )
}

/// The world with `n` timers scheduled, one per nanosecond.
pub open spec fn wakes_scheduled<R>(w: WorldView<R>, n: nat) -> WorldView<R>
    decreases n,
{
    if n == 0 {
        w
    } else {
        event_scheduled(
            wakes_scheduled(w, (n - 1) as nat),
            plus_nanos(w.now, n),
            EventView::Timer { task_id: (u64::MAX - n) as u64 },
        )
    }
}

proof fn lemma_wakes_keep_time<R>(w: WorldView<R>, n: nat)
    ensures
        wakes_scheduled(w, n).now == w.now,
    decreases n,
{
    if n > 0 {
        lemma_wakes_keep_time(w, (n - 1) as nat);
    }
}

/// How a workload ended.
pub enum WorkloadOutcome {
    /// It came to an end with a result.
    Returned(SimulationResult<SimulationMetrics>),
    /// Its task panicked.
    Panicked,
}

/// What follows a round.
#[derive(Debug, Clone, Copy, PartialEq, Eq, Structural)]
pub enum RoundEnd {
    /// Nothing moves any more, and the iteration has failed.
    Deadlock,
    /// Workloads are still running.
    Continue,
    /// Every workload has ended.
    Finished,
}

/// Drives the workloads of an iteration.
pub struct WorkloadOrchestrator {
    remaining: usize,
    results: Vec<SimulationResult<SimulationMetrics>>,
    detector: DeadlockDetector,
    first_success_triggered: bool,
    initial_handle_count: usize,
    initial_event_count: usize,
}

/// What a [`WorkloadOrchestrator`] says.
#[verifier::ext_equal]
pub ghost struct OrchestratorView {
    /// How many workloads are still running.
    pub remaining: nat,
    /// The results of those that ended, in that order.
    pub results: Seq<SimulationResult<SimulationMetrics>>,
    pub detector: DetectorView,
    /// Whether a shutdown was triggered.
    pub shut_down: bool,
    /// The workloads running at the start of the round.
    pub initial_handles: nat,
    /// The events at the start of the round.
    pub initial_events: nat,
}

/// A workload ended, with a result.
pub open spec fn workload_taken(
    v: OrchestratorView,
    result: SimulationResult<SimulationMetrics>,
    outcome: WorkloadOutcome,
) -> OrchestratorView {
    OrchestratorView {
        remaining: (v.remaining - 1) as nat,
        results: v.results.push(result),
        shut_down: v.shut_down || is_success(outcome),
        ..v
    }
}

/// Whether the end of a workload is to shut the others down.
pub open spec fn asks_shutdown(v: OrchestratorView, outcome: WorkloadOutcome) -> bool {
    is_success(outcome) && !v.shut_down
}

impl View for WorkloadOrchestrator {
    type V = OrchestratorView;

    closed spec fn view(&self) -> OrchestratorView {
        OrchestratorView {
            remaining: self.remaining as nat,
            results: self.results@,
            detector: self.detector@,
            shut_down: self.first_success_triggered,
            initial_handles: self.initial_handle_count as nat,
            initial_events: self.initial_event_count as nat,
        }
    }
}

/// The result that an outcome stands for.
pub open spec fn is_result_of(r: SimulationResult<SimulationMetrics>, o: WorkloadOutcome) -> bool {
    match o {
        WorkloadOutcome::Returned(result) => r == result,
        WorkloadOutcome::Panicked => r is Err && is_invalid_state(r->Err_0, "Task panicked"@),
    }
}

/// Whether an outcome is a success.
pub open spec fn is_success(o: WorkloadOutcome) -> bool {
    o matches WorkloadOutcome::Returned(result) && result is Ok
}

impl WorkloadOrchestrator {
    /// A shutdown was triggered if and only if a workload succeeded, and no
    /// deadlock was found.
    pub open spec fn wf(&self) -> bool {
        &&& self@.shut_down == exists|i: int|
            0 <= i < self@.results.len() && #[trigger] self@.results[i] is Ok
        &&& self@.detector.threshold == DEADLOCK_THRESHOLD
        &&& self@.detector.quiet <= DEADLOCK_THRESHOLD
    }

    /// Starts with a number of running workloads.
    pub fn new(workloads: usize) -> (o: Self)
        ensures
            o.wf(),
            o@ == (OrchestratorView {
                remaining: workloads as nat,
                results: Seq::empty(),
                detector: DetectorView { quiet: 0, threshold: DEADLOCK_THRESHOLD as nat },
                shut_down: false,
                initial_handles: 0,
                initial_events: 0,
            }),
    {
        WorkloadOrchestrator {
            remaining: workloads,
            results: Vec::new(),
            detector: DeadlockDetector::new(DEADLOCK_THRESHOLD),
            first_success_triggered: false,
            initial_handle_count: 0,
            initial_event_count: 0,
        }
    }

    /// Starts a round: the world processes one event, if there is one. Returns
    /// whether it did.
    pub fn begin_round<R: RandomProvider>(&mut self, sim: &mut SimWorld<R>) -> (stepped_on: bool)
        requires
            old(self).wf(),
            old(sim).wf(),
        ensures
            final(self).wf(),
            final(sim).wf(),
            final(self)@ == (OrchestratorView {
                initial_handles: old(self)@.remaining,
                initial_events: old(sim)@.queue.len(),
                ..old(self)@
            }),
            final(sim)@ == stepped(old(sim)@),
            stepped_on == (old(sim)@.queue.len() > 0),
    {
        self.initial_handle_count = self.remaining;
        self.initial_event_count = sim.pending_event_count();
        if self.initial_event_count > 0 {
            sim.step();
            true
        } else {
            false
        }
    }

    /// Notes that a workload ended. The first success triggers a shutdown, and
    /// then `true` is returned, for the workloads to be told.
    pub fn workload_ended<R: RandomProvider>(
        &mut self,
        sim: &mut SimWorld<R>,
        outcome: WorkloadOutcome,
    ) -> (shutdown: bool)
        requires
            old(self).wf(),
            old(sim).wf(),
            old(self)@.remaining > 0,
        ensures
            final(self).wf(),
            final(sim).wf(),
            final(self)@ == workload_taken(old(self)@, final(self)@.results.last(), outcome),
            is_result_of(final(self)@.results.last(), outcome),
            shutdown == asks_shutdown(old(self)@, outcome),
            final(sim)@ == if shutdown {
                shutdown_scheduled(old(sim)@)
            } else {
                old(sim)@
            },
    {
        let ghost before = self.results@;
        let result: SimulationResult<SimulationMetrics> = match outcome {
            WorkloadOutcome::Returned(result) => result,
            WorkloadOutcome::Panicked => Err(
                SimulationError::InvalidState("Task panicked".to_owned()),
            ),
        };
        self.remaining -= 1;
        let success: bool = result.is_ok();
        let shutdown: bool = success && !self.first_success_triggered;
        if shutdown {
            trigger_shutdown(sim);
            self.first_success_triggered = true;
        }
        self.results.push(result);
        proof {
            let after = self.results@;
            assert(after.last() == after[before.len() as int]);
            if exists|i: int| 0 <= i < before.len() && #[trigger] before[i] is Ok {
                let i = choose|i: int| 0 <= i < before.len() && #[trigger] before[i] is Ok;
                assert(after[i] is Ok);
            }
            if exists|i: int| 0 <= i < after.len() && #[trigger] after[i] is Ok {
                let i = choose|i: int| 0 <= i < after.len() && #[trigger] after[i] is Ok;
                if i < before.len() {
                    assert(before[i] is Ok);
                }
            }
        }
        shutdown
    }

    /// Ends a round: says whether there is a deadlock, whether to go on, or
    /// whether every workload has ended.
    pub fn end_round<R: RandomProvider>(&mut self, sim: &SimWorld<R>) -> (end: RoundEnd)
        requires
            old(self).wf(),
        ensures
            ({
                let w = old(self)@;
                let quiet = is_quiet(
                    w.remaining,
                    w.initial_handles,
                    sim@.queue.len(),
                    w.initial_events,
                );
                let d = round_noted(w.detector, quiet);
                &&& final(self)@ == (OrchestratorView { detector: d, ..w })
                &&& end == if d.quiet > DEADLOCK_THRESHOLD {
                    RoundEnd::Deadlock
                } else if w.remaining > 0 {
                    RoundEnd::Continue
                } else {
                    RoundEnd::Finished
                }
                &&& end != RoundEnd::Deadlock ==> final(self).wf()
            }),
    {
        let deadlock: bool = self.detector.check_deadlock(
            self.remaining,
            self.initial_handle_count,
            sim.pending_event_count(),
            self.initial_event_count,
        );
        if deadlock {
            RoundEnd::Deadlock
        } else if self.remaining > 0 {
            RoundEnd::Continue
        } else {
            RoundEnd::Finished
        }
    }

    /// Processes what is left in the world, at most `limit` events. Returns what
    /// the world measured once it came to an end.
    pub fn finish<R: RandomProvider>(&self, sim: &mut SimWorld<R>, limit: u64) -> (r: Option<
        SimulationMetrics,
    >)
        requires
            old(sim).wf(),
        ensures
            final(sim).wf(),
            final(sim)@ == ran(old(sim)@, limit as nat).0,
            r is Some == ran(old(sim)@, limit as nat).1,
            r matches Some(m) ==> m@.wall == 0 && m@.simulated == final(sim)@.now && m@.events
                == final(sim)@.events_processed,
    {
        if sim.run_until_empty(limit) {
            Some(sim.extract_metrics())
        } else {
            None
        }
    }

    /// The results of the workloads, in the order in which they ended.
    pub fn into_results(self) -> (r: Vec<SimulationResult<SimulationMetrics>>)
        ensures
            r@ == self@.results,
    {
        self.results
    }
}

/// Schedules a shutdown, and timers after it so that every task runs again and
/// can see it.
pub fn trigger_shutdown<R: RandomProvider>(sim: &mut SimWorld<R>)
    requires
        old(sim).wf(),
    ensures
        final(sim).wf(),
        final(sim)@ == shutdown_scheduled(old(sim)@),
{
    sim.schedule_event(Event::Shutdown, Duration::from_nanos(1));
    let ghost w = sim@;
    let mut i: u64 = 1;
    while i <= SHUTDOWN_WAKES
        invariant
            1 <= i <= SHUTDOWN_WAKES + 1,
            sim.wf(),
            sim@ == wakes_scheduled(w, (i - 1) as nat),
        decreases SHUTDOWN_WAKES + 1 - i,
    {
        proof {
            lemma_wakes_keep_time(w, (i - 1) as nat);
        }
        sim.schedule_event(Event::Timer { task_id: u64::MAX - i }, Duration::from_nanos(i));
        i += 1;
    }
}

/// How long a simulation goes on.
#[derive(Debug, Clone, Copy, PartialEq, Eq, Structural)]
pub enum IterationControl {
    /// For a number of iterations.
    FixedCount(usize),
    /// For a time outside.
    TimeLimit(Duration),
    /// Until every assertion has held, and at most for a number of iterations.
    UntilAllSometimesReached(usize),
}

/// Gives out the seeds of iterations.
pub struct IterationManager {
    control: IterationControl,
    seeds: Vec<u64>,
    base_seed: u64,
    iteration_count: usize,
}

/// What an [`IterationManager`] says.
#[verifier::ext_equal]
pub ghost struct IterationsView {
    /// How long it goes on.
    pub control: IterationControl,
    /// The seeds known so far: those given first, then those made.
    pub seeds: Seq<u64>,
    pub base_seed: u64,
    /// How many iterations were started.
    pub count: nat,
}

impl View for IterationManager {
    type V = IterationsView;

    closed spec fn view(&self) -> IterationsView {
        IterationsView {
            control: self.control,
            seeds: self.seeds@,
            base_seed: self.base_seed,
            count: self.iteration_count as nat,
        }
    }
}

/// The seed made for an iteration: a hash of the base seed and the number of the
/// iteration, each as eight bytes.
pub open spec fn made_seed(base_seed: u64, iteration: nat) -> u64 {
    <DefaultHasher as vstd::std_specs::hash::DefaultHasherAdditionalSpecFns>::spec_finish(
        seq![le_bytes(base_seed as int, 8), le_bytes(iteration as int, 8)],
    )
}

/// The seed of an iteration.
pub open spec fn seed_of(v: IterationsView, iteration: nat) -> u64 {
    if iteration < v.seeds.len() {
        v.seeds[iteration as int]
    } else {
        made_seed(v.base_seed, iteration)
    }
}

/// The manager after another iteration was started.
pub open spec fn iteration_started(v: IterationsView) -> IterationsView {
    IterationsView {
        seeds: if v.count < v.seeds.len() {
            v.seeds
        } else {
            v.seeds.push(seed_of(v, v.count))
        },
        count: v.count + 1,
        ..v
    }
}

/// The manager after `n` more iterations were started.
pub open spec fn iterations_started(v: IterationsView, n: nat) -> IterationsView
    decreases n,
{
    if n == 0 {
        v
    } else {
        iteration_started(iterations_started(v, (n - 1) as nat))
    }
}

/// Whether another iteration is due.
pub open spec fn goes_on(v: IterationsView, elapsed: nat, all_reached: bool) -> bool {
    match v.control {
        IterationControl::FixedCount(n) => v.count < n,
        IterationControl::TimeLimit(d) => elapsed < d@,
        IterationControl::UntilAllSometimesReached(n) => v.count < n && !(v.count > 0
            && all_reached),
    }
}

fn seed_bytes(v: u64) -> (bytes: Vec<u8>)
    ensures
        bytes@ == le_bytes(v as int, 8),
{
    let mut bytes: Vec<u8> = Vec::new();
    push_le(&mut bytes, v, 8);
    proof {
        assert(Seq::<u8>::empty() + le_bytes(v as int, 8) =~= le_bytes(v as int, 8));
    }
    bytes
}

impl IterationManager {
    /// Every iteration that was started has a seed.
    pub open spec fn wf(&self) -> bool {
        self@.count <= self@.seeds.len()
    }

    /// Starts with seeds for the first iterations and a base seed for the others.
    pub fn new(control: IterationControl, initial_seeds: Vec<u64>, base_seed: u64) -> (m: Self)
        ensures
            m.wf(),
            m@ == (IterationsView { control, seeds: initial_seeds@, base_seed, count: 0 }),
    {
        IterationManager { control, seeds: initial_seeds, base_seed, iteration_count: 0 }
    }

    /// Whether another iteration is due, for the time that passed outside and
    /// whether all assertions were reached.
    pub fn should_continue(&self, elapsed: Duration, all_reached: bool) -> (b: bool)
        ensures
            b == goes_on(self@, elapsed@, all_reached),
    {
        match self.control {
            IterationControl::FixedCount(count) => self.iteration_count < count,
            IterationControl::TimeLimit(duration) => elapsed.lt(&duration),
            IterationControl::UntilAllSometimesReached(safety_limit) => {
                self.iteration_count < safety_limit && !(self.iteration_count > 0 && all_reached)
            },
        }
    }

    /// Starts another iteration. Returns its seed.
    pub fn next_iteration(&mut self) -> (seed: u64)
        requires
            old(self).wf(),
            old(self)@.count < usize::MAX,
        ensures
            final(self).wf(),
            seed == seed_of(old(self)@, old(self)@.count),
            final(self)@ == iteration_started(old(self)@),
    {
        let seed: u64 = if self.iteration_count < self.seeds.len() {
            self.seeds[self.iteration_count]
        } else {
            let base: Vec<u8> = seed_bytes(self.base_seed);
            let iteration: Vec<u8> = seed_bytes(self.iteration_count as u64);
            let mut hasher = DefaultHasher::new();
            hasher.write(base.as_slice());
            hasher.write(iteration.as_slice());
            proof {
                assert(hasher@ =~= seq![base@, iteration@]);
            }
            let new_seed: u64 = hasher.finish();
            self.seeds.push(new_seed);
            new_seed
        };
        self.iteration_count += 1;
        seed
    }

    /// How many iterations were started.
    pub fn current_iteration(&self) -> (n: usize)
        ensures
            n == self@.count,
    {
        self.iteration_count
    }

    /// The seeds of the iterations that were started.
    pub fn seeds_used(&self) -> (seeds: Vec<u64>)
        requires
            self.wf(),
        ensures
            seeds@ == self@.seeds.take(self@.count as int),
    {
        let mut used: Vec<u64> = Vec::new();
        let mut i: usize = 0;
        while i < self.iteration_count
            invariant
                self.wf(),
                i <= self.iteration_count,
                used@ == self.seeds@.take(i as int),
            decreases self.iteration_count - i,
        {
            used.push(self.seeds[i]);
            i += 1;
        }
        used
    }

    /// Whether there are assertions and each of them has held at least once.
    pub fn all_sometimes_assertions_reached(results: &Vec<(String, AssertionStats)>) -> (b: bool)
        ensures
            b == (results@.len() > 0 && forall|i: int|
                0 <= i < results@.len() ==> (#[trigger] results@[i]).1.successes >= 1),
    {
        if results.len() == 0 {
            return false;
        }
        let mut i: usize = 0;
        while i < results.len()
            invariant
                i <= results@.len(),
                forall|j: int|
                    0 <= j < i ==> (#[trigger] results@[j]).1.successes >= 1,
            decreases results@.len() - i,
        {
            if results[i].1.successes == 0 {
                return false;
            }
            i += 1;
        }
        true
    }
}

/// The seeds of a simulation are known in advance: those given first, then the
/// ones made from the base seed. The same seeds and base seed give the same run.
pub proof fn lemma_seeds_are_reproducible(
    control: IterationControl,
    initial: Seq<u64>,
    base_seed: u64,
    n: nat,
)
    ensures
        ({
            let start = IterationsView { control, seeds: initial, base_seed, count: 0 };
            let end = iterations_started(start, n);
            &&& end.count == n
            &&& end.base_seed == base_seed
            &&& end.seeds.len() == if n < initial.len() {
                initial.len()
            } else {
                n
            }
            &&& forall|i: int|
                0 <= i < end.seeds.len() ==> #[trigger] end.seeds[i] == seed_of(start, i as nat)
        }),
    decreases n,
{
    if n > 0 {
        lemma_seeds_are_reproducible(control, initial, base_seed, (n - 1) as nat);
    }
}

} // verus!
