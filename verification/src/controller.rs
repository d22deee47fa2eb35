//! What is explored next: a queue of recipes to replay, and ways back to the states
//! that were reached.
//!
//! An [`Explorer`] decides; whoever drives it runs timelines, in this process or in
//! workers, and reports what they discovered.

use crate::bytes::{le_bytes, push_le};
use crate::counts::next_count;
use crate::hash::{fnv64, hash64, FNV64_OFFSET};
use crate::ids::{ascending, ids_in, in_order};
use crate::shared_stats::copy_recipe;
use std::collections::{BTreeMap, VecDeque};
use vstd::prelude::*;

verus! {

/// The most states that are known.
pub const MAX_TRACKED_STATES: usize = 512;

/// The most ways that are kept to reach a state.
pub const MAX_EXEMPLARS_PER_STATE: usize = 3;

/// The most recipes of bugs that are kept.
pub const MAX_BUG_RECIPES: usize = 4;

/// Settings of the exploration.
#[derive(Debug, Clone, Copy, PartialEq, Eq, Structural)]
pub struct ExplorationConfig {
    /// The most workers at a time; with none, timelines run in this process.
    pub workers: usize,
    /// The most timelines per seed, the first one among them.
    pub max_runs_per_seed: u64,
    /// How many recipes a productive timeline adds to the queue.
    pub branching_factor: u32,
    /// The most recipes in the queue.
    pub max_frontier: usize,
    /// The longest recipe.
    pub max_recipe_len: usize,
}

impl Default for ExplorationConfig {
    fn default() -> (c: Self)
        ensures
            c == (ExplorationConfig {
                workers: 4,
                max_runs_per_seed: 512,
                branching_factor: 4,
                max_frontier: 1024,
                max_recipe_len: 64,
            }),
    {
        ExplorationConfig {
            workers: 4,
            max_runs_per_seed: 512,
            branching_factor: 4,
            max_frontier: 1024,
            max_recipe_len: 64,
        }
    }
}

/// A recipe to replay: at which call of the generator it is reseeded with what.
#[derive(Debug, Clone)]
pub struct ExploreJob {
    /// The recipe.
    pub recipe: Vec<(u64, u64)>,
}

impl View for ExploreJob {
    type V = Seq<(u64, u64)>;

    open spec fn view(&self) -> Seq<(u64, u64)> {
        self.recipe@
    }
}

impl ExploreJob {
    /// A job with the same recipe.
    pub fn copy(&self) -> (j: Self)
        ensures
            j@ == self@,
    {
        ExploreJob { recipe: copy_recipe(&self.recipe) }
    }
}

/// Something that no timeline discovered before.
#[derive(Debug, Clone, Copy, PartialEq, Eq, Structural)]
pub struct DiscoveryEvent {
    /// The state that was reached.
    pub state_id: u64,
    /// At which call of the generator.
    pub call_count: u64,
    /// Whether it is progress: a better watermark, frontier or quality.
    pub progress: bool,
}

/// A summary of the exploration of a seed.
#[derive(Debug, Clone, Copy, PartialEq, Eq, Structural)]
pub struct ExplorationStats {
    /// Timelines that were run.
    pub total_timelines: u64,
    /// Productive timelines that added to the queue.
    pub expansions: u64,
    /// Discoveries.
    pub discoveries: u64,
    /// Timelines that failed, but for the first.
    pub bug_found: u64,
    /// The most workers at a time.
    pub max_active_workers: usize,
    /// The most recipes in the queue.
    pub frontier_peak: usize,
}

/// Nothing was explored.
pub open spec fn no_stats() -> ExplorationStats {
    ExplorationStats {
        total_timelines: 0,
        expansions: 0,
        discoveries: 0,
        bug_found: 0,
        max_active_workers: 0,
        frontier_peak: 0,
    }
}

impl Default for ExplorationStats {
    fn default() -> (s: Self)
        ensures
            s == no_stats(),
    {
        ExplorationStats {
            total_timelines: 0,
            expansions: 0,
            discoveries: 0,
            bug_found: 0,
            max_active_workers: 0,
            frontier_peak: 0,
        }
    }
}

/// A way to reach a state: replay the recipe, up to the anchor.
#[derive(Debug)]
pub struct Exemplar {
    /// The recipe.
    pub recipe: Vec<(u64, u64)>,
    /// At which call of the generator the state is reached.
    pub anchor: u64,
}

/// What an [`Exemplar`] says.
#[verifier::ext_equal]
pub ghost struct ExemplarView {
    pub recipe: Seq<(u64, u64)>,
    pub anchor: u64,
}

impl View for Exemplar {
    type V = ExemplarView;

    open spec fn view(&self) -> ExemplarView {
        ExemplarView { recipe: self.recipe@, anchor: self.anchor }
    }
}

/// A state that was reached.
#[derive(Debug)]
pub struct StateEntry {
    /// Which state it is.
    pub state_id: u64,
    /// Whether it was reached by progress.
    pub progress: bool,
    /// How often the exploration went on from it.
    pub visits: u64,
    /// Ways to reach it.
    pub exemplars: Vec<Exemplar>,
    /// Which of them is replaced next.
    pub next_exemplar: usize,
}

/// What a [`StateEntry`] says.
#[verifier::ext_equal]
pub ghost struct StateView {
    pub state_id: u64,
    pub progress: bool,
    pub visits: u64,
    pub exemplars: Seq<ExemplarView>,
    pub next_exemplar: usize,
}

/// What ways to reach a state say.
pub open spec fn exemplar_views(s: Seq<Exemplar>) -> Seq<ExemplarView> {
    Seq::new(s.len(), |i: int| s[i]@)
}

impl View for StateEntry {
    type V = StateView;

    open spec fn view(&self) -> StateView {
        StateView {
            state_id: self.state_id,
            progress: self.progress,
            visits: self.visits,
            exemplars: exemplar_views(self.exemplars@),
            next_exemplar: self.next_exemplar,
        }
    }
}

/// What states say.
pub open spec fn state_views(s: Seq<StateEntry>) -> Seq<StateView> {
    Seq::new(s.len(), |i: int| s[i]@)
}

/// The recipes of jobs.
pub open spec fn job_views(s: Seq<ExploreJob>) -> Seq<Seq<(u64, u64)>> {
    Seq::new(s.len(), |i: int| s[i]@)
}

/// The slots and the recipes of workers.
pub open spec fn worker_views(m: Map<u64, (usize, ExploreJob)>) -> Map<
    u64,
    (usize, Seq<(u64, u64)>),
> {
    m.map_values(|w: (usize, ExploreJob)| (w.0, w.1@))
}

/// Decides what is explored next.
pub struct Explorer {
    /// The settings.
    pub config: ExplorationConfig,
    /// The seed that is explored.
    pub root_seed: u64,
    /// Timelines that were started.
    pub runs_started: u64,
    /// The queue.
    pub frontier: VecDeque<ExploreJob>,
    /// The states that were reached.
    pub states: Vec<StateEntry>,
    /// How often the queue was filled from a known state.
    pub continuation_round: u64,
    /// The summary.
    pub stats: ExplorationStats,
    /// The recipes of bugs.
    pub bugs: Vec<ExploreJob>,
    /// The workers that run: their slots and jobs.
    pub active: BTreeMap<u64, (usize, ExploreJob)>,
    /// The slots that no worker has.
    pub free_slots: Vec<usize>,
    /// The job that a worker is being started for, and its slot.
    pub starting: Option<(usize, ExploreJob)>,
    /// The job that runs in this process.
    pub running: Option<ExploreJob>,
}

/// What an [`Explorer`] says.
#[verifier::ext_equal]
pub ghost struct ControllerView {
    pub config: ExplorationConfig,
    pub root_seed: u64,
    pub runs_started: u64,
    pub frontier: Seq<Seq<(u64, u64)>>,
    pub states: Seq<StateView>,
    pub continuation_round: u64,
    pub stats: ExplorationStats,
    pub bugs: Seq<Seq<(u64, u64)>>,
    pub active: Map<u64, (usize, Seq<(u64, u64)>)>,
    pub free_slots: Seq<usize>,
    pub starting: Option<(usize, Seq<(u64, u64)>)>,
    pub running: Option<Seq<(u64, u64)>>,
}

impl View for Explorer {
    type V = ControllerView;

    open spec fn view(&self) -> ControllerView {
        ControllerView {
            config: self.config,
            root_seed: self.root_seed,
            runs_started: self.runs_started,
            frontier: job_views(self.frontier@),
            states: state_views(self.states@),
            continuation_round: self.continuation_round,
            stats: self.stats,
            bugs: job_views(self.bugs@),
            active: worker_views(self.active@),
            free_slots: self.free_slots@,
            starting: crate::context::opt_view(self.starting),
            running: crate::context::opt_view(self.running),
        }
    }
}

/// Six numbers as bytes, one after the other.
pub open spec fn seed_bytes(
    root_seed: u64,
    base_seed: u64,
    anchor: u64,
    state_id: u64,
    round: u64,
    child: u32,
) -> Seq<u8> {
    le_bytes(root_seed as int, 8) + le_bytes(base_seed as int, 8) + le_bytes(anchor as int, 8)
        + le_bytes(state_id as int, 8) + le_bytes(round as int, 8) + le_bytes(child as int, 8)
}

/// The seed with which a timeline goes on from a state.
pub open spec fn derived_seed(
    root_seed: u64,
    base_seed: u64,
    anchor: u64,
    state_id: u64,
    round: u64,
    child: u32,
) -> u64 {
    fnv64(FNV64_OFFSET, seed_bytes(root_seed, base_seed, anchor, state_id, round, child))
}

/// Derives the seed with which a timeline goes on from a state.
pub fn derive_seed(
    root_seed: u64,
    base_seed: u64,
    anchor: u64,
    state_id: u64,
    round: u64,
    child: u32,
) -> (seed: u64)
    ensures
        seed == derived_seed(root_seed, base_seed, anchor, state_id, round, child),
{
    let mut bytes: Vec<u8> = Vec::new();
    push_le(&mut bytes, root_seed, 8);
    push_le(&mut bytes, base_seed, 8);
    push_le(&mut bytes, anchor, 8);
    push_le(&mut bytes, state_id, 8);
    push_le(&mut bytes, round, 8);
    push_le(&mut bytes, child as u64, 8);
    assert(bytes@ =~= seed_bytes(root_seed, base_seed, anchor, state_id, round, child));
    hash64(FNV64_OFFSET, bytes.as_slice())
}

/// The seed that a recipe ends with.
pub open spec fn last_seed(root_seed: u64, base: Seq<(u64, u64)>) -> u64 {
    if base.len() == 0 {
        root_seed
    } else {
        base.last().1
    }
}

/// A recipe that goes on from the anchor of another.
pub open spec fn child_recipe(
    root_seed: u64,
    base: Seq<(u64, u64)>,
    anchor: u64,
    state_id: u64,
    round: u64,
    child: int,
) -> Seq<(u64, u64)> {
    base.push(
        (
            anchor,
            derived_seed(
                root_seed,
                last_seed(root_seed, base),
                anchor,
                state_id,
                round,
                child as u32,
            ),
        ),
    )
}

/// How many recipes are added to the queue: as many as wanted and as there is room
/// for.
pub open spec fn added_count(config: ExplorationConfig, queued: nat) -> nat {
    if queued >= config.max_frontier {
        0
    } else if config.max_frontier - queued < config.branching_factor {
        (config.max_frontier - queued) as nat
    } else {
        config.branching_factor as nat
    }
}

/// The exploration goes on from the anchor of a recipe.
pub open spec fn expanded(
    v: ControllerView,
    base: Seq<(u64, u64)>,
    anchor: u64,
    state_id: u64,
    round: u64,
) -> ControllerView {
    let frontier = v.frontier + Seq::new(
        added_count(v.config, v.frontier.len()),
        |i: int| child_recipe(v.root_seed, base, anchor, state_id, round, i),
    );
    ControllerView {
        frontier,
        stats: ExplorationStats {
            frontier_peak: if frontier.len() > v.stats.frontier_peak {
                frontier.len() as usize
            } else {
                v.stats.frontier_peak
            },
            ..v.stats
        },
        ..v
    }
}

/// The position of a state, looked for from `from` on.
pub open spec fn state_from(states: Seq<StateView>, state_id: u64, from: int) -> Option<int>
    decreases states.len() - from,
{
    if from < 0 || from >= states.len() {
        None
    } else if states[from].state_id == state_id {
        Some(from)
    } else {
        state_from(states, state_id, from + 1)
    }
}

/// A state that was just reached.
pub open spec fn fresh_state(state_id: u64) -> StateView {
    StateView {
        state_id,
        progress: false,
        visits: 0,
        exemplars: Seq::empty(),
        next_exemplar: 0,
    }
}

/// The place of the exemplar that is replaced next.
pub open spec fn replaced_at(s: StateView) -> int {
    s.next_exemplar as int % MAX_EXEMPLARS_PER_STATE as int
}

/// A state with one more way to reach it; the oldest way makes room.
pub open spec fn reached_again(s: StateView, recipe: Seq<(u64, u64)>, event: DiscoveryEvent) -> StateView {
    let exemplar = ExemplarView { recipe, anchor: event.call_count };
    let s1 = StateView { progress: s.progress || event.progress, ..s };
    if s.exemplars.len() < MAX_EXEMPLARS_PER_STATE {
        StateView { exemplars: s.exemplars.push(exemplar), ..s1 }
    } else {
        StateView {
            exemplars: s.exemplars.update(replaced_at(s), exemplar),
            next_exemplar: if s.next_exemplar == usize::MAX {
                0
            } else {
                (s.next_exemplar + 1) as usize
            },
            ..s1
        }
    }
}

/// The states after a discovery.
pub open spec fn registered(
    states: Seq<StateView>,
    recipe: Seq<(u64, u64)>,
    event: DiscoveryEvent,
) -> Seq<StateView> {
    match state_from(states, event.state_id, 0) {
        Some(i) => states.update(i, reached_again(states[i], recipe, event)),
        None => if states.len() >= MAX_TRACKED_STATES {
            states
        } else {
            states.push(reached_again(fresh_state(event.state_id), recipe, event))
        },
    }
}

/// The states after some discoveries.
pub open spec fn all_registered(
    states: Seq<StateView>,
    recipe: Seq<(u64, u64)>,
    events: Seq<DiscoveryEvent>,
) -> Seq<StateView>
    decreases events.len(),
{
    if events.len() == 0 {
        states
    } else {
        registered(all_registered(states, recipe, events.drop_last()), recipe, events.last())
    }
}

/// The position of the latest discovery, the last of those at one call.
pub open spec fn latest(events: Seq<DiscoveryEvent>) -> int
    decreases events.len(),
{
    if events.len() <= 1 {
        0
    } else {
        let before = latest(events.drop_last());
        if events.last().call_count >= events[before].call_count {
            events.len() - 1
        } else {
            before
        }
    }
}

/// The summary and the recipes of bugs after a timeline ended.
pub open spec fn counted(
    v: ControllerView,
    recipe: Seq<(u64, u64)>,
    events: Seq<DiscoveryEvent>,
    failed: bool,
    from_exploration: bool,
) -> ControllerView {
    let bug = failed && from_exploration;
    ControllerView {
        stats: ExplorationStats {
            total_timelines: next_count(v.stats.total_timelines),
            discoveries: v.stats.discoveries.wrapping_add(events.len() as u64),
            bug_found: if bug {
                next_count(v.stats.bug_found)
            } else {
                v.stats.bug_found
            },
            ..v.stats
        },
        bugs: if bug && recipe.len() > 0 && v.bugs.len() < MAX_BUG_RECIPES {
            v.bugs.push(recipe)
        } else {
            v.bugs
        },
        ..v
    }
}

/// A state was visited once more.
pub open spec fn visited(states: Seq<StateView>, state_id: u64) -> Seq<StateView> {
    match state_from(states, state_id, 0) {
        Some(i) => states.update(
            i,
            StateView { visits: next_count(states[i].visits), ..states[i] },
        ),
        None => states,
    }
}

/// The exploration after a timeline ended. One that discovered nothing leads nowhere;
/// one that did goes on from its latest discovery, once.
pub open spec fn processed(
    v: ControllerView,
    recipe: Seq<(u64, u64)>,
    events: Seq<DiscoveryEvent>,
    failed: bool,
    from_exploration: bool,
) -> ControllerView {
    let v1 = counted(v, recipe, events, failed, from_exploration);
    if events.len() == 0 {
        v1
    } else {
        let anchor = events[latest(events)];
        let v2 = ControllerView { states: all_registered(v1.states, recipe, events), ..v1 };
        if recipe.len() < v.config.max_recipe_len {
            let v3 = ControllerView {
                stats: ExplorationStats {
                    expansions: next_count(v2.stats.expansions),
                    ..v2.stats
                },
                ..v2
            };
            let v4 = expanded(v3, recipe, anchor.call_count, anchor.state_id, 0);
            ControllerView { states: visited(v4.states, anchor.state_id), ..v4 }
        } else {
            v2
        }
    }
}

/// The ways to reach a state that can be gone on from.
pub open spec fn extendable(exemplars: Seq<ExemplarView>, max_len: nat) -> Seq<ExemplarView>
    decreases exemplars.len(),
{
    if exemplars.len() == 0 {
        Seq::empty()
    } else {
        let before = extendable(exemplars.drop_last(), max_len);
        if exemplars.last().recipe.len() < max_len {
            before.push(exemplars.last())
        } else {
            before
        }
    }
}

/// The length of the longest recipe.
pub open spec fn deepest(exemplars: Seq<ExemplarView>) -> nat
    decreases exemplars.len(),
{
    if exemplars.len() == 0 {
        0
    } else {
        let before = deepest(exemplars.drop_last());
        if exemplars.last().recipe.len() > before {
            exemplars.last().recipe.len()
        } else {
            before
        }
    }
}

/// Whether the exploration rather goes on from one state than from another: from one
/// that was visited less; of equals from one that was progress; of equals from a deeper
/// one.
pub open spec fn preferred(s: StateView, t: StateView) -> bool {
    ||| s.visits < t.visits
    ||| s.visits == t.visits && s.progress && !t.progress
    ||| s.visits == t.visits && s.progress == t.progress && deepest(s.exemplars) > deepest(
        t.exemplars,
    )
}

/// The state that the exploration goes on from: of those that can be gone on from,
/// the first that none is preferred to.
pub open spec fn picked(states: Seq<StateView>, max_len: nat) -> Option<int>
    decreases states.len(),
{
    if states.len() == 0 {
        None
    } else {
        let i = states.len() - 1;
        match picked(states.drop_last(), max_len) {
            Some(best) => if extendable(states[i].exemplars, max_len).len() > 0 && preferred(
                states[i],
                states[best],
            ) {
                Some(i)
            } else {
                Some(best)
            },
            None => if extendable(states[i].exemplars, max_len).len() > 0 {
                Some(i)
            } else {
                None
            },
        }
    }
}

/// The exploration after the queue was filled from a known state, and whether there
/// is anything in it.
pub open spec fn continued(v: ControllerView) -> (ControllerView, bool) {
    match picked(v.states, v.config.max_recipe_len as nat) {
        None => (v, false),
        Some(i) => {
            let s = v.states[i];
            let round = next_count(v.continuation_round);
            let ways = extendable(s.exemplars, v.config.max_recipe_len as nat);
            let way = ways[(round as int) % (ways.len() as int)];
            let v1 = ControllerView {
                continuation_round: round,
                states: v.states.update(i, StateView { visits: next_count(s.visits), ..s }),
                ..v
            };
            let v2 = expanded(v1, way.recipe, way.anchor, s.state_id, round);
            (v2, v2.frontier.len() > 0)
        },
    }
}

/// What is to be done next.
#[derive(Debug)]
pub enum ExploreStep {
    /// Run a job in this process.
    Run {
        /// The job.
        job: ExploreJob,
    },
    /// Start a worker for a job.
    Spawn {
        /// Its slot.
        slot: usize,
        /// The job.
        job: ExploreJob,
    },
    /// Wait for some worker to end.
    Reap,
    /// All is explored that is to be explored.
    Done,
}

/// What an [`ExploreStep`] says.
pub ghost enum StepView {
    Run(Seq<(u64, u64)>),
    Spawn(usize, Seq<(u64, u64)>),
    Reap,
    Done,
}

impl View for ExploreStep {
    type V = StepView;

    open spec fn view(&self) -> StepView {
        match *self {
            ExploreStep::Run { job } => StepView::Run(job@),
            ExploreStep::Spawn { slot, job } => StepView::Spawn(slot, job@),
            ExploreStep::Reap => StepView::Reap,
            ExploreStep::Done => StepView::Done,
        }
    }
}

/// The workers that still run are waited for, then all is done.
pub open spec fn drained(v: ControllerView) -> StepView {
    if v.active.dom().len() > 0 {
        StepView::Reap
    } else {
        StepView::Done
    }
}

/// The first job in the queue is taken up.
pub open spec fn taken_up(v: ControllerView) -> (ControllerView, StepView) {
    if v.config.workers > 0 && v.free_slots.len() == 0 {
        (v, StepView::Reap)
    } else {
        let job = v.frontier[0];
        let v1 = ControllerView {
            runs_started: next_count(v.runs_started),
            frontier: v.frontier.skip(1),
            ..v
        };
        if v.config.workers == 0 {
            (ControllerView { running: Some(job), ..v1 }, StepView::Run(job))
        } else {
            let slot = v.free_slots.last();
            (
                ControllerView {
                    free_slots: v.free_slots.drop_last(),
                    starting: Some((slot, job)),
                    ..v1
                },
                StepView::Spawn(slot, job),
            )
        }
    }
}

/// The next step of the exploration.
pub open spec fn stepped(v: ControllerView) -> (ControllerView, StepView) {
    if let Some(job) = v.running {
        (v, StepView::Run(job))
    } else if let Some((slot, job)) = v.starting {
        (v, StepView::Spawn(slot, job))
    } else if v.runs_started >= v.config.max_runs_per_seed {
        (v, drained(v))
    } else if v.frontier.len() > 0 {
        taken_up(v)
    } else if v.active.dom().len() > 0 {
        (v, StepView::Reap)
    } else {
        let (v1, more) = continued(v);
        if more {
            taken_up(v1)
        } else {
            (v1, StepView::Done)
        }
    }
}

/// The exploration of a seed begins.
pub open spec fn seed_begun(v: ControllerView, seed: u64) -> ControllerView {
    ControllerView {
        root_seed: seed,
        runs_started: 0,
        frontier: Seq::empty(),
        states: Seq::empty(),
        continuation_round: 0,
        stats: no_stats(),
        bugs: Seq::empty(),
        ..v
    }
}

/// The slots that workers have, as many as there are.
pub open spec fn slots_reversed(n: usize) -> Seq<usize> {
    Seq::new(n as nat, |i: int| (n - 1 - i) as usize)
}

/// An exploration that did not start yet.
pub open spec fn unstarted(config: ExplorationConfig) -> ControllerView {
    ControllerView {
        config,
        root_seed: 0,
        runs_started: 0,
        frontier: Seq::empty(),
        states: Seq::empty(),
        continuation_round: 0,
        stats: no_stats(),
        bugs: Seq::empty(),
        active: Map::empty(),
        free_slots: slots_reversed(config.workers),
        starting: None,
        running: None,
    }
}

/// The most of two numbers.
pub open spec fn most(a: usize, b: nat) -> usize {
    if b > a {
        b as usize
    } else {
        a
    }
}

/// A worker was started.
pub open spec fn worker_started(v: ControllerView, pid: u64) -> ControllerView {
    match v.starting {
        Some(s) => {
            let active = v.active.insert(pid, s);
            ControllerView {
                active,
                starting: None,
                stats: ExplorationStats {
                    max_active_workers: most(v.stats.max_active_workers, active.dom().len()),
                    ..v.stats
                },
                ..v
            }
        },
        None => v,
    }
}

/// A worker could not be started: its job runs in this process.
pub open spec fn worker_not_started(v: ControllerView) -> ControllerView {
    match v.starting {
        Some((slot, job)) => ControllerView {
            free_slots: v.free_slots.push(slot),
            starting: None,
            running: Some(job),
            ..v
        },
        None => v,
    }
}

/// The first timeline of a seed ended. Where it failed it is no bug of the exploration.
pub open spec fn root_observed(
    v: ControllerView,
    events: Seq<DiscoveryEvent>,
    failed: bool,
) -> ControllerView {
    processed(
        (ControllerView { runs_started: next_count(v.runs_started), ..v }),
        Seq::empty(),
        events,
        failed,
        false,
    )
}

/// The job that ran in this process ended.
pub open spec fn job_ended(
    v: ControllerView,
    events: Seq<DiscoveryEvent>,
    failed: bool,
) -> ControllerView {
    match v.running {
        Some(job) => processed(ControllerView { running: None, ..v }, job, events, failed, true),
        None => v,
    }
}

/// A worker ended.
pub open spec fn worker_ended(
    v: ControllerView,
    pid: u64,
    events: Seq<DiscoveryEvent>,
    failed: bool,
) -> ControllerView {
    if v.active.contains_key(pid) {
        let (slot, job) = v.active[pid];
        processed(
            ControllerView {
                active: v.active.remove(pid),
                free_slots: v.free_slots.push(slot),
                ..v
            },
            job,
            events,
            failed,
            true,
        )
    } else {
        v
    }
}

/// The workers' slots, in some order.
pub open spec fn slots_in_order(
    active: Map<u64, (usize, Seq<(u64, u64)>)>,
    order: Seq<u64>,
) -> Seq<usize> {
    Seq::new(order.len(), |i: int| active[order[i]].0)
}

/// Whether an order lists each worker once, by rising process ids.
pub open spec fn lists_workers(
    active: Map<u64, (usize, Seq<(u64, u64)>)>,
    order: Seq<u64>,
) -> bool {
    ascending(order) && forall|p: u64| active.contains_key(p) <==> order.contains(p)
}

/// No worker is left: their slots are free, in the order of the process ids,
/// and their jobs forgotten.
pub open spec fn workers_lost(v: ControllerView, order: Seq<u64>) -> ControllerView {
    ControllerView {
        active: Map::empty(),
        free_slots: v.free_slots + slots_in_order(v.active, order),
        ..v
    }
}

/// What is kept stays within its bounds.
pub open spec fn bounded(v: ControllerView) -> bool {
    &&& v.states.len() <= MAX_TRACKED_STATES
    &&& forall|i: int|
        0 <= i < v.states.len() ==> (#[trigger] v.states[i]).exemplars.len()
            <= MAX_EXEMPLARS_PER_STATE
    &&& v.frontier.len() <= v.stats.frontier_peak <= v.config.max_frontier
    &&& v.bugs.len() <= MAX_BUG_RECIPES
    &&& v.active.dom().finite()
}

proof fn lemma_state_from(states: Seq<StateView>, state_id: u64, from: int)
    requires
        0 <= from,
    ensures
        match state_from(states, state_id, from) {
            Some(i) => from <= i < states.len() && states[i].state_id == state_id,
            None => true,
        },
    decreases states.len() - from,
{
    if from < states.len() && states[from].state_id != state_id {
        lemma_state_from(states, state_id, from + 1);
    }
}

proof fn lemma_latest(events: Seq<DiscoveryEvent>)
    requires
        events.len() > 0,
    ensures
        0 <= latest(events) < events.len(),
    decreases events.len(),
{
    if events.len() > 1 {
        lemma_latest(events.drop_last());
    }
}

proof fn lemma_picked(states: Seq<StateView>, max_len: nat)
    ensures
        match picked(states, max_len) {
            Some(i) => 0 <= i < states.len() && extendable(states[i].exemplars, max_len).len() > 0,
            None => true,
        },
    decreases states.len(),
{
    if states.len() > 0 {
        lemma_picked(states.drop_last(), max_len);
    }
}

proof fn lemma_extendable(exemplars: Seq<ExemplarView>, max_len: nat)
    ensures
        extendable(exemplars, max_len).len() <= exemplars.len(),
        forall|i: int|
            0 <= i < extendable(exemplars, max_len).len() ==> (#[trigger] extendable(
                exemplars,
                max_len,
            )[i]).recipe.len() < max_len,
    decreases exemplars.len(),
{
    if exemplars.len() > 0 {
        lemma_extendable(exemplars.drop_last(), max_len);
    }
}

impl Explorer {
    /// The parts are within their bounds.
    pub open spec fn wf(&self) -> bool {
        bounded(self@)
    }

    /// Nothing was explored yet.
    pub fn new(config: ExplorationConfig) -> (x: Self)
        ensures
            x.wf(),
            x@ == unstarted(config),
    {
        let mut free_slots: Vec<usize> = Vec::new();
        let mut left: usize = config.workers;
        while left > 0
            invariant
                left <= config.workers,
                free_slots@.len() == config.workers - left,
                forall|i: int|
                    0 <= i < free_slots@.len() ==> #[trigger] free_slots@[i] == config.workers - 1
                        - i,
            decreases left,
        {
            left -= 1;
            free_slots.push(left);
        }
        assert(free_slots@ =~= slots_reversed(config.workers));
        let x = Explorer {
            config,
            root_seed: 0,
            runs_started: 0,
            frontier: VecDeque::new(),
            states: Vec::new(),
            continuation_round: 0,
            stats: ExplorationStats::default(),
            bugs: Vec::new(),
            active: BTreeMap::new(),
            free_slots,
            starting: None,
            running: None,
        };
        assert(x@.frontier =~= Seq::<Seq<(u64, u64)>>::empty());
        assert(x@.states =~= Seq::<StateView>::empty());
        assert(x@.bugs =~= Seq::<Seq<(u64, u64)>>::empty());
        assert(x@.active =~= Map::<u64, (usize, Seq<(u64, u64)>)>::empty());
        x
    }

    /// Begins the exploration of a seed.
    pub fn begin_seed(&mut self, seed: u64)
        requires
            old(self).wf(),
        ensures
            final(self).wf(),
            final(self)@ == seed_begun(old(self)@, seed),
    {
        self.root_seed = seed;
        self.runs_started = 0;
        self.frontier = VecDeque::new();
        self.states = Vec::new();
        self.continuation_round = 0;
        self.stats = ExplorationStats::default();
        self.bugs = Vec::new();
        assert(self@.frontier =~= Seq::<Seq<(u64, u64)>>::empty());
        assert(self@.states =~= Seq::<StateView>::empty());
        assert(self@.bugs =~= Seq::<Seq<(u64, u64)>>::empty());
    }

    /// Takes note of what the first timeline of a seed discovered. That it failed is
    /// no bug of the exploration.
    pub fn observe_root_run(&mut self, events: &Vec<DiscoveryEvent>, failed: bool)
        requires
            old(self).wf(),
        ensures
            final(self).wf(),
            final(self)@ == root_observed(old(self)@, events@, failed),
    {
        self.runs_started = self.runs_started.wrapping_add(1);
        let root = ExploreJob { recipe: Vec::new() };
        assert(root@ =~= Seq::<(u64, u64)>::empty());
        self.process_result(&root, events, failed, false);
    }

    /// Decides what is to be done next.
    pub fn explore(&mut self) -> (step: ExploreStep)
        requires
            old(self).wf(),
        ensures
            final(self).wf(),
            (final(self)@, step@) == stepped(old(self)@),
    {
        if let Some(job) = &self.running {
            return ExploreStep::Run { job: job.copy() };
        }
        if let Some((slot, job)) = &self.starting {
            return ExploreStep::Spawn { slot: *slot, job: job.copy() };
        }
        if self.runs_started >= self.config.max_runs_per_seed {
            if self.has_active_workers() {
                return ExploreStep::Reap;
            }
            return ExploreStep::Done;
        }
        if self.frontier.len() > 0 {
            return self.take_up();
        }
        if self.has_active_workers() {
            return ExploreStep::Reap;
        }
        if self.schedule_continuations() {
            return self.take_up();
        }
        ExploreStep::Done
    }

    fn take_up(&mut self) -> (step: ExploreStep)
        requires
            old(self).wf(),
            old(self)@.frontier.len() > 0,
        ensures
            final(self).wf(),
            (final(self)@, step@) == taken_up(old(self)@),
    {
        if self.config.workers > 0 && self.free_slots.len() == 0 {
            return ExploreStep::Reap;
        }
        let ghost queue = self.frontier@;
        match self.frontier.pop_front() {
            Some(job) => {
                assert(job@ == job_views(queue)[0]);
                assert(job_views(self.frontier@) =~= job_views(queue).skip(1));
                self.runs_started = self.runs_started.wrapping_add(1);
                if self.config.workers == 0 {
                    let copy = job.copy();
                    self.running = Some(job);
                    return ExploreStep::Run { job: copy };
                }
                match self.free_slots.pop() {
                    Some(slot) => {
                        let copy = job.copy();
                        self.starting = Some((slot, job));
                        ExploreStep::Spawn { slot, job: copy }
                    },
                    None => ExploreStep::Reap,
                }
            },
            None => ExploreStep::Reap,
        }
    }

    /// The summary of this seed.
    pub fn seed_stats(&self) -> (s: ExplorationStats)
        ensures
            s == self@.stats,
    {
        self.stats
    }

    /// The recipes of bugs of this seed.
    pub fn bug_recipes(&self) -> (b: &Vec<ExploreJob>)
        ensures
            job_views(b@) == self@.bugs,
    {
        &self.bugs
    }

    /// How many states are known.
    pub fn tracked_states(&self) -> (n: usize)
        ensures
            n == self@.states.len(),
    {
        self.states.len()
    }

    fn has_active_workers(&self) -> (b: bool)
        requires
            self.wf(),
        ensures
            b == (self@.active.dom().len() > 0),
    {
        assert(self@.active.dom() =~= self.active@.dom());
        self.active.len() > 0
    }

    /// Notes that the worker that was to be started runs, as process `pid`.
    pub fn worker_started(&mut self, pid: u64)
        requires
            old(self).wf(),
        ensures
            final(self).wf(),
            final(self)@ == worker_started(old(self)@, pid),
    {
        let mut starting: Option<(usize, ExploreJob)> = None;
        std::mem::swap(&mut starting, &mut self.starting);
        if let Some((slot, job)) = starting {
            let ghost before = self.active@;
            self.active.insert(pid, (slot, job));
            assert(worker_views(self.active@) =~= worker_views(before).insert(pid, (slot, job@)));
            assert(worker_views(self.active@).dom() =~= self.active@.dom());
            let n: usize = self.active.len();
            if n > self.stats.max_active_workers {
                self.stats.max_active_workers = n;
            }
        }
    }

    /// Notes that the worker that was to be started could not be.
    pub fn worker_not_started(&mut self)
        requires
            old(self).wf(),
        ensures
            final(self).wf(),
            final(self)@ == worker_not_started(old(self)@),
    {
        let mut starting: Option<(usize, ExploreJob)> = None;
        std::mem::swap(&mut starting, &mut self.starting);
        if let Some((slot, job)) = starting {
            self.free_slots.push(slot);
            self.running = Some(job);
        }
    }

    /// Notes what the job that ran in this process discovered, and whether it failed.
    pub fn job_ended(&mut self, events: &Vec<DiscoveryEvent>, failed: bool)
        requires
            old(self).wf(),
        ensures
            final(self).wf(),
            final(self)@ == job_ended(old(self)@, events@, failed),
    {
        let mut running: Option<ExploreJob> = None;
        std::mem::swap(&mut running, &mut self.running);
        if let Some(job) = running {
            self.process_result(&job, events, failed, true);
        }
    }

    /// Notes that process `pid` ended, what it discovered, and whether it failed.
    pub fn worker_ended(&mut self, pid: u64, events: &Vec<DiscoveryEvent>, failed: bool)
        requires
            old(self).wf(),
        ensures
            final(self).wf(),
            final(self)@ == worker_ended(old(self)@, pid, events@, failed),
    {
        let ghost before = self.active@;
        let removed = self.active.remove(&pid);
        assert(worker_views(self.active@) =~= worker_views(before).remove(pid));
        if let Some((slot, job)) = removed {
            self.free_slots.push(slot);
            self.process_result(&job, events, failed, true);
        }
    }

    /// Notes that no worker is left to wait for.
    pub fn workers_lost(&mut self)
        requires
            old(self).wf(),
        ensures
            final(self).wf(),
            lists_workers(old(self)@.active, in_order(old(self)@.active.dom())),
            final(self)@ == workers_lost(old(self)@, in_order(old(self)@.active.dom())),
    {
        let ghost v = self@;
        let ids = ids_in(&self.active);
        let ghost order = ids@;
        proof {
            assert(v.active.dom() =~= self.active@.dom());
            assert forall|p: u64| v.active.contains_key(p) <==> order.contains(p) by {
                assert(order.to_set().contains(p) == v.active.contains_key(p));
            }
        }
        let mut i: usize = 0;
        while i < ids.len()
            invariant
                i <= ids@.len(),
                order == ids@,
                forall|p: u64| v.active.contains_key(p) <==> order.contains(p),
                self@ == (ControllerView {
                    free_slots: v.free_slots + slots_in_order(v.active, order).take(i as int),
                    ..v
                }),
            decreases ids@.len() - i,
        {
            let ghost slots = slots_in_order(v.active, order);
            assert(order.contains(order[i as int]));
            if let Some((slot, _)) = self.active.get(&ids[i]) {
                self.free_slots.push(*slot);
            }
            assert(slots.take(i + 1) =~= slots.take(i as int).push(slots[i as int]));
            i += 1;
        }
        self.active.clear();
        assert(worker_views(self.active@) =~= Map::<u64, (usize, Seq<(u64, u64)>)>::empty());
        proof {
            let slots = slots_in_order(v.active, order);
            assert(slots.take(i as int) =~= slots);
            assert(self@ == workers_lost(v, order));
            assert(lists_workers(v.active, order));
        }
    }

    fn process_result(
        &mut self,
        job: &ExploreJob,
        events: &Vec<DiscoveryEvent>,
        failed: bool,
        from_exploration: bool,
    )
        requires
            old(self).wf(),
        ensures
            final(self).wf(),
            final(self)@ == processed(old(self)@, job@, events@, failed, from_exploration),
    {
        self.count(job, events, failed, from_exploration);
        if events.len() == 0 {
            return;
        }
        let mut at: usize = 0;
        let mut i: usize = 1;
        while i < events.len()
            invariant
                1 <= i <= events@.len(),
                at < i,
                at == latest(events@.take(i as int)),
            decreases events@.len() - i,
        {
            assert(events@.take(i + 1).drop_last() =~= events@.take(i as int));
            if events[i].call_count >= events[at].call_count {
                at = i;
            }
            i += 1;
        }
        assert(events@.take(i as int) =~= events@);
        let anchor = events[at];
        self.register_all(job, events);
        if job.recipe.len() < self.config.max_recipe_len {
            self.stats.expansions = self.stats.expansions.wrapping_add(1);
            self.expand_from(&job.recipe, anchor.call_count, anchor.state_id, 0);
            self.visit(anchor.state_id);
        }
    }

    fn count(
        &mut self,
        job: &ExploreJob,
        events: &Vec<DiscoveryEvent>,
        failed: bool,
        from_exploration: bool,
    )
        requires
            old(self).wf(),
        ensures
            final(self).wf(),
            final(self)@ == counted(old(self)@, job@, events@, failed, from_exploration),
    {
        self.stats.total_timelines = self.stats.total_timelines.wrapping_add(1);
        self.stats.discoveries = self.stats.discoveries.wrapping_add(events.len() as u64);
        if failed && from_exploration {
            self.stats.bug_found = self.stats.bug_found.wrapping_add(1);
            if job.recipe.len() > 0 && self.bugs.len() < MAX_BUG_RECIPES {
                let ghost before = self.bugs@;
                self.bugs.push(job.copy());
                assert(job_views(self.bugs@) =~= job_views(before).push(job@));
            }
        }
    }

    fn find_state(&self, state_id: u64) -> (r: Option<usize>)
        ensures
            match r {
                Some(i) => state_from(self@.states, state_id, 0) == Some(i as int) && i
                    < self@.states.len(),
                None => state_from(self@.states, state_id, 0) is None,
            },
    {
        let mut i: usize = 0;
        while i < self.states.len()
            invariant
                i <= self.states@.len(),
                state_from(self@.states, state_id, 0) == state_from(
                    self@.states,
                    state_id,
                    i as int,
                ),
            decreases self.states@.len() - i,
        {
            if self.states[i].state_id == state_id {
                return Some(i);
            }
            i += 1;
        }
        None
    }

    fn visit(&mut self, state_id: u64)
        requires
            old(self).wf(),
        ensures
            final(self).wf(),
            final(self)@ == (ControllerView {
                states: visited(old(self)@.states, state_id),
                ..old(self)@
            }),
    {
        if let Some(i) = self.find_state(state_id) {
            self.visit_at(i);
        }
    }

    fn visit_at(&mut self, i: usize)
        requires
            old(self).wf(),
            i < old(self)@.states.len(),
        ensures
            final(self).wf(),
            final(self)@ == (ControllerView {
                states: old(self)@.states.update(
                    i as int,
                    (StateView {
                        visits: next_count(old(self)@.states[i as int].visits),
                        ..old(self)@.states[i as int]
                    }),
                ),
                ..old(self)@
            }),
    {
        let ghost before = self@.states;
        let visits: u64 = self.states[i].visits.wrapping_add(1);
        self.states[i].visits = visits;
        assert(self@.states =~= before.update(
            i as int,
            StateView { visits, ..before[i as int] },
        ));
    }

    fn register_all(&mut self, job: &ExploreJob, events: &Vec<DiscoveryEvent>)
        requires
            old(self).wf(),
        ensures
            final(self).wf(),
            final(self)@ == (ControllerView {
                states: all_registered(old(self)@.states, job@, events@),
                ..old(self)@
            }),
    {
        let mut i: usize = 0;
        while i < events.len()
            invariant
                i <= events@.len(),
                self.wf(),
                self@ == (ControllerView {
                    states: all_registered(old(self)@.states, job@, events@.take(i as int)),
                    ..old(self)@
                }),
            decreases events@.len() - i,
        {
            self.register_state(job, events[i]);
            assert(events@.take(i + 1).drop_last() =~= events@.take(i as int));
            i += 1;
        }
        assert(events@.take(i as int) =~= events@);
    }

    fn register_state(&mut self, job: &ExploreJob, event: DiscoveryEvent)
        requires
            old(self).wf(),
        ensures
            final(self).wf(),
            final(self)@ == (ControllerView {
                states: registered(old(self)@.states, job@, event),
                ..old(self)@
            }),
    {
        let ghost before = self@.states;
        match self.find_state(event.state_id) {
            Some(i) => {
                self.reach(i, job, event);
            },
            None => {
                if self.states.len() >= MAX_TRACKED_STATES {
                    return;
                }
                let fresh = StateEntry {
                    state_id: event.state_id,
                    progress: false,
                    visits: 0,
                    exemplars: Vec::new(),
                    next_exemplar: 0,
                };
                assert(fresh@ =~= fresh_state(event.state_id));
                self.states.push(fresh);
                assert(self@.states =~= before.push(fresh_state(event.state_id)));
                let last: usize = self.states.len() - 1;
                self.reach(last, job, event);
                assert(self@.states =~= registered(before, job@, event));
            },
        }
    }

    fn reach(&mut self, i: usize, job: &ExploreJob, event: DiscoveryEvent)
        requires
            old(self).wf(),
            i < old(self)@.states.len(),
        ensures
            final(self).wf(),
            final(self)@ == (ControllerView {
                states: old(self)@.states.update(
                    i as int,
                    reached_again(old(self)@.states[i as int], job@, event),
                ),
                ..old(self)@
            }),
    {
        let ghost before = self@.states;
        let exemplar = Exemplar { recipe: copy_recipe(&job.recipe), anchor: event.call_count };
        let ghost held = self.states@[i as int];
        assert(held@ == before[i as int]);
        let state = &mut self.states[i];
        state.progress = state.progress || event.progress;
        if state.exemplars.len() < MAX_EXEMPLARS_PER_STATE {
            state.exemplars.push(exemplar);
            assert(exemplar_views(state.exemplars@) =~= exemplar_views(held.exemplars@).push(
                exemplar@,
            ));
        } else {
            let at: usize = state.next_exemplar % MAX_EXEMPLARS_PER_STATE;
            state.exemplars.set(at, exemplar);
            state.next_exemplar = state.next_exemplar.wrapping_add(1);
            assert(exemplar_views(state.exemplars@) =~= exemplar_views(held.exemplars@).update(
                at as int,
                exemplar@,
            ));
        }
        let ghost after = state@;
        assert(after == reached_again(before[i as int], job@, event));
        assert(self@.states =~= before.update(i as int, after));
    }

    fn expand_from(&mut self, base: &Vec<(u64, u64)>, anchor: u64, state_id: u64, round: u64)
        requires
            old(self).wf(),
        ensures
            final(self).wf(),
            final(self)@ == expanded(old(self)@, base@, anchor, state_id, round),
    {
        let root_seed: u64 = self.root_seed;
        let base_seed: u64 = if base.len() == 0 {
            root_seed
        } else {
            base[base.len() - 1].1
        };
        let ghost before = self@;
        let ghost added = Seq::new(
            added_count(before.config, before.frontier.len()),
            |i: int| child_recipe(before.root_seed, base@, anchor, state_id, round, i),
        );
        let mut child: u32 = 0;
        while child < self.config.branching_factor && self.frontier.len()
            < self.config.max_frontier
            invariant
                added == Seq::new(
                    added_count(before.config, before.frontier.len()),
                    |i: int| child_recipe(before.root_seed, base@, anchor, state_id, round, i),
                ),
                root_seed == before.root_seed,
                base_seed == last_seed(root_seed, base@),
                child <= added.len(),
                before.frontier.len() <= before.config.max_frontier,
                self.config == before.config,
                self.frontier@.len() == before.frontier.len() + child,
                self@ == (ControllerView {
                    frontier: before.frontier + added.take(child as int),
                    ..before
                }),
            decreases self.config.branching_factor - child,
        {
            let seed: u64 = derive_seed(root_seed, base_seed, anchor, state_id, round, child);
            let mut recipe = copy_recipe(base);
            recipe.push((anchor, seed));
            let ghost queue = self.frontier@;
            let ghost kept = self@.frontier;
            let job = ExploreJob { recipe };
            self.frontier.push_back(job);
            proof {
                assert(child < added.len());
                assert(job@ == added[child as int]);
                assert(self@.frontier =~= kept.push(job@));
                assert(added.take(child + 1) =~= added.take(child as int).push(job@));
            }
            child += 1;
        }
        assert(added.take(child as int) =~= added);
        if self.frontier.len() > self.stats.frontier_peak {
            self.stats.frontier_peak = self.frontier.len();
        }
    }

    fn pick(&self) -> (r: Option<usize>)
        requires
            self.wf(),
        ensures
            match r {
                Some(i) => picked(self@.states, self.config.max_recipe_len as nat) == Some(
                    i as int,
                ),
                None => picked(self@.states, self.config.max_recipe_len as nat) is None,
            },
    {
        let max_len: usize = self.config.max_recipe_len;
        let ghost states = self@.states;
        let mut best: Option<usize> = None;
        let mut i: usize = 0;
        while i < self.states.len()
            invariant
                i <= self.states@.len(),
                states == state_views(self.states@),
                match best {
                    Some(b) => b < i && picked(states.take(i as int), max_len as nat) == Some(
                        b as int,
                    ),
                    None => picked(states.take(i as int), max_len as nat) is None,
                },
            decreases self.states@.len() - i,
        {
            let state = &self.states[i];
            proof {
                assert(states.take(i + 1).drop_last() =~= states.take(i as int));
                assert(states.take(i + 1)[i as int] == state@);
                if let Some(b) = best {
                    assert(states.take(i + 1)[b as int] == states[b as int]);
                }
            }
            if has_extendable(state, max_len) {
                match best {
                    Some(b) => {
                        if is_preferred(state, &self.states[b]) {
                            best = Some(i);
                        }
                    },
                    None => {
                        best = Some(i);
                    },
                }
            }
            i += 1;
        }
        assert(states.take(i as int) =~= states);
        best
    }

    fn schedule_continuations(&mut self) -> (more: bool)
        requires
            old(self).wf(),
        ensures
            final(self).wf(),
            (final(self)@, more) == continued(old(self)@),
    {
        let max_len: usize = self.config.max_recipe_len;
        proof {
            lemma_picked(self@.states, max_len as nat);
        }
        match self.pick() {
            None => false,
            Some(i) => {
                self.continuation_round = self.continuation_round.wrapping_add(1);
                let round: u64 = self.continuation_round;
                let ghost state = self@.states[i as int];
                let state_id: u64 = self.states[i].state_id;
                let (recipe, anchor) = choose_way(&self.states[i], max_len, round);
                self.visit_at(i);
                self.expand_from(&recipe, anchor, state_id, round);
                self.frontier.len() > 0
            },
        }
    }
}

fn has_extendable(state: &StateEntry, max_len: usize) -> (b: bool)
    ensures
        b == (extendable(state@.exemplars, max_len as nat).len() > 0),
{
    let ghost all = state@.exemplars;
    let mut b: bool = false;
    let mut i: usize = 0;
    while i < state.exemplars.len()
        invariant
            i <= state.exemplars@.len(),
            all == exemplar_views(state.exemplars@),
            b == (extendable(all.take(i as int), max_len as nat).len() > 0),
        decreases state.exemplars@.len() - i,
    {
        assert(all.take(i + 1).drop_last() =~= all.take(i as int));
        if state.exemplars[i].recipe.len() < max_len {
            b = true;
        }
        i += 1;
    }
    assert(all.take(i as int) =~= all);
    b
}

fn depth_of(state: &StateEntry) -> (d: usize)
    ensures
        d == deepest(state@.exemplars),
{
    let ghost all = state@.exemplars;
    let mut d: usize = 0;
    let mut i: usize = 0;
    while i < state.exemplars.len()
        invariant
            i <= state.exemplars@.len(),
            all == exemplar_views(state.exemplars@),
            d == deepest(all.take(i as int)),
        decreases state.exemplars@.len() - i,
    {
        assert(all.take(i + 1).drop_last() =~= all.take(i as int));
        if state.exemplars[i].recipe.len() > d {
            d = state.exemplars[i].recipe.len();
        }
        i += 1;
    }
    assert(all.take(i as int) =~= all);
    d
}

fn is_preferred(s: &StateEntry, t: &StateEntry) -> (b: bool)
    ensures
        b == preferred(s@, t@),
{
    if s.visits != t.visits {
        return s.visits < t.visits;
    }
    if s.progress != t.progress {
        return s.progress;
    }
    depth_of(s) > depth_of(t)
}

/// The way that is gone on from in a round.
fn choose_way(state: &StateEntry, max_len: usize, round: u64) -> (r: (Vec<(u64, u64)>, u64))
    requires
        extendable(state@.exemplars, max_len as nat).len() > 0,
        state@.exemplars.len() <= MAX_EXEMPLARS_PER_STATE,
    ensures
        ({
            let ways = extendable(state@.exemplars, max_len as nat);
            let way = ways[(round as int) % (ways.len() as int)];
            r.0@ == way.recipe && r.1 == way.anchor
        }),
{
    let ghost all = state@.exemplars;
    let ghost ways = extendable(all, max_len as nat);
    proof {
        lemma_extendable(all, max_len as nat);
    }
    let mut places: Vec<usize> = Vec::new();
    let mut i: usize = 0;
    while i < state.exemplars.len()
        invariant
            i <= state.exemplars@.len(),
            all == exemplar_views(state.exemplars@),
            places@.len() == extendable(all.take(i as int), max_len as nat).len(),
            forall|j: int|
                0 <= j < places@.len() ==> (#[trigger] places@[j]) < i && all[places@[j] as int]
                    == extendable(all.take(i as int), max_len as nat)[j],
        decreases state.exemplars@.len() - i,
    {
        assert(all.take(i + 1).drop_last() =~= all.take(i as int));
        if state.exemplars[i].recipe.len() < max_len {
            places.push(i);
        }
        i += 1;
    }
    assert(all.take(i as int) =~= all);
    let n: u64 = places.len() as u64;
    let at: usize = places[(round % n) as usize];
    (copy_recipe(&state.exemplars[at].recipe), state.exemplars[at].anchor)
}

/// How many workers are being started.
pub open spec fn starting_count(v: ControllerView) -> nat {
    if v.starting is Some {
        1
    } else {
        0
    }
}

/// How many jobs run in this process.
pub open spec fn running_count(v: ControllerView) -> nat {
    if v.running is Some {
        1
    } else {
        0
    }
}

/// There are never more workers than wanted, and the summary says so.
pub open spec fn workers_bounded(v: ControllerView) -> bool {
    &&& v.active.dom().finite()
    &&& v.free_slots.len() + v.active.dom().len() + starting_count(v) <= v.config.workers
    &&& v.stats.max_active_workers <= v.config.workers
}

/// Every timeline that is counted, and every one that runs, was started.
pub open spec fn accounted(v: ControllerView) -> bool {
    &&& v.active.dom().finite()
    &&& v.stats.total_timelines + v.active.dom().len() + starting_count(v) + running_count(v)
        <= v.runs_started
}

/// No recipe in the queue is longer than allowed.
pub open spec fn recipes_bounded(v: ControllerView) -> bool {
    forall|i: int|
        0 <= i < v.frontier.len() ==> (#[trigger] v.frontier[i]).len() <= v.config.max_recipe_len
}

proof fn lemma_processed_keeps(
    v: ControllerView,
    recipe: Seq<(u64, u64)>,
    events: Seq<DiscoveryEvent>,
    failed: bool,
    from_exploration: bool,
)
    ensures
        ({
            let w = processed(v, recipe, events, failed, from_exploration);
            &&& w.config == v.config
            &&& w.runs_started == v.runs_started
            &&& w.active == v.active
            &&& w.free_slots == v.free_slots
            &&& w.starting == v.starting
            &&& w.running == v.running
            &&& w.stats.max_active_workers == v.stats.max_active_workers
            &&& w.stats.total_timelines == next_count(v.stats.total_timelines)
            &&& recipes_bounded(v) ==> recipes_bounded(w)
        }),
{
}

/// At no time do more workers run than wanted: an exploration begins so, and every
/// step and everything that is reported keeps it so.
pub proof fn lemma_workers_stay_bounded(
    v: ControllerView,
    pid: u64,
    events: Seq<DiscoveryEvent>,
    failed: bool,
    seed: u64,
    order: Seq<u64>,
)
    requires
        workers_bounded(v),
    ensures
        workers_bounded(stepped(v).0),
        workers_bounded(worker_started(v, pid)),
        workers_bounded(worker_not_started(v)),
        workers_bounded(job_ended(v, events, failed)),
        workers_bounded(worker_ended(v, pid, events, failed)),
        workers_bounded(seed_begun(v, seed)),
        lists_workers(v.active, order) ==> workers_bounded(workers_lost(v, order)),
{
    if let Some(job) = v.running {
        lemma_processed_keeps(ControllerView { running: None, ..v }, job, events, failed, true);
    }
    if v.active.contains_key(pid) {
        let (slot, job) = v.active[pid];
        let v1 = ControllerView {
            active: v.active.remove(pid),
            free_slots: v.free_slots.push(slot),
            ..v
        };
        assert(v1.active.dom() =~= v.active.dom().remove(pid));
        lemma_processed_keeps(v1, job, events, failed, true);
    }
    if let Some(s) = v.starting {
        assert(v.active.insert(pid, s).dom() =~= v.active.dom().insert(pid));
    }
    if lists_workers(v.active, order) {
        assert(order.to_set() =~= v.active.dom());
        order.unique_seq_to_set();
        assert(Map::<u64, (usize, Seq<(u64, u64)>)>::empty().dom() =~= Set::<u64>::empty());
    }
}

/// The budget of a seed is kept: a step starts at most one timeline, and none once the
/// budget is spent; and no timeline is counted that was not started.
pub proof fn lemma_budget_is_kept(
    v: ControllerView,
    pid: u64,
    events: Seq<DiscoveryEvent>,
    failed: bool,
)
    requires
        accounted(v),
    ensures
        stepped(v).0.runs_started == v.runs_started || stepped(v).0.runs_started == v.runs_started
            + 1 <= v.config.max_runs_per_seed,
        accounted(stepped(v).0),
        accounted(worker_started(v, pid)),
        accounted(worker_not_started(v)),
        accounted(job_ended(v, events, failed)),
        accounted(worker_ended(v, pid, events, failed)),
        v.stats.total_timelines <= v.runs_started,
{
    if let Some(job) = v.running {
        lemma_processed_keeps(ControllerView { running: None, ..v }, job, events, failed, true);
    }
    if v.active.contains_key(pid) {
        let (slot, job) = v.active[pid];
        let v1 = ControllerView {
            active: v.active.remove(pid),
            free_slots: v.free_slots.push(slot),
            ..v
        };
        assert(v1.active.dom() =~= v.active.dom().remove(pid));
        lemma_processed_keeps(v1, job, events, failed, true);
    }
    if let Some(s) = v.starting {
        assert(v.active.insert(pid, s).dom() =~= v.active.dom().insert(pid));
    }
}

/// No recipe ever gets longer than allowed.
pub proof fn lemma_recipes_stay_bounded(
    v: ControllerView,
    recipe: Seq<(u64, u64)>,
    events: Seq<DiscoveryEvent>,
    failed: bool,
    from_exploration: bool,
)
    requires
        recipes_bounded(v),
    ensures
        recipes_bounded(processed(v, recipe, events, failed, from_exploration)),
        recipes_bounded(continued(v).0),
        recipes_bounded(stepped(v).0),
{
    let max_len = v.config.max_recipe_len as nat;
    lemma_picked(v.states, max_len);
    if let Some(i) = picked(v.states, max_len) {
        let ways = extendable(v.states[i].exemplars, max_len);
        lemma_extendable(v.states[i].exemplars, max_len);
        let round = next_count(v.continuation_round);
        assert(0 <= (round as int) % (ways.len() as int) < ways.len());
    }
    assert(recipes_bounded(continued(v).0));
}

/// A timeline that discovered nothing leads nowhere: the queue and the known states
/// stay as they are.
pub proof fn lemma_barren_leads_nowhere(
    v: ControllerView,
    recipe: Seq<(u64, u64)>,
    failed: bool,
    from_exploration: bool,
)
    ensures
        ({
            let w = processed(v, recipe, Seq::empty(), failed, from_exploration);
            w.frontier == v.frontier && w.states == v.states && w.stats.expansions
                == v.stats.expansions
        }),
{
}

/// A timeline is expanded at most once, however much it discovered, and adds at most as
/// many jobs as the settings say, behind those that wait.
pub proof fn lemma_expanded_at_most_once(
    v: ControllerView,
    recipe: Seq<(u64, u64)>,
    events: Seq<DiscoveryEvent>,
    failed: bool,
    from_exploration: bool,
)
    ensures
        ({
            let w = processed(v, recipe, events, failed, from_exploration);
            &&& w.stats.expansions == v.stats.expansions || w.stats.expansions == next_count(
                v.stats.expansions,
            )
            &&& v.frontier.len() <= w.frontier.len() <= v.frontier.len()
                + v.config.branching_factor
            &&& w.frontier.take(v.frontier.len() as int) == v.frontier
        }),
{
    let w = processed(v, recipe, events, failed, from_exploration);
    assert(w.frontier.take(v.frontier.len() as int) =~= v.frontier);
}

proof fn lemma_picked_is_best(states: Seq<StateView>, max_len: nat)
    ensures
        match picked(states, max_len) {
            Some(i) => 0 <= i < states.len() && forall|j: int|
                0 <= j < states.len() && extendable((#[trigger] states[j]).exemplars, max_len).len()
                    > 0 ==> !preferred(states[j], states[i]),
            None => forall|j: int|
                0 <= j < states.len() ==> extendable(
                    (#[trigger] states[j]).exemplars,
                    max_len,
                ).len() == 0,
        },
    decreases states.len(),
{
    if states.len() > 0 {
        let before = states.drop_last();
        lemma_picked_is_best(before, max_len);
        assert forall|j: int| 0 <= j < before.len() implies before[j] == states[j] by {}
        if let Some(i) = picked(states, max_len) {
            assert forall|j: int|
                0 <= j < states.len() && extendable((#[trigger] states[j]).exemplars, max_len).len()
                    > 0 implies !preferred(states[j], states[i]) by {
                if j < before.len() {
                    assert(before[j] == states[j]);
                }
            }
        } else {
            assert forall|j: int| 0 <= j < states.len() implies extendable(
                (#[trigger] states[j]).exemplars,
                max_len,
            ).len() == 0 by {
                if j < before.len() {
                    assert(before[j] == states[j]);
                }
            }
        }
    }
}

/// Whether a state can be gone on from.
pub open spec fn can_go_on(v: ControllerView, i: int) -> bool {
    0 <= i < v.states.len() && extendable(
        v.states[i].exemplars,
        v.config.max_recipe_len as nat,
    ).len() > 0
}

/// Whether every queued job goes on by one split from a way to reach the state at
/// position `i` that is shorter than the longest recipe.
pub open spec fn goes_on_from(v: ControllerView, i: int, frontier: Seq<Seq<(u64, u64)>>) -> bool {
    exists|k: int|
        0 <= k < extendable(v.states[i].exemplars, v.config.max_recipe_len as nat).len() && ({
            let way = #[trigger] extendable(
                v.states[i].exemplars,
                v.config.max_recipe_len as nat,
            )[k];
            &&& way.recipe.len() < v.config.max_recipe_len
            &&& forall|j: int|
                0 <= j < frontier.len() ==> (#[trigger] frontier[j]).len() == way.recipe.len() + 1
                    && frontier[j].drop_last() == way.recipe
        })
}

/// When the queue is empty, the exploration goes on from the least visited state that
/// can be gone on from; of equally visited ones progress comes first, then depth. Where
/// there is no such state nothing is queued.
pub proof fn lemma_goes_on_from_least_visited(v: ControllerView)
    requires
        v.frontier.len() == 0,
        v.config.branching_factor > 0,
        v.config.max_frontier > 0,
    ensures
        continued(v).1 == exists|i: int| can_go_on(v, i),
        !continued(v).1 ==> continued(v).0 == v,
        continued(v).1 ==> exists|i: int|
            #![trigger can_go_on(v, i)]
            can_go_on(v, i) && goes_on_from(v, i, continued(v).0.frontier) && forall|j: int|
                #[trigger] can_go_on(v, j) ==> v.states[i].visits <= v.states[j].visits
                    && !preferred(v.states[j], v.states[i]),
{
    let max_len = v.config.max_recipe_len as nat;
    lemma_picked(v.states, max_len);
    lemma_picked_is_best(v.states, max_len);
    if let Some(i) = picked(v.states, max_len) {
        assert(can_go_on(v, i));
        let s = v.states[i];
        let ways = extendable(s.exemplars, max_len);
        lemma_extendable(s.exemplars, max_len);
        let round = next_count(v.continuation_round);
        let k = (round as int) % (ways.len() as int);
        assert(0 <= k < ways.len());
        let way = ways[k];
        let frontier = continued(v).0.frontier;
        assert forall|j: int| 0 <= j < frontier.len() implies (#[trigger] frontier[j]).len()
            == way.recipe.len() + 1 && frontier[j].drop_last() == way.recipe by {
            assert(frontier[j].drop_last() =~= way.recipe);
        }
        assert(goes_on_from(v, i, frontier));
        assert forall|j: int| #[trigger] can_go_on(v, j) implies v.states[i].visits
            <= v.states[j].visits && !preferred(v.states[j], v.states[i]) by {}
    } else {
        assert forall|i: int| !can_go_on(v, i) by {}
    }
}

/// Where all ways to a state can be gone on from, the exploration goes on from them in turn: from
/// the way at the number of the round, counted modulo their number. The new jobs repeat that way
/// up to where the state was reached.
pub proof fn lemma_ways_are_taken_in_turn(v: ControllerView, i: int, j: int)
    requires
        picked(v.states, v.config.max_recipe_len as nat) == Some(i),
        v.continuation_round < u64::MAX,
        v.states[i].exemplars.len() > 0,
        forall|k: int|
            0 <= k < v.states[i].exemplars.len() ==> (
            #[trigger] v.states[i].exemplars[k]).recipe.len() < v.config.max_recipe_len,
        v.frontier.len() <= j < continued(v).0.frontier.len(),
    ensures
        ({
            let ways = v.states[i].exemplars;
            let way = ways[(v.continuation_round + 1) % (ways.len() as int)];
            let job = continued(v).0.frontier[j];
            &&& job.len() == way.recipe.len() + 1
            &&& job.drop_last() == way.recipe
            &&& job.last().0 == way.anchor
            &&& continued(v).0.continuation_round == v.continuation_round + 1
        }),
{
    let ways = v.states[i].exemplars;
    lemma_all_extendable(ways, v.config.max_recipe_len as nat);
    let way = ways[(v.continuation_round + 1) % (ways.len() as int)];
    let job = continued(v).0.frontier[j];
    assert(job.drop_last() =~= way.recipe);
}

proof fn lemma_all_extendable(exemplars: Seq<ExemplarView>, max_len: nat)
    requires
        forall|k: int|
            0 <= k < exemplars.len() ==> (#[trigger] exemplars[k]).recipe.len() < max_len,
    ensures
        extendable(exemplars, max_len) == exemplars,
    decreases exemplars.len(),
{
    if exemplars.len() > 0 {
        let before = exemplars.drop_last();
        assert forall|k: int| 0 <= k < before.len() implies (#[trigger] before[k]).recipe.len()
            < max_len by {
            assert(before[k] == exemplars[k]);
        }
        lemma_all_extendable(before, max_len);
        assert(before.push(exemplars.last()) =~= exemplars);
    } else {
        assert(exemplars =~= Seq::<ExemplarView>::empty());
    }
}

} // verus!
