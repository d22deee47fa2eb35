//! What an exploration finds, reports and spends.

use crate::bytes::le_bytes;
use crate::context::ExplorerView;
use crate::controller::{
    ControllerView, DiscoveryEvent, ExemplarView, ExplorationConfig, StateView, StepView,
    child_recipe, job_ended, last_seed, latest, processed, registered, root_observed, seed_begun,
    seed_bytes, state_from, stepped, unstarted, worker_ended, worker_not_started, worker_started,
};
use crate::energy::{EnergyView, mark_charged};
use crate::hash::{FNV64_OFFSET, FNV64_PRIME, fnv64};
use crate::sancov::{class_of, raised, reaches_new};
use crate::shared_stats::{SharedStats, energy_taken};
use crate::split_loop::{
    RunView, SplitPlan, child_ended, child_set_up, decided, reaped, split_begun,
};
use vstd::prelude::*;

verus! {

/// What a timeline that ended is counted as: one more timeline, with all its discoveries; where
/// it is a bug one more bug, whose recipe is the last of those that are kept while there are
/// fewer than four; and else no bug.
pub open spec fn is_counted(
    before: ControllerView,
    after: ControllerView,
    recipe: Seq<(u64, u64)>,
    discoveries: nat,
    bug: bool,
) -> bool {
    &&& after.stats.total_timelines == before.stats.total_timelines + 1
    &&& after.stats.discoveries == before.stats.discoveries + discoveries
    &&& bug ==> after.stats.bug_found == before.stats.bug_found + 1
    &&& !bug ==> after.stats.bug_found == before.stats.bug_found
    &&& bug && recipe.len() > 0 && before.bugs.len() < 4 ==> after.bugs == before.bugs.push(recipe)
    &&& !(bug && recipe.len() > 0 && before.bugs.len() < 4) ==> after.bugs == before.bugs
}

/// The counts are not at their end.
pub open spec fn countable(v: ControllerView, discoveries: nat) -> bool {
    &&& v.stats.total_timelines < u64::MAX
    &&& v.stats.bug_found < u64::MAX
    &&& v.stats.expansions < u64::MAX
    &&& v.stats.discoveries + discoveries <= u64::MAX
}

/// A job that ran in this process, or a worker that ended, and failed is a bug: the count of
/// bugs goes up by one and its recipe is kept. One that did not fail is none. The first
/// timeline of a seed never is, for it is no part of the exploration.
pub proof fn lemma_failures_are_bugs(
    v: ControllerView,
    pid: u64,
    events: Seq<DiscoveryEvent>,
    failed: bool,
)
    requires
        countable(v, events.len()),
        v.runs_started < u64::MAX,
    ensures
        v.running matches Some(job) ==> is_counted(
            v,
            job_ended(v, events, failed),
            job,
            events.len(),
            failed,
        ) && job_ended(v, events, failed).running is None,
        v.running is None ==> job_ended(v, events, failed) == v,
        v.active.contains_key(pid) ==> is_counted(
            v,
            worker_ended(v, pid, events, failed),
            v.active[pid].1,
            events.len(),
            failed,
        ) && worker_ended(v, pid, events, failed).active == v.active.remove(pid) && worker_ended(
            v,
            pid,
            events,
            failed,
        ).free_slots == v.free_slots.push(v.active[pid].0),
        !v.active.contains_key(pid) ==> worker_ended(v, pid, events, failed) == v,
        is_counted(v, root_observed(v, events, failed), Seq::empty(), events.len(), false),
        root_observed(v, events, failed).runs_started == v.runs_started + 1,
{
}

/// The latest discovery is one of the discoveries, and none comes after it.
pub proof fn lemma_latest_is_latest(events: Seq<DiscoveryEvent>)
    requires
        events.len() > 0,
    ensures
        0 <= latest(events) < events.len(),
        forall|i: int|
            0 <= i < events.len() ==> (#[trigger] events[i]).call_count
                <= events[latest(events)].call_count,
    decreases events.len(),
{
    if events.len() > 1 {
        let t = events.drop_last();
        lemma_latest_is_latest(t);
        assert forall|i: int| 0 <= i < events.len() implies (#[trigger] events[i]).call_count
            <= events[latest(events)].call_count by {
            if i < t.len() {
                assert(t[i] == events[i]);
            }
        }
    }
}

/// Whether all jobs behind the first `n` go on from a recipe by one split at a call.
pub open spec fn go_on_from(
    jobs: Seq<Seq<(u64, u64)>>,
    n: int,
    recipe: Seq<(u64, u64)>,
    call: u64,
) -> bool {
    forall|i: int|
        n <= i < jobs.len() ==> (#[trigger] jobs[i]).len() == recipe.len() + 1 && jobs[i].drop_last()
            == recipe && jobs[i].last().0 == call
}

/// A timeline that discovered something and is not too long is gone on from: as many jobs as
/// wanted are queued, or as there is room for, behind those that wait. Each replays the
/// timeline up to the latest of its discoveries and is split there.
pub proof fn lemma_discoveries_are_gone_on_from(
    v: ControllerView,
    recipe: Seq<(u64, u64)>,
    events: Seq<DiscoveryEvent>,
    failed: bool,
    from_exploration: bool,
)
    requires
        events.len() > 0,
        countable(v, events.len()),
    ensures
        ({
            let w = processed(v, recipe, events, failed, from_exploration);
            let n = v.frontier.len() as int;
            let room = v.config.max_frontier - n;
            &&& w.frontier.take(n) == v.frontier
            &&& recipe.len() < v.config.max_recipe_len ==> {
                &&& room >= v.config.branching_factor ==> w.frontier.len() == n
                    + v.config.branching_factor
                &&& 0 <= room < v.config.branching_factor ==> w.frontier.len()
                    == v.config.max_frontier
                &&& go_on_from(w.frontier, n, recipe, events[latest(events)].call_count)
                &&& w.stats.expansions == v.stats.expansions + 1
            }
            &&& recipe.len() >= v.config.max_recipe_len ==> w.frontier == v.frontier
                && w.stats.expansions == v.stats.expansions
        }),
{
    let w = processed(v, recipe, events, failed, from_exploration);
    let n = v.frontier.len() as int;
    assert(w.frontier.take(n) =~= v.frontier);
    if recipe.len() < v.config.max_recipe_len {
        let call = events[latest(events)].call_count;
        let id = events[latest(events)].state_id;
        assert forall|i: int| n <= i < w.frontier.len() implies (#[trigger] w.frontier[i]).len()
            == recipe.len() + 1 && w.frontier[i].drop_last() == recipe && w.frontier[i].last().0
            == call by {
            let job = child_recipe(v.root_seed, recipe, call, id, 0, i - n);
            assert(w.frontier[i] == job);
            assert(job.drop_last() =~= recipe);
        }
    }
}

proof fn lemma_fnv_step(h: u64, g: u64, b: u64)
    requires
        (h ^ b).wrapping_mul(FNV64_PRIME) == (g ^ b).wrapping_mul(FNV64_PRIME),
    ensures
        h == g,
{
    crate::split_loop::lemma_prime_undone(h ^ b);
    crate::split_loop::lemma_prime_undone(g ^ b);
    assert(h == g) by (bit_vector)
        requires
            h ^ b == g ^ b,
    ;
}

proof fn lemma_fnv_byte(h: u64, b: u64, c: u64)
    requires
        (h ^ b).wrapping_mul(FNV64_PRIME) == (h ^ c).wrapping_mul(FNV64_PRIME),
    ensures
        b == c,
{
    crate::split_loop::lemma_prime_undone(h ^ b);
    crate::split_loop::lemma_prime_undone(h ^ c);
    assert(b == c) by (bit_vector)
        requires
            h ^ b == h ^ c,
    ;
}

/// Sequences of bytes that differ in one place have different hashes.
proof fn lemma_one_byte_changes_hash(h: u64, a: Seq<u8>, b: Seq<u8>, k: int)
    requires
        a.len() == b.len(),
        0 <= k < a.len(),
        a[k] != b[k],
        forall|i: int| 0 <= i < a.len() && i != k ==> #[trigger] a[i] == b[i],
    ensures
        fnv64(h, a) != fnv64(h, b),
    decreases a.len(),
{
    let a1 = a.drop_last();
    let b1 = b.drop_last();
    if k == a.len() - 1 {
        assert(a1 =~= b1);
        if fnv64(h, a) == fnv64(h, b) {
            lemma_fnv_byte(fnv64(h, a1), a.last() as u64, b.last() as u64);
        }
    } else {
        assert forall|i: int| 0 <= i < a1.len() && i != k implies #[trigger] a1[i] == b1[i] by {
            assert(a[i] == b[i]);
        }
        lemma_one_byte_changes_hash(h, a1, b1, k);
        assert(a.last() == b.last()) by {
            assert(a[a.len() - 1] == b[a.len() - 1]);
        }
        if fnv64(h, a) == fnv64(h, b) {
            lemma_fnv_step(fnv64(h, a1), fnv64(h, b1), a.last() as u64);
        }
    }
}

/// The jobs that go on from one place do not repeat each other: the seeds of the first 256
/// of them are all different.
pub proof fn lemma_jobs_have_seeds_of_their_own(
    root_seed: u64,
    base: Seq<(u64, u64)>,
    anchor: u64,
    state_id: u64,
    round: u64,
    i: int,
    j: int,
)
    requires
        0 <= i < 256,
        0 <= j < 256,
        i != j,
    ensures
        child_recipe(root_seed, base, anchor, state_id, round, i) != child_recipe(
            root_seed,
            base,
            anchor,
            state_id,
            round,
            j,
        ),
        child_recipe(root_seed, base, anchor, state_id, round, i).last().1 != child_recipe(
            root_seed,
            base,
            anchor,
            state_id,
            round,
            j,
        ).last().1,
{
    let last = last_seed(root_seed, base);
    let a = seed_bytes(root_seed, last, anchor, state_id, round, i as u32);
    let b = seed_bytes(root_seed, last, anchor, state_id, round, j as u32);
    lemma_small_bytes(i, j);
    let head = le_bytes(root_seed as int, 8) + le_bytes(last as int, 8) + le_bytes(
        anchor as int,
        8,
    ) + le_bytes(state_id as int, 8) + le_bytes(round as int, 8);
    assert(a =~= head + le_bytes(i, 8));
    assert(b =~= head + le_bytes(j, 8));
    lemma_one_byte_changes_hash(FNV64_OFFSET, a, b, head.len() as int);
    assert(child_recipe(root_seed, base, anchor, state_id, round, i).last().1 != child_recipe(
        root_seed,
        base,
        anchor,
        state_id,
        round,
        j,
    ).last().1);
}

proof fn lemma_small_bytes(i: int, j: int)
    requires
        0 <= i < 256,
        0 <= j < 256,
        i != j,
    ensures
        le_bytes(i, 8).len() == 8,
        le_bytes(j, 8).len() == 8,
        le_bytes(i, 8)[0] != le_bytes(j, 8)[0],
        forall|k: int| 1 <= k < 8 ==> #[trigger] le_bytes(i, 8)[k] == le_bytes(j, 8)[k],
{
    reveal_with_fuel(le_bytes, 9);
}

/// A discovery makes its state known, unless too many are, and the way to reach it is kept.
pub proof fn lemma_discovered_state_is_known(
    states: Seq<StateView>,
    recipe: Seq<(u64, u64)>,
    event: DiscoveryEvent,
)
    requires
        states.len() < 512,
        forall|i: int| 0 <= i < states.len() ==> (#[trigger] states[i]).exemplars.len() <= 3,
    ensures
        ({
            let after = registered(states, recipe, event);
            exists|i: int|
                0 <= i < after.len() && (#[trigger] after[i]).state_id == event.state_id
                    && after[i].exemplars.contains(
                    ExemplarView { recipe, anchor: event.call_count },
                ) && (event.progress ==> after[i].progress)
        }),
        registered(states, recipe, event).len() <= states.len() + 1,
        forall|i: int|
            0 <= i < states.len() && (#[trigger] states[i]).state_id != event.state_id
                ==> registered(states, recipe, event)[i] == states[i],
{
    lemma_state_from(states, event.state_id, 0);
    let after = registered(states, recipe, event);
    let way = ExemplarView { recipe, anchor: event.call_count };
    match state_from(states, event.state_id, 0) {
        Some(i) => {
            let s = states[i];
            assert(after[i].state_id == event.state_id);
            if s.exemplars.len() < 3 {
                assert(after[i].exemplars[s.exemplars.len() as int] == way);
            } else {
                let k = crate::controller::replaced_at(s);
                assert(0 <= k < 3);
                assert(after[i].exemplars[k] == way);
            }
        },
        None => {
            let i = states.len() as int;
            assert(after[i].exemplars[0] == way);
        },
    }
}

proof fn lemma_state_from(states: Seq<StateView>, id: u64, from: int)
    requires
        0 <= from,
    ensures
        match state_from(states, id, from) {
            Some(i) => from <= i < states.len() && states[i].state_id == id,
            None => forall|i: int|
                from <= i < states.len() ==> (#[trigger] states[i]).state_id != id,
        },
    decreases states.len() - from,
{
    if from < states.len() {
        lemma_state_from(states, id, from + 1);
    }
}

/// Where nothing runs in this process and the budget is not spent, the job that waited
/// longest is taken up: it runs in this process where there are no workers, and else in a
/// worker with a free slot, as soon as there is one.
pub proof fn lemma_jobs_are_taken_in_order(v: ControllerView)
    requires
        v.running is None,
        v.starting is None,
        v.runs_started < v.config.max_runs_per_seed,
        v.frontier.len() > 0,
    ensures
        ({
            let (w, step) = stepped(v);
            &&& v.config.workers == 0 ==> step == StepView::Run(v.frontier[0]) && w.running == Some(
                v.frontier[0],
            )
            &&& v.config.workers > 0 && v.free_slots.len() > 0 ==> {
                &&& step == StepView::Spawn(v.free_slots.last(), v.frontier[0])
                &&& w.starting == Some((v.free_slots.last(), v.frontier[0]))
                &&& w.free_slots == v.free_slots.drop_last()
            }
            &&& v.config.workers > 0 && v.free_slots.len() == 0 ==> step == StepView::Reap && w == v
            &&& !(step is Reap) ==> w.frontier == v.frontier.skip(1) && w.runs_started
                == v.runs_started + 1
            &&& w.stats == v.stats
            &&& w.states == v.states
            &&& w.bugs == v.bugs
        }),
{
}

/// An exploration is over only where no worker runs any more and either the budget is spent
/// or nothing is queued. While a worker runs and nothing else can be done it is waited for.
pub proof fn lemma_done_means_done(v: ControllerView)
    requires
        v.active.dom().finite(),
    ensures
        stepped(v).1 is Done ==> v.active.dom() == Set::<u64>::empty() && v.running is None
            && v.starting is None && (v.runs_started >= v.config.max_runs_per_seed
            || v.frontier.len() == 0),
        v.runs_started >= v.config.max_runs_per_seed && v.running is None && v.starting is None
            ==> stepped(v) == (v, if v.active.dom().len() > 0 {
            StepView::Reap
        } else {
            StepView::Done
        }),
        v.running matches Some(job) ==> stepped(v) == (v, StepView::Run(job)),
{
    if v.active.dom().len() == 0 {
        assert(v.active.dom() =~= Set::<u64>::empty());
    }
}

/// A worker that was started runs the job that it was started for; one that could not be
/// started gives back its slot, and its job runs in this process.
pub proof fn lemma_started_workers_have_their_jobs(v: ControllerView, pid: u64)
    requires
        v.starting is Some,
    ensures
        worker_started(v, pid).active == v.active.insert(pid, v.starting->0),
        worker_started(v, pid).starting is None,
        worker_not_started(v).running == Some((v.starting->0).1),
        worker_not_started(v).free_slots == v.free_slots.push((v.starting->0).0),
        worker_not_started(v).starting is None,
        worker_not_started(v).active == v.active,
{
}

/// A seed begins with nothing queued, known, counted or found, and with the same settings.
pub proof fn lemma_seeds_begin_anew(v: ControllerView, seed: u64)
    ensures
        ({
            let w = seed_begun(v, seed);
            &&& w.root_seed == seed
            &&& w.config == v.config
            &&& w.frontier.len() == 0 && w.states.len() == 0 && w.bugs.len() == 0
            &&& w.runs_started == 0
            &&& w.stats.total_timelines == 0 && w.stats.bug_found == 0 && w.stats.discoveries == 0
            &&& w.stats.expansions == 0 && w.stats.frontier_peak == 0
        }),
{
}

/// A mark can pay for a timeline exactly where the global budget holds something and the
/// mark or the pool does. It pays from its own budget first.
pub proof fn lemma_charge_is_owed(e: EnergyView, slot: int)
    requires
        e.per_mark.len() == 128,
        0 <= slot < 128,
    ensures
        mark_charged(e, slot).0 <==> e.global_remaining > 0 && (e.per_mark[slot] > 0
            || e.realloc_pool > 0),
        mark_charged(e, slot).0 && e.per_mark[slot] > 0 ==> mark_charged(e, slot).1.per_mark[slot]
            == e.per_mark[slot] - 1 && mark_charged(e, slot).1.realloc_pool == e.realloc_pool,
        mark_charged(e, slot).0 && e.per_mark[slot] <= 0 ==> mark_charged(e, slot).1.per_mark
            == e.per_mark && mark_charged(e, slot).1.realloc_pool == e.realloc_pool - 1,
{
}

/// A unit of global energy is taken exactly where there is one.
pub proof fn lemma_energy_is_taken(s: SharedStats)
    ensures
        energy_taken(s).0 <==> s.global_energy > 0,
        s.global_energy > 0 ==> energy_taken(s).1.global_energy == s.global_energy - 1,
        s.global_energy <= 0 ==> energy_taken(s).1 == s,
        energy_taken(s).1.bug_found == s.bug_found,
        energy_taken(s).1.total_timelines == s.total_timelines,
        energy_taken(s).1.fork_points == s.fork_points,
{
}

/// A timeline that may be split and can pay for it is: where there are budgets for marks in
/// batches, else into a fixed number of timelines, the first of which is paid for. One that is
/// too deep, or of no exploration, is not, and nothing is paid.
pub proof fn lemma_discoveries_are_split(
    e: ExplorerView,
    mark: Seq<char>,
    slot_idx: usize,
    calls: u64,
    slots: usize,
)
    requires
        e.stats is Some,
        e.energy matches Some(b) ==> b.per_mark.len() == 128 && b.funded.len() == 128,
        slot_idx < 128,
    ensures
        ({
            let (after, run) = split_begun(e, mark, slot_idx, calls, slots);
            let allowed = e.ctx.active && e.ctx.depth < e.ctx.max_depth;
            &&& !allowed ==> run is None && after == e
            &&& allowed && e.energy is Some ==> {
                &&& run is Some
                &&& run->0.plan is Adaptive
                &&& run->0.plan->slot_idx == slot_idx
                &&& e.ctx.adaptive matches Some(a) ==> run->0.plan->batch_size == a.batch_size
                    && run->0.plan->min_timelines == a.min_timelines && run->0.plan->max_timelines
                    == a.max_timelines
                &&& after.energy->0.funded[slot_idx as int]
                &&& after.stats == e.stats
            }
            &&& allowed && e.energy is None && e.stats->0.global_energy > 0 ==> {
                &&& run is Some
                &&& run->0.plan == SplitPlan::Fixed { count: e.ctx.timelines_per_split }
                &&& after.stats->0.global_energy == e.stats->0.global_energy - 1
            }
            &&& allowed && e.energy is None && e.stats->0.global_energy <= 0 ==> run is None
                && after == e
            &&& run matches Some(r) ==> {
                &&& r.mark_name == mark
                &&& r.parent_seed == e.ctx.current_seed
                &&& r.call_count == calls
                &&& r.spawned == 0
                &&& r.stage is Spawning
                &&& r.parallel == (slots > 0)
                &&& r.free_slots.len() == slots
                &&& r.active == Map::<u64, (u64, usize)>::empty()
            }
        }),
{
    let (after, run) = split_begun(e, mark, slot_idx, calls, slots);
    if e.energy is None {
        match after.stats {
            Some(s) => {
                if run is None && e.ctx.active && e.ctx.depth < e.ctx.max_depth {
                    assert(after == e);
                }
            },
            None => {},
        }
    }
}

/// A timeline that is wanted and can be paid for is split off, or waits for a slot where
/// all are taken. Once as many as wanted were made and have ended, a split into a fixed number
/// is over.
pub proof fn lemma_wanted_timelines_are_made(r: RunView, e: ExplorerView)
    requires
        r.stage is Spawning,
        r.spawned < u32::MAX,
        r.batch_start <= r.spawned,
        r.active.dom().finite(),
    ensures
        ({
            let d = decided(r, e);
            let made = d.run.spawned == r.spawned + 1 && (d.action is Fork || (r.parallel
                && r.free_slots.len() == 0 && d.action is Reap));
            &&& r.plan is Fixed && r.spawned < r.plan->count && (r.spawned == 0 || (e.stats is Some
                && e.stats->0.global_energy > 0)) ==> made
            &&& r.plan is Fixed && r.spawned >= r.plan->count ==> d.run.spawned == r.spawned && !(
            d.action is Fork)
            &&& r.plan is Fixed && r.spawned >= r.plan->count && r.active.dom().len() == 0
                ==> d.action is Done
            &&& r.plan is Fixed && r.spawned > 0 && e.stats is Some && e.stats->0.global_energy <= 0
                ==> !(d.action is Fork)
            &&& r.plan is Adaptive && r.spawned - r.batch_start < r.plan->batch_size && r.spawned
                < r.plan->max_timelines && r.plan->slot_idx < 128 && e.energy is Some
                && e.energy->0.global_remaining > 0 && (
            e.energy->0.per_mark[r.plan->slot_idx as int] > 0 || e.energy->0.realloc_pool > 0)
                ==> made
            &&& r.active.dom().len() > 0 && d.run.spawned == r.spawned ==> d.action is Reap
        }),
{
}

/// At the end of a batch, a mark whose timelines covered nothing new, and made as many as it
/// must, gives up; one whose batch covered something new goes on with another, where it can
/// pay and may make more.
pub proof fn lemma_new_coverage_earns_a_batch(r: RunView, e: ExplorerView)
    requires
        r.stage is Spawning,
        r.spawned < u32::MAX,
        r.plan is Adaptive,
        r.plan->slot_idx < 128,
        r.active.dom() == Set::<u64>::empty(),
        r.batch_start <= r.spawned,
        r.spawned - r.batch_start == r.plan->batch_size,
        r.plan->batch_size > 0,
        e.energy is Some,
        e.energy->0.per_mark.len() == 128,
    ensures
        ({
            let d = decided(r, e);
            let b = e.energy->0;
            let slot = r.plan->slot_idx as int;
            let payable = b.global_remaining > 0 && (b.per_mark[slot] > 0 || b.realloc_pool > 0);
            &&& r.spawned >= r.plan->max_timelines ==> d.action is Done
            &&& r.spawned < r.plan->max_timelines && !r.batch_has_new && r.spawned
                >= r.plan->min_timelines ==> d.action is Done && d.state.energy->0.per_mark[slot]
                == 0
            &&& r.spawned < r.plan->max_timelines && (r.batch_has_new || r.spawned
                < r.plan->min_timelines) && payable ==> d.run.spawned == r.spawned + 1
                && d.run.batch_start == r.spawned && !d.run.batch_has_new && (d.action is Fork
                || d.action is Reap)
            &&& r.spawned < r.plan->max_timelines && (r.batch_has_new || r.spawned
                < r.plan->min_timelines) && !payable ==> d.action is Done
        }),
{
    assert(r.active.dom().len() == 0);
}

/// What ending timelines teach: each is counted; one that ended with the code 42 is a bug, and
/// the recipe of the first one is kept, with the split that led to it behind the path of this
/// timeline; all that it covered is known from then on; and a batch that covered something
/// new is known for it.
pub proof fn lemma_bugs_are_learned(
    r: RunView,
    e: ExplorerView,
    pid: u64,
    code: Option<i32>,
    covered: Set<int>,
    edges_new: bool,
)
    requires
        r.active.contains_key(pid),
        e.stats is Some,
        e.stats->0.bug_found < u64::MAX,
        e.stats->0.fork_points < u64::MAX,
        e.recipe is Some,
        e.explored is Some,
    ensures
        ({
            let (run, after) = reaped(r, e, pid, code, covered, edges_new);
            let seed = r.active[pid].0;
            let before = e.stats->0;
            let now = after.stats->0;
            &&& now.fork_points == before.fork_points + 1
            &&& code == Some(42i32) ==> now.bug_found == before.bug_found + 1
            &&& code != Some(42i32) ==> now.bug_found == before.bug_found && after.recipe
                == e.recipe
            &&& now.global_energy == before.global_energy
            &&& code == Some(42i32) && !e.recipe->0.claimed ==> {
                &&& after.recipe->0.claimed
                &&& after.recipe->0.entries.last() == (r.call_count, seed)
                &&& e.ctx.recipe.len() < crate::shared_stats::MAX_RECIPE_ENTRIES
                    ==> after.recipe->0.entries == e.ctx.recipe.push((r.call_count, seed))
            }
            &&& e.recipe->0.claimed ==> after.recipe == e.recipe
            &&& forall|i: int| #[trigger]
                after.explored->0.contains(i) <==> e.explored->0.contains(i) || covered.contains(i)
            &&& run.batch_has_new <==> r.batch_has_new || edges_new || exists|i: int| #[trigger]
                covered.contains(i) && !e.explored->0.contains(i)
            &&& run.active == r.active.remove(pid)
            &&& run.free_slots == r.free_slots.push(r.active[pid].1)
            &&& run.spawned == r.spawned
        }),
{
    let (run, after) = reaped(r, e, pid, code, covered, edges_new);
    if e.ctx.recipe.len() < crate::shared_stats::MAX_RECIPE_ENTRIES {
        assert(e.ctx.recipe.take(e.ctx.recipe.len() as int) =~= e.ctx.recipe);
    }
    if !covered.subset_of(e.explored->0) {
        let i = choose|i: int| covered.contains(i) && !e.explored->0.contains(i);
        assert(covered.contains(i) && !e.explored->0.contains(i));
    }
}

/// The same of a timeline that shares the map of this one.
pub proof fn lemma_shared_bugs_are_learned(
    r: RunView,
    e: ExplorerView,
    code: Option<i32>,
    edges_new: bool,
)
    requires
        r.stage is Forking,
        r.stage->Forking_slot is None,
        e.stats is Some,
        e.stats->0.bug_found < u64::MAX,
        e.stats->0.fork_points < u64::MAX,
        e.recipe is Some,
        e.explored is Some,
        e.bitmap is Some,
    ensures
        ({
            let (run, after) = child_ended(r, e, code, edges_new);
            let seed = r.stage->Forking_child_seed;
            let before = e.stats->0;
            let now = after.stats->0;
            &&& now.fork_points == before.fork_points + 1
            &&& code == Some(42i32) ==> now.bug_found == before.bug_found + 1
            &&& code != Some(42i32) ==> now.bug_found == before.bug_found && after.recipe
                == e.recipe
            &&& code == Some(42i32) && !e.recipe->0.claimed ==> after.recipe->0.claimed
                && after.recipe->0.entries.last() == (r.call_count, seed)
            &&& forall|i: int| #[trigger]
                after.explored->0.contains(i) <==> e.explored->0.contains(i)
                    || e.bitmap->0.contains(i)
            &&& run.batch_has_new <==> r.batch_has_new || edges_new || exists|i: int| #[trigger]
                e.bitmap->0.contains(i) && !e.explored->0.contains(i)
            &&& run.stage is Spawning
            &&& run.spawned == r.spawned
        }),
{
    if !e.bitmap->0.subset_of(e.explored->0) {
        let i = choose|i: int| e.bitmap->0.contains(i) && !e.explored->0.contains(i);
        assert(e.bitmap->0.contains(i) && !e.explored->0.contains(i));
    }
}

/// A process that was split off knows how it came about: it is one level deeper, has the
/// seed that it was split off with, and its recipe is that of its parent with this split; and
/// it is counted.
pub proof fn lemma_children_know_their_path(
    e: ExplorerView,
    child_seed: u64,
    calls: u64,
    own_map: bool,
)
    requires
        e.ctx.depth < u32::MAX,
    ensures
        ({
            let c = child_set_up(e, child_seed, calls, own_map);
            &&& c.ctx.is_child
            &&& c.ctx.depth == e.ctx.depth + 1
            &&& c.ctx.current_seed == child_seed
            &&& c.ctx.recipe == e.ctx.recipe.push((calls, child_seed))
            &&& c.ctx.active == e.ctx.active
            &&& c.ctx.max_depth == e.ctx.max_depth
            &&& e.stats matches Some(s) ==> c.stats is Some && (s.total_timelines < u64::MAX
                ==> c.stats->0.total_timelines == s.total_timelines + 1) && c.stats->0.global_energy
                == s.global_energy
            &&& own_map ==> c.bitmap == Some(Set::<int>::empty())
            &&& c.explored == e.explored
            &&& c.assertions == e.assertions
            &&& c.energy == e.energy
        }),
{
}

/// Counts are told apart by how often an edge was taken: never, once, twice, three times, and
/// then up to 7, 15, 31, 127 and beyond. A count that is not less has a class that is not less.
pub proof fn lemma_counts_have_classes(a: u8, b: u8)
    ensures
        class_of(a) == 0 <==> a == 0,
        a <= b ==> class_of(a) <= class_of(b),
        class_of(a) == class_of(b) <==> a == b || (4 <= a <= 7 && 4 <= b <= 7) || (8 <= a <= 15 && 8
            <= b <= 15) || (16 <= a <= 31 && 16 <= b <= 31) || (32 <= a <= 127 && 32 <= b <= 127)
            || (a >= 128 && b >= 128),
{
}

/// A run is new exactly where it took an edge more often, by its class, than any before; and
/// then this is known: no class is forgotten, and each is the highest so far.
pub proof fn lemma_new_edges_are_learned(history: Seq<u8>, run: Seq<u8>, i: int)
    requires
        history.len() == run.len(),
        0 <= i < run.len(),
    ensures
        raised(history, run).len() == history.len(),
        raised(history, run)[i] >= history[i],
        raised(history, run)[i] >= run[i],
        raised(history, run)[i] == history[i] || raised(history, run)[i] == run[i],
        run[i] > history[i] ==> reaches_new(history, run),
        !reaches_new(history, run) ==> raised(history, run) == history,
        !reaches_new(raised(history, run), run),
{
    if !reaches_new(history, run) {
        assert(raised(history, run) =~= history);
    }
}

/// An exploration begins with nothing found, counted or under way, and all its workers free,
/// each once.
pub proof fn lemma_explorations_begin_empty(config: ExplorationConfig, slot: usize)
    ensures
        ({
            let v = unstarted(config);
            &&& v.config == config
            &&& v.free_slots.len() == config.workers
            &&& v.free_slots.contains(slot) <==> slot < config.workers
            &&& v.free_slots.no_duplicates()
            &&& v.frontier.len() == 0 && v.states.len() == 0 && v.bugs.len() == 0
            &&& v.active.dom() == Set::<u64>::empty()
            &&& v.starting is None && v.running is None
            &&& v.runs_started == 0 && v.continuation_round == 0
            &&& v.stats.total_timelines == 0 && v.stats.bug_found == 0
            &&& v.stats.discoveries == 0 && v.stats.expansions == 0
        }),
{
    let free = unstarted(config).free_slots;
    if slot < config.workers {
        assert(free[config.workers - 1 - slot] == slot);
    }
}

} // verus!
