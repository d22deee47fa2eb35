//! Splitting a timeline: which timelines are split off at a mark, with which seeds
//! and at what cost, and what is learned from them when they end.
//!
//! A [`SplitRun`] decides; whoever drives it splits processes, waits for them and
//! reports what happened.

use crate::context::{CtxView, ExplorerState, ExplorerView};
use crate::counts::next_count;
use crate::coverage::CoverageBitmap;
use crate::energy::{
    decrement_mark_energy, init_mark_budget, mark_charged, mark_funded, mark_refunded,
    return_mark_energy_to_pool,
};
use crate::hash::{fnv64, hash64, FNV64_OFFSET, FNV64_PRIME};
use crate::shared_stats::{
    bug_entries, decrement_energy, energy_taken, save_bug_recipe, RecipeView, SharedStats,
};
use std::collections::BTreeMap;
use vstd::prelude::*;

verus! {

/// The code with which a timeline that found a bug ends.
pub const BUG_EXIT_CODE: i32 = 42;

/// One number mixed into a 64-bit hash.
pub open spec fn mixed(h: u64, v: u64) -> u64 {
    (h ^ v).wrapping_mul(FNV64_PRIME)
}

/// The seed of the timeline with an index that is split off at a mark.
pub open spec fn child_seed_of(parent_seed: u64, mark_name: Seq<char>, child_idx: u32) -> u64 {
    mixed(
        mixed(fnv64(FNV64_OFFSET, vstd::utf8::encode_utf8(mark_name)), parent_seed),
        child_idx as u64,
    )
}

/// Computes the seed of a timeline that is split off at a mark.
pub fn compute_child_seed(parent_seed: u64, mark_name: &str, child_idx: u32) -> (seed: u64)
    ensures
        seed == child_seed_of(parent_seed, mark_name@, child_idx),
{
    let hash: u64 = hash64(FNV64_OFFSET, mark_name.as_bytes());
    let hash: u64 = (hash ^ parent_seed).wrapping_mul(FNV64_PRIME);
    (hash ^ (child_idx as u64)).wrapping_mul(FNV64_PRIME)
}

/// How many timelines are split off.
#[derive(Debug, Clone, Copy, PartialEq, Eq, Structural)]
pub enum SplitPlan {
    /// A fixed number, paid from the global energy.
    Fixed {
        /// The number.
        count: u32,
    },
    /// Batches, as long as they cover something new, paid from the budget of a mark.
    Adaptive {
        /// The mark.
        slot_idx: usize,
        /// Timelines per batch.
        batch_size: u32,
        /// The fewest timelines.
        min_timelines: u32,
        /// The most timelines.
        max_timelines: u32,
    },
}

/// Where a split stands.
#[derive(Debug, Clone, Copy, PartialEq, Eq, Structural)]
pub enum SplitStage {
    /// The next timeline is due.
    Spawning,
    /// A timeline is paid for and needs a slot of its own.
    NeedSlot {
        /// Its seed.
        child_seed: u64,
    },
    /// A timeline is being split off.
    Forking {
        /// Its seed.
        child_seed: u64,
        /// Its slot, where it has one of its own.
        slot: Option<usize>,
    },
    /// The timelines that still run are waited for.
    Draining,
    /// All is done.
    Finished,
}

/// What is to be done next.
#[derive(Debug, Clone, Copy, PartialEq, Eq, Structural)]
pub enum SplitAction {
    /// Split off a timeline. One with a slot of its own covers a map of its own and
    /// runs beside others; one without is waited for at once.
    Fork {
        /// Its seed.
        child_seed: u64,
        /// Its slot.
        slot: Option<usize>,
    },
    /// Wait for some timeline to end.
    Reap,
    /// Go on with this timeline.
    Done,
}

/// A split that is under way.
pub struct SplitRun {
    /// The name of the mark.
    pub mark_name: String,
    /// The seed of the timeline that is split.
    pub parent_seed: u64,
    /// At which call of the generator it is split.
    pub call_count: u64,
    /// How many timelines are split off.
    pub plan: SplitPlan,
    /// Whether timelines run beside each other.
    pub parallel: bool,
    /// What this timeline covered, where timelines share its map.
    pub backup: Option<CoverageBitmap>,
    /// Timelines that were split off.
    pub spawned: u32,
    /// How many of them came before this batch.
    pub batch_start: u32,
    /// Whether this batch covered something new.
    pub batch_has_new: bool,
    /// The timelines that run: their seeds and slots.
    pub active: BTreeMap<u64, (u64, usize)>,
    /// The slots that no timeline has.
    pub free_slots: Vec<usize>,
    /// Where the split stands.
    pub stage: SplitStage,
}

/// What a [`SplitRun`] says.
#[verifier::ext_equal]
pub ghost struct RunView {
    pub mark_name: Seq<char>,
    pub parent_seed: u64,
    pub call_count: u64,
    pub plan: SplitPlan,
    pub parallel: bool,
    pub backup: Option<Set<int>>,
    pub spawned: u32,
    pub batch_start: u32,
    pub batch_has_new: bool,
    pub active: Map<u64, (u64, usize)>,
    pub free_slots: Seq<usize>,
    pub stage: SplitStage,
}

impl View for SplitRun {
    type V = RunView;

    open spec fn view(&self) -> RunView {
        RunView {
            mark_name: self.mark_name@,
            parent_seed: self.parent_seed,
            call_count: self.call_count,
            plan: self.plan,
            parallel: self.parallel,
            backup: crate::context::opt_view(self.backup),
            spawned: self.spawned,
            batch_start: self.batch_start,
            batch_has_new: self.batch_has_new,
            active: self.active@,
            free_slots: self.free_slots@,
            stage: self.stage,
        }
    }
}

/// Whether the next timeline is wanted, if it can be paid for.
pub open spec fn wants_more(r: RunView) -> bool {
    match r.plan {
        SplitPlan::Fixed { count } => r.spawned < count,
        SplitPlan::Adaptive { batch_size, max_timelines, .. } => r.spawned - r.batch_start
            < batch_size && r.spawned < max_timelines,
    }
}

/// Whether the next timeline can be paid for, and the state after it was. The first
/// one of a fixed number was paid for when the split began.
pub open spec fn timeline_paid(r: RunView, e: ExplorerView) -> (bool, ExplorerView) {
    match r.plan {
        SplitPlan::Fixed { count } => if r.spawned == 0 {
            (true, e)
        } else {
            match e.stats {
                Some(s) => {
                    let (paid, after) = energy_taken(s);
                    (paid, ExplorerView { stats: Some(after), ..e })
                },
                None => (false, e),
            }
        },
        SplitPlan::Adaptive { slot_idx, .. } => match e.energy {
            Some(b) => {
                let (paid, after) = mark_charged(b, slot_idx as int);
                (paid, ExplorerView { energy: Some(after), ..e })
            },
            None => (false, e),
        },
    }
}

/// What a split and the state are after a decision, and what is to be done.
#[verifier::ext_equal]
pub ghost struct Decision {
    pub run: RunView,
    pub state: ExplorerView,
    pub action: SplitAction,
}

/// The decision on a timeline that was paid for.
pub open spec fn placed(r: RunView, e: ExplorerView, child_seed: u64) -> Decision {
    if !r.parallel {
        Decision {
            run: RunView { stage: SplitStage::Forking { child_seed, slot: None }, ..r },
            state: ExplorerView {
                bitmap: match e.bitmap {
                    Some(b) => Some(Set::empty()),
                    None => None,
                },
                ..e
            },
            action: SplitAction::Fork { child_seed, slot: None },
        }
    } else if r.free_slots.len() == 0 {
        Decision {
            run: RunView { stage: SplitStage::NeedSlot { child_seed }, ..r },
            state: e,
            action: SplitAction::Reap,
        }
    } else {
        let slot = Some(r.free_slots.last());
        Decision {
            run: RunView {
                free_slots: r.free_slots.drop_last(),
                stage: SplitStage::Forking { child_seed, slot },
                ..r
            },
            state: e,
            action: SplitAction::Fork { child_seed, slot },
        }
    }
}

/// The next timeline was paid for.
pub open spec fn spawned_one(r: RunView, e: ExplorerView) -> Decision {
    placed(
        RunView { spawned: (r.spawned + 1) as u32, ..r },
        e,
        child_seed_of(r.parent_seed, r.mark_name, r.spawned),
    )
}

/// The split is over: this timeline covers what it covered before.
pub open spec fn finished(r: RunView, e: ExplorerView) -> Decision {
    Decision {
        run: RunView { stage: SplitStage::Finished, ..r },
        state: if r.parallel {
            e
        } else {
            match (e.bitmap, r.backup) {
                (Some(b), Some(saved)) => ExplorerView { bitmap: Some(saved), ..e },
                _ => e,
            }
        },
        action: SplitAction::Done,
    }
}

/// The mark gave up what it had left, and the split is over.
pub open spec fn barren(r: RunView, e: ExplorerView, slot_idx: usize) -> Decision {
    finished(
        r,
        ExplorerView {
            energy: match e.energy {
                Some(b) => Some(mark_refunded(b, slot_idx as int)),
                None => None,
            },
            ..e
        },
    )
}

/// The decision at the end of a batch, when no timeline runs any more.
pub open spec fn batch_ended(r: RunView, e: ExplorerView) -> Decision {
    match r.plan {
        SplitPlan::Fixed { count } => finished(r, e),
        SplitPlan::Adaptive { slot_idx, batch_size, min_timelines, max_timelines } => {
            if r.spawned >= max_timelines {
                finished(r, e)
            } else if !r.batch_has_new && r.spawned >= min_timelines {
                barren(r, e, slot_idx)
            } else if r.spawned - r.batch_start < batch_size {
                finished(r, e)
            } else {
                // The batch covered something new, or there were too few of them.
                let fresh = RunView {
                    batch_start: r.spawned,
                    batch_has_new: false,
                    stage: SplitStage::Spawning,
                    ..r
                };
                let (paid, after) = timeline_paid(fresh, e);
                if paid {
                    spawned_one(fresh, after)
                } else if r.spawned >= min_timelines {
                    barren(fresh, after, slot_idx)
                } else {
                    finished(fresh, after)
                }
            }
        },
    }
}

/// The decision when no further timeline is split off in this batch.
pub open spec fn wound_up(r: RunView, e: ExplorerView) -> Decision {
    if r.active.dom().len() > 0 {
        Decision {
            run: RunView { stage: SplitStage::Draining, ..r },
            state: e,
            action: SplitAction::Reap,
        }
    } else {
        batch_ended(r, e)
    }
}

/// The next decision of a split.
pub open spec fn decided(r: RunView, e: ExplorerView) -> Decision {
    match r.stage {
        SplitStage::Spawning => {
            if wants_more(r) {
                let (paid, after) = timeline_paid(r, e);
                if paid {
                    spawned_one(r, after)
                } else {
                    wound_up(r, after)
                }
            } else {
                wound_up(r, e)
            }
        },
        SplitStage::NeedSlot { child_seed } => placed(r, e, child_seed),
        SplitStage::Forking { child_seed, slot } => Decision {
            run: r,
            state: e,
            action: SplitAction::Fork { child_seed, slot },
        },
        SplitStage::Draining => wound_up(r, e),
        SplitStage::Finished => Decision { run: r, state: e, action: SplitAction::Done },
    }
}

/// A split of which the system could not make a timeline: its slot is free again,
/// and no further one is split off in this batch.
pub open spec fn fork_failed(r: RunView) -> RunView {
    match r.stage {
        SplitStage::Forking { slot: Some(slot), .. } => RunView {
            free_slots: r.free_slots.push(slot),
            stage: SplitStage::Draining,
            ..r
        },
        SplitStage::Forking { slot: None, .. } => RunView { stage: SplitStage::Draining, ..r },
        _ => r,
    }
}

/// A split of which a timeline runs beside this one.
pub open spec fn forked(r: RunView, pid: u64) -> RunView {
    match r.stage {
        SplitStage::Forking { child_seed, slot: Some(slot) } => RunView {
            active: r.active.insert(pid, (child_seed, slot)),
            stage: SplitStage::Spawning,
            ..r
        },
        _ => r,
    }
}

/// The state after a timeline with a seed ended and covered what it covered.
pub open spec fn learned(
    e: ExplorerView,
    call_count: u64,
    child_seed: u64,
    covered: Option<Set<int>>,
    code: Option<i32>,
) -> ExplorerView {
    let bug = code == Some(BUG_EXIT_CODE);
    ExplorerView {
        explored: match (e.explored, covered) {
            (Some(seen), Some(c)) => Some(seen.union(c)),
            (seen, _) => seen,
        },
        stats: match e.stats {
            Some(s) => Some(
                SharedStats {
                    bug_found: if bug {
                        next_count(s.bug_found)
                    } else {
                        s.bug_found
                    },
                    fork_points: next_count(s.fork_points),
                    ..s
                },
            ),
            None => None,
        },
        recipe: match e.recipe {
            Some(recipe) => Some(
                if bug && !recipe.claimed {
                    RecipeView {
                        claimed: true,
                        entries: bug_entries(e.ctx.recipe, (call_count, child_seed)),
                    }
                } else {
                    recipe
                },
            ),
            None => None,
        },
        ..e
    }
}

/// Whether a timeline marked something that none before it did.
pub open spec fn covers_new(e: ExplorerView, covered: Option<Set<int>>) -> bool {
    match (e.explored, covered) {
        (Some(seen), Some(c)) => !c.subset_of(seen),
        _ => false,
    }
}

/// A split and the state after the timeline that shares the map ended.
pub open spec fn child_ended(
    r: RunView,
    e: ExplorerView,
    code: Option<i32>,
    edges_new: bool,
) -> (RunView, ExplorerView) {
    match r.stage {
        SplitStage::Forking { child_seed, slot: None } => (
            RunView {
                batch_has_new: r.batch_has_new || edges_new || covers_new(e, e.bitmap),
                stage: SplitStage::Spawning,
                ..r
            },
            learned(e, r.call_count, child_seed, e.bitmap, code),
        ),
        _ => (r, e),
    }
}

/// A split and the state after a timeline that runs beside this one ended. Nothing
/// changes where it is not one of this split.
pub open spec fn reaped(
    r: RunView,
    e: ExplorerView,
    pid: u64,
    code: Option<i32>,
    covered: Set<int>,
    edges_new: bool,
) -> (RunView, ExplorerView) {
    if r.active.contains_key(pid) {
        let (child_seed, slot) = r.active[pid];
        (
            RunView {
                active: r.active.remove(pid),
                free_slots: r.free_slots.push(slot),
                batch_has_new: r.batch_has_new || edges_new || covers_new(e, Some(covered)),
                ..r
            },
            learned(e, r.call_count, child_seed, Some(covered), code),
        )
    } else {
        (r, e)
    }
}

/// A process that was split off: it knows how it came about, and is counted.
pub open spec fn child_set_up(
    e: ExplorerView,
    child_seed: u64,
    call_count: u64,
    own_map: bool,
) -> ExplorerView {
    ExplorerView {
        bitmap: if own_map {
            Some(Set::empty())
        } else {
            e.bitmap
        },
        stats: match e.stats {
            Some(s) => Some(SharedStats { total_timelines: next_count(s.total_timelines), ..s }),
            None => None,
        },
        ctx: CtxView {
            is_child: true,
            depth: (e.ctx.depth + 1) as u32,
            current_seed: child_seed,
            recipe: e.ctx.recipe.push((call_count, child_seed)),
            ..e.ctx
        },
        ..e
    }
}

/// A split that begins.
pub open spec fn begun(
    e: ExplorerView,
    mark_name: Seq<char>,
    call_count: u64,
    plan: SplitPlan,
    slot_count: usize,
) -> RunView {
    RunView {
        mark_name,
        parent_seed: e.ctx.current_seed,
        call_count,
        plan,
        parallel: slot_count > 0,
        backup: if slot_count > 0 {
            None
        } else {
            e.bitmap
        },
        spawned: 0,
        batch_start: 0,
        batch_has_new: false,
        active: Map::empty(),
        free_slots: Seq::new(slot_count as nat, |i: int| i as usize),
        stage: SplitStage::Spawning,
    }
}

/// Whether this timeline may be split.
pub open spec fn may_split(e: ExplorerView) -> bool {
    e.ctx.active && e.ctx.depth < e.ctx.max_depth
}

/// The state after a split into a fixed number of timelines began, and the split,
/// where there was energy for its first timeline.
pub open spec fn fixed_begun(
    e: ExplorerView,
    mark_name: Seq<char>,
    call_count: u64,
    slot_count: usize,
) -> (ExplorerView, Option<RunView>) {
    match e.stats {
        Some(s) if may_split(e) => {
            let (paid, after) = energy_taken(s);
            let e1 = ExplorerView { stats: Some(after), ..e };
            if paid {
                (
                    e1,
                    Some(
                        begun(
                            e1,
                            mark_name,
                            call_count,
                            SplitPlan::Fixed { count: e.ctx.timelines_per_split },
                            slot_count,
                        ),
                    ),
                )
            } else {
                (e1, None)
            }
        },
        _ => (e, None),
    }
}

/// The plan of an adaptive split at a mark.
pub open spec fn adaptive_plan(ctx: CtxView, slot_idx: usize) -> SplitPlan {
    match ctx.adaptive {
        Some(a) => SplitPlan::Adaptive {
            slot_idx,
            batch_size: a.batch_size,
            min_timelines: a.min_timelines,
            max_timelines: a.max_timelines,
        },
        None => SplitPlan::Adaptive {
            slot_idx,
            batch_size: 4,
            min_timelines: 1,
            max_timelines: 16,
        },
    }
}

/// The state after an adaptive split began, and the split.
pub open spec fn adaptive_begun(
    e: ExplorerView,
    mark_name: Seq<char>,
    slot_idx: usize,
    call_count: u64,
    slot_count: usize,
) -> (ExplorerView, Option<RunView>) {
    match e.energy {
        Some(b) if may_split(e) => {
            let e1 = ExplorerView { energy: Some(mark_funded(b, slot_idx as int)), ..e };
            (
                e1,
                Some(
                    begun(e1, mark_name, call_count, adaptive_plan(e.ctx, slot_idx), slot_count),
                ),
            )
        },
        _ => (e, None),
    }
}

/// The state after a split began, and the split: an adaptive one where there are
/// budgets for it, else one into a fixed number of timelines.
pub open spec fn split_begun(
    e: ExplorerView,
    mark_name: Seq<char>,
    slot_idx: usize,
    call_count: u64,
    slot_count: usize,
) -> (ExplorerView, Option<RunView>) {
    if e.energy is Some {
        adaptive_begun(e, mark_name, slot_idx, call_count, slot_count)
    } else {
        fixed_begun(e, mark_name, call_count, slot_count)
    }
}

/// Whether batches come to an end: a batch of none never does while timelines are
/// wanted.
pub open spec fn plan_ends(plan: SplitPlan) -> bool {
    match plan {
        SplitPlan::Fixed { count } => true,
        SplitPlan::Adaptive { batch_size, min_timelines, max_timelines, .. } => batch_size > 0
            || min_timelines == 0 || max_timelines == 0,
    }
}

impl SplitRun {
    /// The parts are well formed, the batch is a part of what was split off, and
    /// batches come to an end.
    pub open spec fn wf(&self) -> bool {
        &&& self.batch_start <= self.spawned
        &&& self.backup matches Some(b) ==> b.wf()
        &&& plan_ends(self.plan)
    }

    fn begin(
        state: &ExplorerState,
        mark_name: &str,
        call_count: u64,
        plan: SplitPlan,
        slot_count: usize,
    ) -> (r: SplitRun)
        requires
            state.wf(),
            plan_ends(plan),
        ensures
            r.wf(),
            r@ == begun(state@, mark_name@, call_count, plan, slot_count),
    {
        let backup: Option<CoverageBitmap> = if slot_count > 0 {
            None
        } else {
            match &state.bitmap {
                Some(b) => Some(b.copy()),
                None => None,
            }
        };
        let mut free_slots: Vec<usize> = Vec::new();
        while free_slots.len() < slot_count
            invariant
                free_slots@.len() <= slot_count,
                forall|i: int| 0 <= i < free_slots@.len() ==> #[trigger] free_slots@[i] == i,
            decreases slot_count - free_slots@.len(),
        {
            let next: usize = free_slots.len();
            free_slots.push(next);
        }
        SplitRun {
            mark_name: mark_name.to_owned(),
            parent_seed: state.ctx.current_seed,
            call_count,
            plan,
            parallel: slot_count > 0,
            backup,
            spawned: 0,
            batch_start: 0,
            batch_has_new: false,
            active: BTreeMap::new(),
            free_slots,
            stage: SplitStage::Spawning,
        }
    }

    /// Decides what is to be done next.
    pub fn next_action(&mut self, state: &mut ExplorerState) -> (action: SplitAction)
        requires
            old(self).wf(),
            old(state).wf(),
        ensures
            final(self).wf(),
            final(state).wf(),
            decided(old(self)@, old(state)@) == (Decision {
                run: final(self)@,
                state: final(state)@,
                action,
            }),
    {
        match self.stage {
            SplitStage::Spawning => {
                let wanted: bool = self.wants_another();
                if wanted {
                    if self.pay(state) {
                        return self.spawn(state);
                    }
                }
                self.wind_up(state)
            },
            SplitStage::NeedSlot { child_seed } => self.place(state, child_seed),
            SplitStage::Forking { child_seed, slot } => SplitAction::Fork { child_seed, slot },
            SplitStage::Draining => self.wind_up(state),
            SplitStage::Finished => SplitAction::Done,
        }
    }

    fn wants_another(&self) -> (b: bool)
        requires
            self.wf(),
        ensures
            b == wants_more(self@),
    {
        match self.plan {
            SplitPlan::Fixed { count } => self.spawned < count,
            SplitPlan::Adaptive { batch_size, max_timelines, .. } => self.spawned
                - self.batch_start < batch_size && self.spawned < max_timelines,
        }
    }

    fn pay(&self, state: &mut ExplorerState) -> (paid: bool)
        requires
            old(state).wf(),
        ensures
            final(state).wf(),
            (paid, final(state)@) == timeline_paid(self@, old(state)@),
    {
        match self.plan {
            SplitPlan::Fixed { .. } => {
                if self.spawned == 0 {
                    return true;
                }
                match &mut state.stats {
                    Some(stats) => decrement_energy(stats),
                    None => false,
                }
            },
            SplitPlan::Adaptive { slot_idx, .. } => {
                match &mut state.energy {
                    Some(budget) => decrement_mark_energy(budget, slot_idx),
                    None => false,
                }
            },
        }
    }

    fn spawn(&mut self, state: &mut ExplorerState) -> (action: SplitAction)
        requires
            old(self).wf(),
            old(state).wf(),
            old(self)@.spawned < u32::MAX,
        ensures
            final(self).wf(),
            final(state).wf(),
            spawned_one(old(self)@, old(state)@) == (Decision {
                run: final(self)@,
                state: final(state)@,
                action,
            }),
    {
        let child_seed: u64 = compute_child_seed(
            self.parent_seed,
            self.mark_name.as_str(),
            self.spawned,
        );
        self.spawned = self.spawned + 1;
        self.place(state, child_seed)
    }

    fn place(&mut self, state: &mut ExplorerState, child_seed: u64) -> (action: SplitAction)
        requires
            old(self).wf(),
            old(state).wf(),
        ensures
            final(self).wf(),
            final(state).wf(),
            placed(old(self)@, old(state)@, child_seed) == (Decision {
                run: final(self)@,
                state: final(state)@,
                action,
            }),
    {
        if !self.parallel {
            if let Some(bitmap) = &mut state.bitmap {
                bitmap.clear();
            }
            self.stage = SplitStage::Forking { child_seed, slot: None };
            return SplitAction::Fork { child_seed, slot: None };
        }
        match self.free_slots.pop() {
            Some(slot) => {
                self.stage = SplitStage::Forking { child_seed, slot: Some(slot) };
                SplitAction::Fork { child_seed, slot: Some(slot) }
            },
            None => {
                self.stage = SplitStage::NeedSlot { child_seed };
                SplitAction::Reap
            },
        }
    }

    fn wind_up(&mut self, state: &mut ExplorerState) -> (action: SplitAction)
        requires
            old(self).wf(),
            old(state).wf(),
        ensures
            final(self).wf(),
            final(state).wf(),
            wound_up(old(self)@, old(state)@) == (Decision {
                run: final(self)@,
                state: final(state)@,
                action,
            }),
    {
        if self.active.len() > 0 {
            self.stage = SplitStage::Draining;
            return SplitAction::Reap;
        }
        self.end_batch(state)
    }

    fn end_batch(&mut self, state: &mut ExplorerState) -> (action: SplitAction)
        requires
            old(self).wf(),
            old(state).wf(),
        ensures
            final(self).wf(),
            final(state).wf(),
            batch_ended(old(self)@, old(state)@) == (Decision {
                run: final(self)@,
                state: final(state)@,
                action,
            }),
    {
        match self.plan {
            SplitPlan::Fixed { .. } => self.finish(state),
            SplitPlan::Adaptive { slot_idx, batch_size, min_timelines, max_timelines } => {
                if self.spawned >= max_timelines {
                    return self.finish(state);
                }
                if !self.batch_has_new && self.spawned >= min_timelines {
                    return self.give_up(state, slot_idx);
                }
                if self.spawned - self.batch_start < batch_size {
                    return self.finish(state);
                }
                self.batch_start = self.spawned;
                self.batch_has_new = false;
                self.stage = SplitStage::Spawning;
                if self.pay(state) {
                    return self.spawn(state);
                }
                if self.spawned >= min_timelines {
                    return self.give_up(state, slot_idx);
                }
                self.finish(state)
            },
        }
    }

    fn give_up(&mut self, state: &mut ExplorerState, slot_idx: usize) -> (action: SplitAction)
        requires
            old(self).wf(),
            old(state).wf(),
        ensures
            final(self).wf(),
            final(state).wf(),
            barren(old(self)@, old(state)@, slot_idx) == (Decision {
                run: final(self)@,
                state: final(state)@,
                action,
            }),
    {
        if let Some(budget) = &mut state.energy {
            return_mark_energy_to_pool(budget, slot_idx);
        }
        self.finish(state)
    }

    fn finish(&mut self, state: &mut ExplorerState) -> (action: SplitAction)
        requires
            old(self).wf(),
            old(state).wf(),
        ensures
            final(self).wf(),
            final(state).wf(),
            finished(old(self)@, old(state)@) == (Decision {
                run: final(self)@,
                state: final(state)@,
                action,
            }),
    {
        self.stage = SplitStage::Finished;
        if !self.parallel && state.bitmap.is_some() {
            if let Some(saved) = &self.backup {
                state.bitmap = Some(saved.copy());
            }
        }
        SplitAction::Done
    }

    /// Notes that the system could not make the timeline that was to be split off.
    pub fn fork_failed(&mut self)
        requires
            old(self).wf(),
        ensures
            final(self).wf(),
            final(self)@ == fork_failed(old(self)@),
    {
        if let SplitStage::Forking { slot, .. } = self.stage {
            if let Some(s) = slot {
                self.free_slots.push(s);
            }
            self.stage = SplitStage::Draining;
        }
    }

    /// Notes that the timeline that was to be split off runs, as process `pid`.
    pub fn forked(&mut self, pid: u64)
        requires
            old(self).wf(),
        ensures
            final(self).wf(),
            final(self)@ == forked(old(self)@, pid),
    {
        if let SplitStage::Forking { child_seed, slot } = self.stage {
            if let Some(s) = slot {
                self.active.insert(pid, (child_seed, s));
                self.stage = SplitStage::Spawning;
            }
        }
    }

    /// Notes that the timeline that shares the map ended, with `code` where it ended
    /// by itself. `edges_new` tells whether it reached new edges of the code.
    pub fn child_ended(&mut self, state: &mut ExplorerState, code: Option<i32>, edges_new: bool)
        requires
            old(self).wf(),
            old(state).wf(),
        ensures
            final(self).wf(),
            final(state).wf(),
            (final(self)@, final(state)@) == child_ended(
                old(self)@,
                old(state)@,
                code,
                edges_new,
            ),
    {
        if let SplitStage::Forking { child_seed, slot } = self.stage {
            if slot.is_none() {
                let covered: Option<CoverageBitmap> = match &state.bitmap {
                    Some(b) => Some(b.copy()),
                    None => None,
                };
                let new: bool = learn(state, self.call_count, child_seed, covered, code);
                self.batch_has_new = self.batch_has_new || edges_new || new;
                self.stage = SplitStage::Spawning;
            }
        }
    }

    /// Notes that process `pid` ended, with `code` where it ended by itself, and
    /// covered `covered`. `edges_new` tells whether it reached new edges of the code.
    pub fn reaped(
        &mut self,
        state: &mut ExplorerState,
        pid: u64,
        code: Option<i32>,
        covered: CoverageBitmap,
        edges_new: bool,
    )
        requires
            old(self).wf(),
            old(state).wf(),
            covered.wf(),
        ensures
            final(self).wf(),
            final(state).wf(),
            (final(self)@, final(state)@) == reaped(
                old(self)@,
                old(state)@,
                pid,
                code,
                covered@,
                edges_new,
            ),
    {
        if let Some((child_seed, slot)) = self.active.remove(&pid) {
            let new: bool = learn(state, self.call_count, child_seed, Some(covered), code);
            self.batch_has_new = self.batch_has_new || edges_new || new;
            self.free_slots.push(slot);
        }
    }
}

/// Learns from a timeline that ended. Returns whether it covered something new.
fn learn(
    state: &mut ExplorerState,
    call_count: u64,
    child_seed: u64,
    covered: Option<CoverageBitmap>,
    code: Option<i32>,
) -> (new: bool)
    requires
        old(state).wf(),
        covered matches Some(c) ==> c.wf(),
    ensures
        final(state).wf(),
        new == covers_new(old(state)@, crate::context::opt_view(covered)),
        final(state)@ == learned(
            old(state)@,
            call_count,
            child_seed,
            crate::context::opt_view(covered),
            code,
        ),
{
    let mut new: bool = false;
    if let Some(explored) = &mut state.explored {
        if let Some(c) = &covered {
            new = explored.has_new_bits(c);
            explored.merge_from(c);
        }
    }
    let bug: bool = match code {
        Some(c) => c == BUG_EXIT_CODE,
        None => false,
    };
    if let Some(stats) = &mut state.stats {
        if bug {
            stats.bug_found = stats.bug_found.wrapping_add(1);
        }
        stats.fork_points = stats.fork_points.wrapping_add(1);
    }
    if bug {
        if let Some(recipe) = &mut state.recipe {
            save_bug_recipe(recipe, &state.ctx.recipe, call_count, child_seed);
        }
    }
    new
}

/// Sets up a process that was split off. The generator is to be reseeded with
/// `child_seed`.
pub fn setup_child(state: &mut ExplorerState, child_seed: u64, call_count: u64, own_map: bool)
    requires
        old(state).wf(),
        old(state)@.ctx.depth < u32::MAX,
    ensures
        final(state).wf(),
        final(state)@ == child_set_up(old(state)@, child_seed, call_count, own_map),
{
    state.ctx.is_child = true;
    state.ctx.depth = state.ctx.depth + 1;
    state.ctx.current_seed = child_seed;
    state.ctx.recipe.push((call_count, child_seed));
    if let Some(stats) = &mut state.stats {
        stats.total_timelines = stats.total_timelines.wrapping_add(1);
    }
    if own_map {
        state.bitmap = Some(CoverageBitmap::new());
    }
}

/// Begins a split into a fixed number of timelines. `call_count` is how often the
/// generator was called, and `slot_count` how many timelines may run beside each
/// other, none where they run one after the other.
pub fn split_on_discovery(
    state: &mut ExplorerState,
    mark_name: &str,
    call_count: u64,
    slot_count: usize,
) -> (run: Option<SplitRun>)
    requires
        old(state).wf(),
    ensures
        final(state).wf(),
        run matches Some(r) ==> r.wf(),
        (final(state)@, crate::context::opt_view(run)) == fixed_begun(
            old(state)@,
            mark_name@,
            call_count,
            slot_count,
        ),
{
    if !state.ctx.active || state.ctx.depth >= state.ctx.max_depth {
        return None;
    }
    let paid: bool = match &mut state.stats {
        Some(stats) => decrement_energy(stats),
        None => false,
    };
    if !paid {
        return None;
    }
    let plan = SplitPlan::Fixed { count: state.ctx.timelines_per_split };
    Some(SplitRun::begin(state, mark_name, call_count, plan, slot_count))
}

/// Begins an adaptive split.
pub fn adaptive_split_on_discovery(
    state: &mut ExplorerState,
    mark_name: &str,
    slot_idx: usize,
    call_count: u64,
    slot_count: usize,
) -> (run: Option<SplitRun>)
    requires
        old(state).wf(),
        plan_ends(adaptive_plan(old(state)@.ctx, slot_idx)),
    ensures
        final(state).wf(),
        run matches Some(r) ==> r.wf(),
        (final(state)@, crate::context::opt_view(run)) == adaptive_begun(
            old(state)@,
            mark_name@,
            slot_idx,
            call_count,
            slot_count,
        ),
{
    if !state.ctx.active || state.ctx.depth >= state.ctx.max_depth {
        return None;
    }
    match &mut state.energy {
        Some(budget) => init_mark_budget(budget, slot_idx),
        None => return None,
    }
    let plan = match state.ctx.adaptive {
        Some(a) => SplitPlan::Adaptive {
            slot_idx,
            batch_size: a.batch_size,
            min_timelines: a.min_timelines,
            max_timelines: a.max_timelines,
        },
        None => SplitPlan::Adaptive {
            slot_idx,
            batch_size: 4,
            min_timelines: 1,
            max_timelines: 16,
        },
    };
    Some(SplitRun::begin(state, mark_name, call_count, plan, slot_count))
}

/// Begins a split at a mark: an adaptive one where there are budgets for it, else one
/// into a fixed number of timelines.
pub fn dispatch_split(
    state: &mut ExplorerState,
    mark_name: &str,
    slot_idx: usize,
    call_count: u64,
    slot_count: usize,
) -> (run: Option<SplitRun>)
    requires
        old(state).wf(),
        plan_ends(adaptive_plan(old(state)@.ctx, slot_idx)),
    ensures
        final(state).wf(),
        run matches Some(r) ==> r.wf(),
        (final(state)@, crate::context::opt_view(run)) == split_begun(
            old(state)@,
            mark_name@,
            slot_idx,
            call_count,
            slot_count,
        ),
{
    if state.energy.is_some() {
        adaptive_split_on_discovery(state, mark_name, slot_idx, call_count, slot_count)
    } else {
        split_on_discovery(state, mark_name, call_count, slot_count)
    }
}

/// The multiplier of the hash has an inverse, so no two numbers are multiplied to
/// the same one.
proof fn lemma_mix_is_injective(h: u64, v: u64, w: u64)
    requires
        mixed(h, v) == mixed(h, w),
    ensures
        v == w,
{
    let a = h ^ v;
    let b = h ^ w;
    lemma_prime_undone(a);
    lemma_prime_undone(b);
    assert(v == w) by (bit_vector)
        requires
            h ^ v == h ^ w,
    ;
}

/// Multiplying by the inverse of the multiplier gives back what was multiplied.
pub proof fn lemma_prime_undone(a: u64)
    ensures
        (a.wrapping_mul(FNV64_PRIME) as int * 0xce965057aff6957b) % 0x1_0000_0000_0000_0000 == a,
{
    let m: int = 0x1_0000_0000_0000_0000;
    let p: int = FNV64_PRIME as int;
    let inv: int = 0xce965057aff6957b;
    let k: int = 0xce9650590f;
    assert(p * inv == 1 + k * m);
    assert(a.wrapping_mul(FNV64_PRIME) == (a * p) % m);
    vstd::arithmetic::div_mod::lemma_mul_mod_noop_left(a * p, inv, m);
    assert((a * p) * inv == a * (p * inv)) by (nonlinear_arith);
    assert(a * (1 + k * m) == m * (a * k) + a) by (nonlinear_arith);
    vstd::arithmetic::div_mod::lemma_mod_multiples_vanish(a * k, a as int, m);
}

/// Timelines that are split off at one mark have different seeds, and so do the
/// timelines with one index of parents with different seeds.
pub proof fn lemma_child_seeds_differ(parent: u64, other: u64, name: Seq<char>, i: u32, j: u32)
    ensures
        i != j ==> child_seed_of(parent, name, i) != child_seed_of(parent, name, j),
        parent != other ==> child_seed_of(parent, name, i) != child_seed_of(other, name, i),
{
    let h = fnv64(FNV64_OFFSET, vstd::utf8::encode_utf8(name));
    if child_seed_of(parent, name, i) == child_seed_of(parent, name, j) {
        lemma_mix_is_injective(mixed(h, parent), i as u64, j as u64);
    }
    if child_seed_of(parent, name, i) == child_seed_of(other, name, i) {
        let a = mixed(h, parent);
        let b = mixed(h, other);
        let x = i as u64;
        lemma_prime_undone(a ^ x);
        lemma_prime_undone(b ^ x);
        assert(a == b) by (bit_vector)
            requires
                a ^ x == b ^ x,
        ;
        lemma_mix_is_injective(h, parent, other);
    }
}

/// What an adaptive split may still spend.
pub open spec fn global_left(e: ExplorerView) -> int {
    match e.energy {
        Some(b) => b.global_remaining as int,
        None => 0,
    }
}

/// What a split into a fixed number of timelines may still spend.
pub open spec fn energy_left(e: ExplorerView) -> int {
    match e.stats {
        Some(s) => s.global_energy as int,
        None => 0,
    }
}

/// Every decision splits off at most one timeline, and every timeline costs one unit
/// of global energy, which is never overdrawn. A fixed number of timelines is never
/// exceeded, nor is the most that an adaptive split may make.
pub proof fn lemma_timelines_cost_energy(r: RunView, e: ExplorerView)
    requires
        r.spawned < u32::MAX,
        plan_ends(r.plan),
        r.batch_start <= r.spawned,
    ensures
        ({
            let d = decided(r, e);
            let made = d.run.spawned - r.spawned;
            &&& made == 0 || made == 1
            &&& r.plan is Adaptive ==> global_left(d.state) == global_left(e) - made
            &&& r.plan is Adaptive && global_left(e) >= 0 ==> global_left(d.state) >= 0
            &&& r.plan is Fixed && r.spawned > 0 ==> energy_left(d.state) == energy_left(e) - made
            &&& r.plan is Fixed && energy_left(e) >= 0 ==> energy_left(d.state) >= 0
            &&& r.plan is Fixed && r.spawned <= r.plan->count ==> d.run.spawned
                <= r.plan->count
            &&& r.plan is Adaptive && r.spawned <= r.plan->max_timelines ==> d.run.spawned
                <= r.plan->max_timelines
        }),
{
}

/// The slot of the timeline that is being split off, where it has one.
pub open spec fn pending_slot(r: RunView) -> Option<usize> {
    match r.stage {
        SplitStage::Forking { slot, .. } => slot,
        _ => None,
    }
}

/// No two timelines have the same slot: those that run, the one that is being split
/// off, and the free slots are all apart.
pub open spec fn slots_apart(r: RunView) -> bool {
    &&& r.free_slots.no_duplicates()
    &&& forall|p: u64, q: u64|
        r.active.contains_key(p) && r.active.contains_key(q) && p != q ==> (
        #[trigger] r.active[p]).1 != (#[trigger] r.active[q]).1
    &&& forall|p: u64, i: int|
        r.active.contains_key(p) && 0 <= i < r.free_slots.len() ==> (#[trigger] r.active[p]).1
            != #[trigger] r.free_slots[i]
    &&& pending_slot(r) matches Some(slot) ==> {
        &&& forall|i: int| 0 <= i < r.free_slots.len() ==> #[trigger] r.free_slots[i] != slot
        &&& forall|p: u64| r.active.contains_key(p) ==> (#[trigger] r.active[p]).1 != slot
    }
}

/// Timelines that run beside each other never cover the same map: a split begins with
/// its slots apart, and everything that happens to it keeps them apart.
pub proof fn lemma_slots_stay_apart(
    r: RunView,
    e: ExplorerView,
    pid: u64,
    code: Option<i32>,
    covered: Set<int>,
    edges_new: bool,
)
    requires
        slots_apart(r),
    ensures
        slots_apart(decided(r, e).run),
        slots_apart(fork_failed(r)),
        !r.active.contains_key(pid) ==> slots_apart(forked(r, pid)),
        slots_apart(child_ended(r, e, code, edges_new).0),
        slots_apart(reaped(r, e, pid, code, covered, edges_new).0),
{
    let d = decided(r, e).run;
    assert(slots_apart(d)) by {
        if d.free_slots != r.free_slots {
            let n = r.free_slots.len();
            assert(r.free_slots[n - 1] == r.free_slots.last());
            assert forall|i: int| 0 <= i < d.free_slots.len() implies d.free_slots[i]
                == r.free_slots[i] by {}
        }
    }
    let a = reaped(r, e, pid, code, covered, edges_new).0;
    assert(slots_apart(a)) by {
        if r.active.contains_key(pid) {
            assert forall|i: int| 0 <= i < r.free_slots.len() implies a.free_slots[i]
                == r.free_slots[i] by {}
        }
    }
}

/// A split begins with its slots apart.
pub proof fn lemma_slots_begin_apart(
    e: ExplorerView,
    mark_name: Seq<char>,
    call_count: u64,
    plan: SplitPlan,
    slot_count: usize,
)
    ensures
        slots_apart(begun(e, mark_name, call_count, plan, slot_count)),
{
}

/// What a timeline taught stays known, the first bug wins, and a timeline that covered
/// nothing new teaches no coverage.
pub proof fn lemma_learning_accumulates(
    e: ExplorerView,
    call_count: u64,
    child_seed: u64,
    covered: Option<Set<int>>,
    code: Option<i32>,
)
    ensures
        ({
            let after = learned(e, call_count, child_seed, covered, code);
            &&& e.explored matches Some(seen) ==> after.explored matches Some(now)
                && seen.subset_of(now)
            &&& !covers_new(after, covered)
            &&& !covers_new(e, covered) ==> after.explored == e.explored
            &&& e.recipe is Some && e.recipe->0.claimed ==> after.recipe == e.recipe
            &&& code != Some(BUG_EXIT_CODE) ==> after.recipe == e.recipe
        }),
{
    if !covers_new(e, covered) {
        match (e.explored, covered) {
            (Some(seen), Some(c)) => {
                assert(seen.union(c) =~= seen);
            },
            _ => {},
        }
    }
}

/// Something that happens to a split. What the timelines share may change between two
/// of them, so each says what state it meets.
pub ghost enum SplitMove {
    /// The next action is decided.
    Decide { state: ExplorerView },
    /// A timeline could not be made.
    ForkFailed,
    /// A timeline runs beside this one.
    Forked { pid: u64 },
    /// The timeline that shares the map ended.
    ChildEnded { state: ExplorerView, code: Option<i32>, edges_new: bool },
    /// A timeline that runs beside this one ended.
    Reaped {
        state: ExplorerView,
        pid: u64,
        code: Option<i32>,
        covered: Set<int>,
        edges_new: bool,
    },
}

/// What became of a split and its timelines.
#[verifier::ext_equal]
pub ghost struct Tally {
    pub run: RunView,
    /// The timelines that ran beside this one, in the order in which they began.
    pub begun: Seq<u64>,
    /// Those that were waited for, in the order in which they ended.
    pub ended: Seq<u64>,
    /// How many ran one after the other.
    pub alone: nat,
    /// How many could not be made.
    pub failed: nat,
}

/// A split to which something more happened.
pub open spec fn moved_on(t: Tally, m: SplitMove) -> Tally {
    match m {
        SplitMove::Decide { state } => Tally { run: decided(t.run, state).run, ..t },
        SplitMove::ForkFailed => Tally {
            run: fork_failed(t.run),
            failed: if t.run.stage is Forking {
                t.failed + 1
            } else {
                t.failed
            },
            ..t
        },
        SplitMove::Forked { pid } => Tally {
            run: forked(t.run, pid),
            begun: if pending_slot(t.run) is Some {
                t.begun.push(pid)
            } else {
                t.begun
            },
            ..t
        },
        SplitMove::ChildEnded { state, code, edges_new } => Tally {
            run: child_ended(t.run, state, code, edges_new).0,
            alone: if t.run.stage is Forking && pending_slot(t.run) is None {
                t.alone + 1
            } else {
                t.alone
            },
            ..t
        },
        SplitMove::Reaped { state, pid, code, covered, edges_new } => Tally {
            run: reaped(t.run, state, pid, code, covered, edges_new).0,
            ended: if t.run.active.contains_key(pid) {
                t.ended.push(pid)
            } else {
                t.ended
            },
            ..t
        },
    }
}

/// A split after all that happened to it.
pub open spec fn tallied(r: RunView, moves: Seq<SplitMove>) -> Tally
    decreases moves.len(),
{
    if moves.len() == 0 {
        Tally { run: r, begun: Seq::empty(), ended: Seq::empty(), alone: 0, failed: 0 }
    } else {
        moved_on(tallied(r, moves.drop_last()), moves.last())
    }
}

/// No timeline gets the number of one that still runs.
pub open spec fn pids_fresh(r: RunView, moves: Seq<SplitMove>) -> bool
    decreases moves.len(),
{
    moves.len() > 0 ==> pids_fresh(r, moves.drop_last()) && (moves.last() matches SplitMove::Forked {
        pid,
    } ==> !tallied(r, moves.drop_last()).run.active.contains_key(pid))
}

/// The most timelines of a plan.
pub open spec fn most_timelines(plan: SplitPlan) -> nat {
    match plan {
        SplitPlan::Fixed { count } => count as nat,
        SplitPlan::Adaptive { max_timelines, .. } => max_timelines as nat,
    }
}

/// How many timelines are paid for and neither made nor given up yet.
pub open spec fn outstanding(r: RunView) -> nat {
    if r.stage is NeedSlot || r.stage is Forking {
        1
    } else {
        0
    }
}

/// How often a process is among others.
pub open spec fn times(pids: Seq<u64>, pid: u64) -> nat
    decreases pids.len(),
{
    if pids.len() == 0 {
        0
    } else {
        times(pids.drop_last(), pid) + if pids.last() == pid {
            1nat
        } else {
            0nat
        }
    }
}

/// Each timeline is accounted for.
pub open spec fn adds_up(t: Tally) -> bool {
    &&& t.run.active.dom().finite()
    &&& t.run.batch_start <= t.run.spawned
    &&& t.run.spawned <= most_timelines(t.run.plan)
    &&& t.begun.len() + t.alone + t.failed + outstanding(t.run) == t.run.spawned
    &&& forall|pid: u64| #[trigger]
        times(t.begun, pid) == times(t.ended, pid) + if t.run.active.contains_key(pid) {
            1nat
        } else {
            0nat
        }
    &&& t.run.stage is Finished ==> t.run.active.dom() == Set::<u64>::empty()
}

proof fn lemma_times_push(pids: Seq<u64>, p: u64, pid: u64)
    ensures
        times(pids.push(p), pid) == times(pids, pid) + if p == pid {
            1nat
        } else {
            0nat
        },
{
    assert(pids.push(p).drop_last() =~= pids);
}

proof fn lemma_move_adds_up(t: Tally, m: SplitMove)
    requires
        adds_up(t),
        plan_ends(t.run.plan),
        m matches SplitMove::Forked { pid } ==> !t.run.active.contains_key(pid),
    ensures
        adds_up(moved_on(t, m)),
        moved_on(t, m).run.plan == t.run.plan,
        moved_on(t, m).run.parallel == t.run.parallel,
        moved_on(t, m).run.backup == t.run.backup,
{
    let u = moved_on(t, m);
    match m {
        SplitMove::Forked { pid } => {
            if pending_slot(t.run) is Some {
                assert forall|q: u64| #[trigger] times(u.begun, q) == times(u.ended, q)
                    + if u.run.active.contains_key(q) {
                    1nat
                } else {
                    0nat
                } by {
                    lemma_times_push(t.begun, pid, q);
                    assert(times(t.begun, q) == times(t.ended, q) + if t.run.active.contains_key(q) {
                        1nat
                    } else {
                        0nat
                    });
                }
            }
        },
        SplitMove::Reaped { state, pid, code, covered, edges_new } => {
            if t.run.active.contains_key(pid) {
                assert forall|q: u64| #[trigger] times(u.begun, q) == times(u.ended, q)
                    + if u.run.active.contains_key(q) {
                    1nat
                } else {
                    0nat
                } by {
                    lemma_times_push(t.ended, pid, q);
                    assert(times(t.begun, q) == times(t.ended, q) + if t.run.active.contains_key(q) {
                        1nat
                    } else {
                        0nat
                    });
                }
            }
        },
        SplitMove::Decide { state } => {
            assert(u.run.active == t.run.active);
            if u.run.stage is Finished && !(t.run.stage is Finished) {
                assert(t.run.active.dom() =~= Set::<u64>::empty());
            }
        },
        _ => {},
    }
}

/// The law of a whole split, whatever happened to it: there are never more timelines than
/// the plan allows; each timeline that was paid for ran, could not be made, or is just
/// being made; each one that ran beside this one is waited for as often as it began, or
/// still runs; and when the split is over none runs any more.
pub proof fn lemma_split_adds_up(
    e: ExplorerView,
    mark_name: Seq<char>,
    call_count: u64,
    plan: SplitPlan,
    slot_count: usize,
    moves: Seq<SplitMove>,
)
    requires
        plan_ends(plan),
        pids_fresh(begun(e, mark_name, call_count, plan, slot_count), moves),
    ensures
        ({
            let t = tallied(begun(e, mark_name, call_count, plan, slot_count), moves);
            &&& adds_up(t)
            &&& t.begun.len() + t.alone <= most_timelines(plan)
            &&& t.run.stage is Finished ==> forall|pid: u64| #[trigger]
                times(t.begun, pid) == times(t.ended, pid)
            &&& t.run.plan == plan
            &&& t.run.parallel == (slot_count > 0)
            &&& t.run.backup == (if slot_count > 0 {
                None
            } else {
                e.bitmap
            })
        }),
    decreases moves.len(),
{
    let r = begun(e, mark_name, call_count, plan, slot_count);
    if moves.len() > 0 {
        lemma_split_adds_up(e, mark_name, call_count, plan, slot_count, moves.drop_last());
        lemma_move_adds_up(tallied(r, moves.drop_last()), moves.last());
    } else {
        assert(r.active.dom() =~= Set::<u64>::empty());
    }
    let t = tallied(r, moves);
    if t.run.stage is Finished {
        assert forall|pid: u64| #[trigger] times(t.begun, pid) == times(t.ended, pid) by {
            assert(!t.run.active.dom().contains(pid));
        }
    }
}

/// When a split is over, this timeline covers what it covered when the split began,
/// whatever its timelines covered in its map meanwhile. Timelines with maps of their own
/// never touched it.
pub proof fn lemma_map_is_restored(
    e: ExplorerView,
    mark_name: Seq<char>,
    call_count: u64,
    plan: SplitPlan,
    slot_count: usize,
    moves: Seq<SplitMove>,
    now: ExplorerView,
)
    requires
        plan_ends(plan),
        pids_fresh(begun(e, mark_name, call_count, plan, slot_count), moves),
        now.bitmap is Some == e.bitmap is Some,
        slot_count > 0 ==> now.bitmap == e.bitmap,
    ensures
        ({
            let r = tallied(begun(e, mark_name, call_count, plan, slot_count), moves).run;
            !(r.stage is Finished) && decided(r, now).action is Done ==> decided(
                r,
                now,
            ).state.bitmap == e.bitmap
        }),
{
    lemma_split_adds_up(e, mark_name, call_count, plan, slot_count, moves);
}

} // verus!
