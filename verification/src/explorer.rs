//! Starting and ending an exploration, and going from one seed to the next.

use crate::assertion_slots::{slots_for_next_seed, AssertionTable, SlotView};
use crate::context::{idle_explorer, CtxView, ExplorerState, ExplorerView};
use crate::coverage::{CoverageBitmap, ExploredMap};
use crate::each_buckets::{buckets_for_next_seed, BucketView, EachTable};
use crate::energy::{fresh_energy, init_energy_budget, reset_energy_budget};
use crate::shared_stats::{
    init_shared_recipe, init_shared_stats, reset_shared_recipe, reset_shared_stats, RecipeView,
    SharedStats,
};
use crate::split_config::ExplorationConfig;
use vstd::prelude::*;

verus! {

/// Assertions are tracked, from the start where they were not.
pub open spec fn tracking(e: ExplorerView) -> ExplorerView {
    match e.assertions {
        Some(slots) => e,
        None => ExplorerView {
            assertions: Some(Seq::empty()),
            each_buckets: Some(Seq::empty()),
            ..e
        },
    }
}

/// Assertions are not tracked.
pub open spec fn not_tracking(e: ExplorerView) -> ExplorerView {
    ExplorerView { assertions: None, each_buckets: None, ..e }
}

/// What was tracked is forgotten.
pub open spec fn tracking_reset(e: ExplorerView) -> ExplorerView {
    ExplorerView {
        assertions: match e.assertions {
            Some(slots) => Some(Seq::empty()),
            None => None,
        },
        each_buckets: match e.each_buckets {
            Some(buckets) => Some(Seq::empty()),
            None => None,
        },
        ..e
    }
}

/// Counters that start with some energy.
pub open spec fn fresh_stats(energy: i64) -> SharedStats {
    SharedStats { global_energy: energy, total_timelines: 0, fork_points: 0, bug_found: 0 }
}

/// An exploration is under way.
pub open spec fn exploring(e: ExplorerView, config: ExplorationConfig) -> ExplorerView {
    let t = tracking(e);
    ExplorerView {
        assertions: t.assertions,
        each_buckets: t.each_buckets,
        bitmap: Some(Set::empty()),
        explored: Some(Set::empty()),
        stats: Some(fresh_stats(config.global_energy)),
        recipe: Some(RecipeView { claimed: false, entries: Seq::empty() }),
        energy: match config.adaptive {
            Some(a) => Some(fresh_energy(config.global_energy, a.per_mark_energy)),
            None => None,
        },
        ctx: CtxView {
            active: true,
            is_child: false,
            depth: 0,
            max_depth: config.max_depth,
            current_seed: 0,
            recipe: Seq::empty(),
            timelines_per_split: config.timelines_per_split,
            adaptive: config.adaptive,
            parallelism: config.parallelism,
            warm_start: false,
        },
    }
}

/// No exploration is under way any more.
pub open spec fn explored_out(e: ExplorerView) -> ExplorerView {
    ExplorerView { ctx: CtxView { active: false, ..e.ctx }, ..idle_explorer() }
}

/// The exploration is ready for another seed: what was learned stays, what belongs
/// to one seed starts anew.
pub open spec fn next_seed(e: ExplorerView, energy: i64) -> ExplorerView {
    ExplorerView {
        assertions: match e.assertions {
            Some(slots) => Some(slots_for_next_seed(slots)),
            None => None,
        },
        each_buckets: match e.each_buckets {
            Some(buckets) => Some(buckets_for_next_seed(buckets)),
            None => None,
        },
        bitmap: match e.bitmap {
            Some(b) => Some(Set::empty()),
            None => None,
        },
        explored: e.explored,
        stats: match e.stats {
            Some(s) => Some(fresh_stats(energy)),
            None => None,
        },
        recipe: match e.recipe {
            Some(r) => Some(RecipeView { claimed: false, ..r }),
            None => None,
        },
        energy: match e.energy {
            Some(b) => Some(fresh_energy(energy, b.per_mark_initial)),
            None => None,
        },
        ctx: CtxView {
            is_child: false,
            depth: 0,
            current_seed: 0,
            recipe: Seq::empty(),
            warm_start: true,
            ..e.ctx
        },
    }
}

/// Starts tracking assertions, unless they are tracked already.
pub fn init_assertions(state: &mut ExplorerState)
    requires
        old(state).wf(),
    ensures
        final(state).wf(),
        final(state)@ == tracking(old(state)@),
{
    if state.assertions.is_none() {
        state.assertions = Some(AssertionTable::new());
        state.each_buckets = Some(EachTable::new());
    }
}

/// Stops tracking assertions.
pub fn cleanup_assertions(state: &mut ExplorerState)
    requires
        old(state).wf(),
    ensures
        final(state).wf(),
        final(state)@ == not_tracking(old(state)@),
{
    state.assertions = None;
    state.each_buckets = None;
}

/// Forgets what was tracked.
pub fn reset_assertions(state: &mut ExplorerState)
    requires
        old(state).wf(),
    ensures
        final(state).wf(),
        final(state)@ == tracking_reset(old(state)@),
{
    if state.assertions.is_some() {
        state.assertions = Some(AssertionTable::new());
    }
    if state.each_buckets.is_some() {
        state.each_buckets = Some(EachTable::new());
    }
}

/// Starts an exploration.
pub fn init(state: &mut ExplorerState, config: ExplorationConfig)
    requires
        old(state).wf(),
    ensures
        final(state).wf(),
        final(state)@ == exploring(old(state)@, config),
{
    init_assertions(state);
    state.stats = Some(init_shared_stats(config.global_energy));
    state.recipe = Some(init_shared_recipe());
    state.explored = Some(ExploredMap::new());
    state.bitmap = Some(CoverageBitmap::new());
    state.energy = match config.adaptive {
        Some(a) => Some(init_energy_budget(config.global_energy, a.per_mark_energy)),
        None => None,
    };
    state.ctx.active = true;
    state.ctx.is_child = false;
    state.ctx.depth = 0;
    state.ctx.max_depth = config.max_depth;
    state.ctx.current_seed = 0;
    state.ctx.recipe.clear();
    state.ctx.timelines_per_split = config.timelines_per_split;
    state.ctx.adaptive = config.adaptive;
    state.ctx.parallelism = config.parallelism;
    state.ctx.warm_start = false;
}

/// Ends an exploration.
pub fn cleanup(state: &mut ExplorerState)
    requires
        old(state).wf(),
    ensures
        final(state).wf(),
        final(state)@ == explored_out(old(state)@),
{
    state.ctx.active = false;
    state.stats = None;
    state.recipe = None;
    state.explored = None;
    state.bitmap = None;
    state.energy = None;
    cleanup_assertions(state);
}

/// Makes the exploration ready for another seed.
pub fn prepare_next_seed(state: &mut ExplorerState, per_seed_energy: i64)
    requires
        old(state).wf(),
    ensures
        final(state).wf(),
        final(state)@ == next_seed(old(state)@, per_seed_energy),
{
    if let Some(table) = &mut state.assertions {
        table.start_next_seed();
    }
    if let Some(table) = &mut state.each_buckets {
        table.start_next_seed();
    }
    if let Some(bitmap) = &mut state.bitmap {
        bitmap.clear();
    }
    if let Some(budget) = &mut state.energy {
        reset_energy_budget(budget, per_seed_energy);
    }
    if let Some(stats) = &mut state.stats {
        reset_shared_stats(stats, per_seed_energy);
    }
    if let Some(recipe) = &mut state.recipe {
        reset_shared_recipe(recipe);
    }
    state.ctx.is_child = false;
    state.ctx.depth = 0;
    state.ctx.current_seed = 0;
    state.ctx.recipe.clear();
    state.ctx.warm_start = true;
}

/// Between seeds, coverage, watermarks, frontiers and best qualities stay; every
/// mark may ask for a split again.
pub proof fn lemma_next_seed_keeps_progress(e: ExplorerView, energy: i64)
    ensures
        next_seed(e, energy).explored == e.explored,
        e.assertions matches Some(slots) ==> next_seed(e, energy).assertions matches Some(after)
            && after.len() == slots.len() && forall|i: int|
            0 <= i < slots.len() ==> {
                let s: SlotView = #[trigger] after[i];
                &&& s.msg_hash == slots[i].msg_hash
                &&& s.watermark == slots[i].watermark
                &&& s.fork_watermark == slots[i].fork_watermark
                &&& s.frontier == slots[i].frontier
                &&& s.fork_triggered == 0 && s.pass_count == 0 && s.fail_count == 0
            },
        e.each_buckets matches Some(buckets) ==> next_seed(e, energy).each_buckets matches Some(
            after,
        ) && after.len() == buckets.len() && forall|i: int|
            0 <= i < buckets.len() ==> {
                let b: BucketView = #[trigger] after[i];
                &&& b.best_score == buckets[i].best_score
                &&& b.key_values == buckets[i].key_values
                &&& b.fork_triggered == 0 && b.pass_count == 0
            },
{
}

/// Ending an exploration undoes starting one, but for what the process knows of its
/// settings.
pub proof fn lemma_cleanup_undoes_init(e: ExplorerView, config: ExplorationConfig)
    ensures
        ({
            let after = explored_out(exploring(e, config));
            &&& !after.ctx.active
            &&& after == ExplorerView { ctx: after.ctx, ..idle_explorer() }
        }),
{
}

/// To start tracking assertions twice is to start once.
pub proof fn lemma_tracking_is_idempotent(e: ExplorerView)
    ensures
        tracking(tracking(e)) == tracking(e),
{
}

} // verus!
