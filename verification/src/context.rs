//! The state of an exploration in one process.

use crate::assertion_slots::{AssertionTable, SlotView};
use crate::coverage::{CoverageBitmap, ExploredMap};
use crate::each_buckets::{BucketView, EachTable};
use crate::energy::{EnergyBudget, EnergyView};
use crate::shared_stats::{RecipeView, SharedRecipe, SharedStats};
use crate::split_config::{AdaptiveConfig, Parallelism};
use vstd::prelude::*;

verus! {

/// Where a process stands in an exploration.
#[derive(Debug)]
pub struct ExplorerCtx {
    /// Whether an exploration is under way.
    pub active: bool,
    /// Whether this process was split off.
    pub is_child: bool,
    /// How many splits led here.
    pub depth: u32,
    /// How many splits may lead anywhere.
    pub max_depth: u32,
    /// The seed that the generator was last reseeded with.
    pub current_seed: u64,
    /// The splits that led here: at which call of the generator it was reseeded
    /// with what.
    pub recipe: Vec<(u64, u64)>,
    /// Timelines per split, where splitting is not adaptive.
    pub timelines_per_split: u32,
    /// Adaptive splitting, where wanted.
    pub adaptive: Option<AdaptiveConfig>,
    /// How many timelines run at a time, where more than one.
    pub parallelism: Option<Parallelism>,
    /// Whether what earlier seeds explored is known.
    pub warm_start: bool,
}

/// What an [`ExplorerCtx`] says.
#[verifier::ext_equal]
pub ghost struct CtxView {
    pub active: bool,
    pub is_child: bool,
    pub depth: u32,
    pub max_depth: u32,
    pub current_seed: u64,
    pub recipe: Seq<(u64, u64)>,
    pub timelines_per_split: u32,
    pub adaptive: Option<AdaptiveConfig>,
    pub parallelism: Option<Parallelism>,
    pub warm_start: bool,
}

impl View for ExplorerCtx {
    type V = CtxView;

    open spec fn view(&self) -> CtxView {
        CtxView {
            active: self.active,
            is_child: self.is_child,
            depth: self.depth,
            max_depth: self.max_depth,
            current_seed: self.current_seed,
            recipe: self.recipe@,
            timelines_per_split: self.timelines_per_split,
            adaptive: self.adaptive,
            parallelism: self.parallelism,
            warm_start: self.warm_start,
        }
    }
}

/// No exploration is under way.
pub open spec fn inactive_ctx() -> CtxView {
    CtxView {
        active: false,
        is_child: false,
        depth: 0,
        max_depth: 0,
        current_seed: 0,
        recipe: Seq::empty(),
        timelines_per_split: 0,
        adaptive: None,
        parallelism: None,
        warm_start: false,
    }
}

impl ExplorerCtx {
    /// No exploration is under way.
    pub fn inactive() -> (c: Self)
        ensures
            c@ == inactive_ctx(),
    {
        ExplorerCtx {
            active: false,
            is_child: false,
            depth: 0,
            max_depth: 0,
            current_seed: 0,
            recipe: Vec::new(),
            timelines_per_split: 0,
            adaptive: None,
            parallelism: None,
            warm_start: false,
        }
    }
}

/// How the exploration reads and reseeds the generator of the code under test.
pub struct RngHooks<C, S> {
    get_count: C,
    reseed: S,
}

impl<C: Fn() -> u64, S: Fn(u64)> RngHooks<C, S> {
    /// The function that counts the calls.
    pub closed spec fn get_count(&self) -> C {
        self.get_count
    }

    /// The function that reseeds.
    pub closed spec fn reseed(&self) -> S {
        self.reseed
    }
}

/// Sets how the generator is read and reseeded.
pub fn set_rng_hooks<C: Fn() -> u64, S: Fn(u64)>(get_count: C, reseed: S) -> (h: RngHooks<C, S>)
    ensures
        h.get_count() == get_count,
        h.reseed() == reseed,
{
    RngHooks { get_count, reseed }
}

/// The calls of the generator so far, as the hook tells them. That the hook is called just
/// once is left unsaid: a contract on a function value cannot count its calls.
pub fn rng_get_count<C: Fn() -> u64, S: Fn(u64)>(hooks: &RngHooks<C, S>) -> (n: u64)
    requires
        call_requires(hooks.get_count(), ()),
    ensures
        call_ensures(hooks.get_count(), (), n),
{
    (hooks.get_count)()
}

/// Reseeds the generator through the hook. That the hook is called just once is left
/// unsaid: a contract on a function value cannot count its calls.
pub fn rng_reseed<C: Fn() -> u64, S: Fn(u64)>(hooks: &RngHooks<C, S>, seed: u64)
    requires
        call_requires(hooks.reseed(), (seed,)),
    ensures
        call_ensures(hooks.reseed(), (seed,), ()),
{
    (hooks.reseed)(seed)
}

/// All that an exploration keeps: what its timelines share, and where this process
/// stands.
pub struct ExplorerState {
    /// The assertions, once tracking was started.
    pub assertions: Option<AssertionTable>,
    /// The buckets of the per-value assertions, once tracking was started.
    pub each_buckets: Option<EachTable>,
    /// What this timeline covered.
    pub bitmap: Option<CoverageBitmap>,
    /// What all timelines covered.
    pub explored: Option<ExploredMap>,
    /// The counters.
    pub stats: Option<SharedStats>,
    /// The recipe of the first bug.
    pub recipe: Option<SharedRecipe>,
    /// The budgets of adaptive splitting.
    pub energy: Option<EnergyBudget>,
    /// Where this process stands.
    pub ctx: ExplorerCtx,
}

/// What an [`ExplorerState`] says.
#[verifier::ext_equal]
pub ghost struct ExplorerView {
    pub assertions: Option<Seq<SlotView>>,
    pub each_buckets: Option<Seq<BucketView>>,
    pub bitmap: Option<Set<int>>,
    pub explored: Option<Set<int>>,
    pub stats: Option<SharedStats>,
    pub recipe: Option<RecipeView>,
    pub energy: Option<EnergyView>,
    pub ctx: CtxView,
}

/// The view of a value that may be missing.
pub open spec fn opt_view<T: View>(o: Option<T>) -> Option<T::V> {
    match o {
        Some(t) => Some(t@),
        None => None,
    }
}

impl View for ExplorerState {
    type V = ExplorerView;

    open spec fn view(&self) -> ExplorerView {
        ExplorerView {
            assertions: opt_view(self.assertions),
            each_buckets: opt_view(self.each_buckets),
            bitmap: opt_view(self.bitmap),
            explored: opt_view(self.explored),
            stats: self.stats,
            recipe: opt_view(self.recipe),
            energy: opt_view(self.energy),
            ctx: self.ctx@,
        }
    }
}

/// Nothing is tracked and nothing explored.
pub open spec fn idle_explorer() -> ExplorerView {
    ExplorerView {
        assertions: None,
        each_buckets: None,
        bitmap: None,
        explored: None,
        stats: None,
        recipe: None,
        energy: None,
        ctx: inactive_ctx(),
    }
}

impl ExplorerState {
    /// The parts are well formed.
    pub open spec fn wf(&self) -> bool {
        &&& self.assertions matches Some(t) ==> t.wf()
        &&& self.each_buckets matches Some(t) ==> t.wf()
        &&& self.bitmap matches Some(b) ==> b.wf()
        &&& self.explored matches Some(e) ==> e.wf()
        &&& self.energy matches Some(e) ==> e.wf()
    }

    /// Nothing is tracked and nothing explored.
    pub fn new() -> (s: Self)
        ensures
            s.wf(),
            s@ == idle_explorer(),
    {
        ExplorerState {
            assertions: None,
            each_buckets: None,
            bitmap: None,
            explored: None,
            stats: None,
            recipe: None,
            energy: None,
            ctx: ExplorerCtx::inactive(),
        }
    }
}

/// Whether an exploration is under way.
pub fn explorer_is_active(state: &ExplorerState) -> (b: bool)
    ensures
        b == state@.ctx.active,
{
    state.ctx.active
}

/// Whether this process was split off.
pub fn explorer_is_child(state: &ExplorerState) -> (b: bool)
    ensures
        b == state@.ctx.is_child,
{
    state.ctx.is_child
}

} // verus!
