//! Counters of the exploration and the recipe of the first bug.

use crate::energy::EnergyBudget;
use vstd::prelude::*;

verus! {

/// The most entries of a recipe that are kept.
pub const MAX_RECIPE_ENTRIES: usize = 128;

/// Counters that all timelines of an exploration share.
#[derive(Debug, Clone, Copy, PartialEq, Eq, Structural)]
pub struct SharedStats {
    /// The energy that is left.
    pub global_energy: i64,
    /// Timelines that were run.
    pub total_timelines: u64,
    /// Timelines that were split off and came back.
    pub fork_points: u64,
    /// Timelines that found a bug.
    pub bug_found: u64,
}

/// The recipe of the first bug.
#[derive(Debug)]
pub struct SharedRecipe {
    /// Whether a bug was found.
    pub claimed: bool,
    /// The recipe: at which call of the generator it was reseeded with what.
    pub entries: Vec<(u64, u64)>,
}

/// What a [`SharedRecipe`] says.
#[verifier::ext_equal]
pub ghost struct RecipeView {
    pub claimed: bool,
    pub entries: Seq<(u64, u64)>,
}

impl View for SharedRecipe {
    type V = RecipeView;

    open spec fn view(&self) -> RecipeView {
        RecipeView { claimed: self.claimed, entries: self.entries@ }
    }
}

/// A summary of an exploration.
#[derive(Debug, Clone, Copy, PartialEq, Eq, Structural)]
pub struct ExplorationStats {
    /// The energy that is left.
    pub global_energy: i64,
    /// Timelines that were run.
    pub total_timelines: u64,
    /// Timelines that were split off and came back.
    pub fork_points: u64,
    /// Timelines that found a bug.
    pub bug_found: u64,
    /// What marks gave back.
    pub realloc_pool_remaining: i64,
    /// Edges of the instrumented code.
    pub sancov_edges_total: usize,
    /// Edges that were seen.
    pub sancov_edges_covered: usize,
}

/// Counters that start with some energy.
pub fn init_shared_stats(energy: i64) -> (s: SharedStats)
    ensures
        s == (SharedStats { global_energy: energy, total_timelines: 0, fork_points: 0, bug_found: 0 }),
{
    SharedStats { global_energy: energy, total_timelines: 0, fork_points: 0, bug_found: 0 }
}

/// An empty recipe.
pub fn init_shared_recipe() -> (r: SharedRecipe)
    ensures
        r@ == (RecipeView { claimed: false, entries: Seq::empty() }),
{
    SharedRecipe { claimed: false, entries: Vec::new() }
}

/// Whether there is energy for a timeline, and the counters after one unit of it was
/// taken. Nothing is taken where there is none.
pub open spec fn energy_taken(s: SharedStats) -> (bool, SharedStats) {
    if s.global_energy > 0 {
        (true, SharedStats { global_energy: (s.global_energy - 1) as i64, ..s })
    } else {
        (false, s)
    }
}

/// Takes one unit of energy. Returns whether there was one.
pub fn decrement_energy(stats: &mut SharedStats) -> (paid: bool)
    ensures
        (paid, *final(stats)) == energy_taken(*old(stats)),
{
    if stats.global_energy > 0 {
        stats.global_energy = stats.global_energy - 1;
        true
    } else {
        false
    }
}

/// Starts the counters anew with some energy.
pub fn reset_shared_stats(stats: &mut SharedStats, new_energy: i64)
    ensures
        *final(stats) == (SharedStats {
            global_energy: new_energy,
            total_timelines: 0,
            fork_points: 0,
            bug_found: 0,
        }),
{
    stats.global_energy = new_energy;
    stats.total_timelines = 0;
    stats.fork_points = 0;
    stats.bug_found = 0;
}

/// Makes room for the recipe of another bug.
pub fn reset_shared_recipe(recipe: &mut SharedRecipe)
    ensures
        final(recipe)@ == (RecipeView { claimed: false, ..old(recipe)@ }),
{
    recipe.claimed = false;
}

/// A summary of an exploration, where one is under way.
pub fn get_exploration_stats(
    stats: &Option<SharedStats>,
    energy: &Option<EnergyBudget>,
    edges_total: usize,
    edges_covered: usize,
) -> (r: Option<ExplorationStats>)
    ensures
        match *stats {
            Some(s) => r == Some(
                ExplorationStats {
                    global_energy: s.global_energy,
                    total_timelines: s.total_timelines,
                    fork_points: s.fork_points,
                    bug_found: s.bug_found,
                    realloc_pool_remaining: match *energy {
                        Some(e) => e.realloc_pool,
                        None => 0,
                    },
                    sancov_edges_total: edges_total,
                    sancov_edges_covered: edges_covered,
                },
            ),
            None => r is None,
        },
{
    match stats {
        Some(s) => {
            let pool: i64 = match energy {
                Some(e) => e.realloc_pool,
                None => 0,
            };
            Some(
                ExplorationStats {
                    global_energy: s.global_energy,
                    total_timelines: s.total_timelines,
                    fork_points: s.fork_points,
                    bug_found: s.bug_found,
                    realloc_pool_remaining: pool,
                    sancov_edges_total: edges_total,
                    sancov_edges_covered: edges_covered,
                },
            )
        },
        None => None,
    }
}

/// The recipe of the first bug, where one was found.
pub fn get_bug_recipe(recipe: &Option<SharedRecipe>) -> (r: Option<Vec<(u64, u64)>>)
    ensures
        match r {
            Some(entries) => *recipe matches Some(r0) && r0@.claimed && entries@ == r0@.entries,
            None => *recipe matches Some(r0) ==> !r0@.claimed,
        },
{
    match recipe {
        Some(r0) => {
            if r0.claimed {
                Some(copy_recipe(&r0.entries))
            } else {
                None
            }
        },
        None => None,
    }
}

/// A copy of a recipe.
pub fn copy_recipe(entries: &Vec<(u64, u64)>) -> (r: Vec<(u64, u64)>)
    ensures
        r@ == entries@,
{
    let mut r: Vec<(u64, u64)> = Vec::new();
    let mut i: usize = 0;
    while i < entries.len()
        invariant
            i <= entries@.len(),
            r@ == entries@.take(i as int),
        decreases entries@.len() - i,
    {
        r.push(entries[i]);
        assert(entries@.take(i + 1) =~= entries@.take(i as int).push(entries@[i as int]));
        i += 1;
    }
    assert(entries@.take(i as int) =~= entries@);
    r
}

/// The recipe of a bug at the end of a timeline: how the timeline came about, cut
/// to what is kept, and the split that led to the bug.
pub open spec fn bug_entries(path: Seq<(u64, u64)>, last: (u64, u64)) -> Seq<(u64, u64)> {
    let kept: int = if path.len() < MAX_RECIPE_ENTRIES {
        path.len() as int
    } else {
        MAX_RECIPE_ENTRIES - 1
    };
    path.take(kept).push(last)
}

/// Keeps the recipe of a bug, unless one was kept before.
pub fn save_bug_recipe(
    recipe: &mut SharedRecipe,
    path: &Vec<(u64, u64)>,
    split_call_count: u64,
    child_seed: u64,
)
    ensures
        final(recipe)@ == (if old(recipe)@.claimed {
            old(recipe)@
        } else {
            RecipeView {
                claimed: true,
                entries: bug_entries(path@, (split_call_count, child_seed)),
            }
        }),
{
    if !recipe.claimed {
        recipe.claimed = true;
        let mut entries = copy_recipe(path);
        entries.truncate(MAX_RECIPE_ENTRIES - 1);
        entries.push((split_call_count, child_seed));
        assert(entries@ =~= bug_entries(path@, (split_call_count, child_seed)));
        recipe.entries = entries;
    }
}

/// The first bug wins: once a recipe is kept, no other bug replaces it, and it
/// never grows beyond what is kept.
pub proof fn lemma_bug_entries_bounded(path: Seq<(u64, u64)>, last: (u64, u64))
    ensures
        1 <= bug_entries(path, last).len() <= MAX_RECIPE_ENTRIES,
        bug_entries(path, last).last() == last,
        path.len() < MAX_RECIPE_ENTRIES ==> bug_entries(path, last) == path.push(last),
{
    if path.len() < MAX_RECIPE_ENTRIES {
        assert(bug_entries(path, last) =~= path.push(last));
    }
}

} // verus!
