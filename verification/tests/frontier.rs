//! Tests of the frontier controller, on a ladder of floors that is climbed by
//! chance.

use moonpool::context::ExplorerState;
use moonpool::controller::{
    DiscoveryEvent, ExplorationConfig, ExplorationStats, ExploreStep, Explorer, derive_seed,
};
use moonpool::each_buckets::assertion_sometimes_each;
use moonpool::explorer::init_assertions;
use moonpool::replay::format_timeline;
use moonpool::xorshift::{XorShift64, count, next_random, reseed};

const LADDER_FLOORS: u64 = 8;

fn ladder_config(workers: usize) -> ExplorationConfig {
    ExplorationConfig {
        workers,
        max_runs_per_seed: 2000,
        branching_factor: 4,
        max_frontier: 256,
        max_recipe_len: 32,
    }
}

struct Outcome {
    stats: ExplorationStats,
    bug_recipes: Vec<Vec<(u64, u64)>>,
    deepest_floor: i64,
    tracked_states: usize,
}

/// A draw that follows a recipe: at the given calls the generator is reseeded.
fn draw(rng: &mut XorShift64, recipe: &[(u64, u64)], next: &mut usize) -> u64 {
    while *next < recipe.len() && count(rng) == recipe[*next].0 {
        reseed(rng, recipe[*next].1);
        *next += 1;
    }
    next_random(rng)
}

/// Climbs as far as chance allows. Returns what was discovered, the floor that was
/// reached, and whether it is the last one.
fn climb(
    state: &mut ExplorerState,
    seed: u64,
    recipe: &[(u64, u64)],
) -> (Vec<DiscoveryEvent>, i64, bool) {
    let mut rng = XorShift64::new(seed);
    let mut next = 0;
    let mut events = Vec::new();
    let mut floor: u64 = 0;
    loop {
        if assertion_sometimes_each(state, "floor", &[("floor", floor as i64)], &[]).is_some() {
            events.push(DiscoveryEvent {
                state_id: floor,
                call_count: count(&rng),
                progress: true,
            });
        }
        if floor == LADDER_FLOORS || draw(&mut rng, recipe, &mut next) % 4 != 0 {
            break;
        }
        floor += 1;
    }
    (events, floor as i64, floor == LADDER_FLOORS)
}

fn run_frontier_ladder(seed: u64, config: ExplorationConfig) -> Outcome {
    let mut state = ExplorerState::new();
    init_assertions(&mut state);
    state.ctx.active = true;
    let mut explorer = Explorer::new(config);
    explorer.begin_seed(seed);
    let mut deepest: i64 = 0;
    let (events, floor, failed) = climb(&mut state, seed, &[]);
    deepest = deepest.max(floor);
    explorer.observe_root_run(&events, failed);
    let mut pid: u64 = 0;
    let mut running: Vec<(u64, Vec<DiscoveryEvent>, bool)> = Vec::new();
    loop {
        match explorer.explore() {
            ExploreStep::Run { job } => {
                let (events, floor, failed) = climb(&mut state, seed, &job.recipe);
                deepest = deepest.max(floor);
                explorer.job_ended(&events, failed);
            }
            ExploreStep::Spawn { job, .. } => {
                let (events, floor, failed) = climb(&mut state, seed, &job.recipe);
                deepest = deepest.max(floor);
                pid += 1;
                running.push((pid, events, failed));
                explorer.worker_started(pid);
            }
            ExploreStep::Reap => {
                let (pid, events, failed) = running.remove(0);
                explorer.worker_ended(pid, &events, failed);
            }
            ExploreStep::Done => break,
        }
    }
    Outcome {
        stats: explorer.seed_stats(),
        bug_recipes: explorer.bug_recipes().iter().map(|b| b.recipe.clone()).collect(),
        deepest_floor: deepest,
        tracked_states: explorer.tracked_states(),
    }
}

fn ladder_replay_reproduces(seed: u64, recipe: &[(u64, u64)]) -> bool {
    let mut state = ExplorerState::new();
    climb(&mut state, seed, recipe).2
}

#[test]
fn in_process_reaches_deep_floor() {
    let outcome = run_frontier_ladder(42, ladder_config(0));

    assert!(outcome.stats.total_timelines <= 2000, "budget exceeded");
    assert_eq!(
        outcome.stats.max_active_workers, 0,
        "in-process mode must not fork workers"
    );
    assert_eq!(
        u64::try_from(outcome.deepest_floor).expect("floor is non-negative"),
        LADDER_FLOORS,
        "expected the ladder to be fully climbed (stats: {:?})",
        outcome.stats
    );
    assert!(outcome.stats.expansions > 0, "no productive expansions");
    assert!(
        outcome.tracked_states >= usize::try_from(LADDER_FLOORS).expect("small const"),
        "each floor should register a semantic state"
    );
}

#[test]
fn in_process_exploration_is_deterministic() {
    let first = run_frontier_ladder(7, ladder_config(0));
    let second = run_frontier_ladder(7, ladder_config(0));

    assert_eq!(first.stats.total_timelines, second.stats.total_timelines);
    assert_eq!(first.stats.expansions, second.stats.expansions);
    assert_eq!(first.stats.discoveries, second.stats.discoveries);
    assert_eq!(first.stats.bug_found, second.stats.bug_found);
    assert_eq!(first.bug_recipes, second.bug_recipes);
    assert_eq!(first.deepest_floor, second.deepest_floor);
}

#[test]
fn workers_are_bounded_and_recipes_replay() {
    let workers = 3;
    let outcome = run_frontier_ladder(42, ladder_config(workers));

    assert!(
        outcome.stats.max_active_workers <= workers,
        "worker bound exceeded: {} > {workers}",
        outcome.stats.max_active_workers
    );
    assert!(
        outcome.stats.max_active_workers > 0,
        "worker mode should have forked at least one worker"
    );
    assert!(outcome.stats.total_timelines <= 2000, "budget exceeded");
    assert_eq!(
        u64::try_from(outcome.deepest_floor).expect("floor is non-negative"),
        LADDER_FLOORS,
        "expected the ladder to be fully climbed (stats: {:?})",
        outcome.stats
    );

    let recipe = outcome
        .bug_recipes
        .first()
        .expect("reaching the final floor must capture a bug recipe");
    assert!(
        ladder_replay_reproduces(42, recipe),
        "bug recipe must reproduce the failure on replay: {}",
        format_timeline(recipe)
    );
}

#[test]
fn single_worker_explores() {
    let outcome = run_frontier_ladder(42, ladder_config(1));
    assert!(outcome.stats.max_active_workers <= 1);
    assert!(
        outcome.deepest_floor >= 4,
        "one worker should still climb (deepest: {})",
        outcome.deepest_floor
    );
}

#[test]
fn derive_seed_deterministic_and_distinct() {
    let a = derive_seed(1, 2, 3, 4, 0, 0);
    assert_eq!(a, derive_seed(1, 2, 3, 4, 0, 0));
    assert_ne!(a, derive_seed(1, 2, 3, 4, 0, 1));
    assert_ne!(a, derive_seed(1, 2, 3, 4, 1, 0));
    assert_ne!(a, derive_seed(1, 2, 3, 5, 0, 0));
    assert_ne!(a, derive_seed(2, 2, 3, 4, 0, 0));
}

#[test]
fn default_config_is_bounded() {
    let config = ExplorationConfig::default();
    assert!(config.workers >= 1);
    assert!(config.max_runs_per_seed > 0);
    assert!(config.branching_factor > 0);
    assert!(config.max_frontier > 0);
    assert!(config.max_recipe_len > 0);
}

#[test]
fn barren_runs_lead_nowhere() {
    let mut explorer = Explorer::new(ladder_config(0));
    explorer.begin_seed(5);
    explorer.observe_root_run(&vec![], true);
    assert!(matches!(explorer.explore(), ExploreStep::Done));
    let stats = explorer.seed_stats();
    assert_eq!(stats.total_timelines, 1);
    assert_eq!(stats.expansions, 0);
    assert_eq!(stats.bug_found, 0);
    assert!(explorer.bug_recipes().is_empty());
}

#[test]
fn a_run_is_expanded_once() {
    let mut explorer = Explorer::new(ladder_config(0));
    explorer.begin_seed(5);
    let found: Vec<DiscoveryEvent> = (1..=3)
        .map(|i| DiscoveryEvent { state_id: i, call_count: 10 * i, progress: false })
        .collect();
    explorer.observe_root_run(&found, false);
    let stats = explorer.seed_stats();
    assert_eq!(stats.expansions, 1);
    assert_eq!(stats.discoveries, 3);
    assert_eq!(stats.frontier_peak, 4);
    assert_eq!(explorer.tracked_states(), 3);
    match explorer.explore() {
        ExploreStep::Run { job } => {
            assert_eq!(job.recipe, [(30, derive_seed(5, 5, 30, 3, 0, 0))]);
        }
        other => panic!("a job is due: {other:?}"),
    }
}

#[test]
fn lost_workers_are_forgotten() {
    let mut explorer = Explorer::new(ladder_config(2));
    explorer.begin_seed(5);
    let found = vec![DiscoveryEvent { state_id: 9, call_count: 3, progress: false }];
    explorer.observe_root_run(&found, false);
    assert!(matches!(explorer.explore(), ExploreStep::Spawn { slot: 0, .. }));
    explorer.worker_started(1);
    assert!(matches!(explorer.explore(), ExploreStep::Spawn { slot: 1, .. }));
    explorer.worker_not_started();
    assert!(matches!(explorer.explore(), ExploreStep::Run { .. }));
    explorer.job_ended(&vec![], false);
    explorer.workers_lost();
    assert_eq!(explorer.seed_stats().bug_found, 0);
    assert_eq!(explorer.seed_stats().total_timelines, 2);
    assert!(matches!(explorer.explore(), ExploreStep::Spawn { .. }));
}

#[test]
fn the_least_visited_state_comes_next() {
    let mut explorer = Explorer::new(ladder_config(0));
    explorer.begin_seed(5);
    let found: Vec<DiscoveryEvent> = (1..=3)
        .map(|i| DiscoveryEvent { state_id: i, call_count: 10 * i, progress: i == 2 })
        .collect();
    explorer.observe_root_run(&found, false);
    // The root went on from its latest discovery. Of the two that were not visited yet
    // the one with progress comes first, and so it does among equals afterwards.
    for anchor in [30, 20, 10, 20, 10, 30] {
        for _ in 0..4 {
            match explorer.explore() {
                ExploreStep::Run { job } => {
                    assert_eq!(job.recipe.len(), 1);
                    assert_eq!(job.recipe[0].0, anchor);
                }
                other => panic!("a job is due: {other:?}"),
            }
            explorer.job_ended(&vec![], false);
        }
    }
    assert!(explorer.seed_stats().frontier_peak <= 256);
}
