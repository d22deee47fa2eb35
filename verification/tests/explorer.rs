//! Tests of the exploration: assertions, coverage, energy, recipes and splits.

use moonpool::adaptive::{
    AdaptiveTestError, Scenario, ScenarioRun, ScenarioStep, check_scenario,
    run_adaptive_dungeon_floors, run_adaptive_energy_budget, run_adaptive_maze_cascade,
};
use moonpool::assertion_slots::{
    AssertCmp, AssertKind, AssertReport, AssertionSlot, AssertionTable, assertion_bool, assertion_numeric,
    assertion_read_all, assertion_sometimes_all,
};
use moonpool::context::{
    ExplorerCtx, ExplorerState, explorer_is_active, explorer_is_child, rng_get_count, rng_reseed,
    set_rng_hooks,
};
use moonpool::coverage::{COVERAGE_MAP_SIZE, CoverageBitmap, ExploredMap};
use moonpool::each_buckets::{
    EachBucket, EachTable, assertion_sometimes_each, each_bucket_read_all, pack_quality, unpack_quality,
};
use moonpool::energy::{
    decrement_mark_energy, init_energy_budget, init_mark_budget, return_mark_energy_to_pool,
};
use moonpool::explorer::{
    cleanup, cleanup_assertions, init, init_assertions, prepare_next_seed, reset_assertions,
};
use moonpool::hash::msg_hash;
use moonpool::replay::{format_timeline, parse_timeline};
use moonpool::sancov::{
    classify_counts, cleanup_sancov_shared, clear_transfer_buffer, copy_counters_to_shared,
    count_class, get_or_init_sancov_pool, has_new_coverage_inner, has_new_sancov_coverage,
    has_new_sancov_coverage_from, init_sancov_shared, no_sancov, register_counters,
    reset_bss_counters, sancov_edge_count, sancov_edges_covered, sancov_is_available,
};
use moonpool::shared_stats::{
    decrement_energy, get_bug_recipe, get_exploration_stats, init_shared_recipe,
    init_shared_stats, save_bug_recipe,
};
use moonpool::split_config::{
    AdaptiveConfig, ExplorationConfig, Parallelism, resolve_parallelism,
};
use moonpool::split_loop::{SplitAction, compute_child_seed, dispatch_split, setup_child};
use moonpool::xorshift::{XorShift64, count, next_random, reseed};
use std::cell::Cell;

// Assertions.

#[test]
fn assertion_slots_test_msg_hash_deterministic() {
    let h1 = msg_hash("test_assertion");
    let h2 = msg_hash("test_assertion");
    assert_eq!(h1, h2);
}

#[test]
fn test_msg_hash_no_collision() {
    let names = ["a", "b", "c", "timeout", "connect", "retry"];
    let hashes: Vec<u32> = names.iter().map(|n| msg_hash(n)).collect();
    for i in 0..hashes.len() {
        for j in (i + 1)..hashes.len() {
            assert_ne!(hashes[i], hashes[j], "{} and {} collide", names[i], names[j]);
        }
    }
}

#[test]
fn test_slot_size_stable() {
    assert_eq!(std::mem::size_of::<AssertionSlot>(), 112);
}

#[test]
fn assertion_slots_test_assertion_bool_noop_when_inactive() {
    let mut state = ExplorerState::new();
    assertion_bool(&mut state, AssertKind::Sometimes, true, true, "test");
    assertion_bool(&mut state, AssertKind::Always, true, false, "test2");
    assert!(assertion_read_all(&state).is_empty());
}

#[test]
fn test_assertion_numeric_noop_when_inactive() {
    let mut state = ExplorerState::new();
    assertion_numeric(
        &mut state,
        AssertKind::NumericAlways,
        AssertCmp::Gt,
        false,
        10,
        5,
        "test",
    );
    assert!(assertion_read_all(&state).is_empty());
}

#[test]
fn test_assertion_read_all_when_inactive() {
    let state = ExplorerState::new();
    let slots = assertion_read_all(&state);
    assert!(slots.is_empty());
}

#[test]
fn test_assert_kind_from_u8() {
    assert_eq!(AssertKind::from_u8(0), Some(AssertKind::Always));
    assert_eq!(AssertKind::from_u8(7), Some(AssertKind::BooleanSometimesAll));
    assert_eq!(AssertKind::from_u8(8), None);
}

#[test]
fn kinds_and_numbers_agree() {
    for n in 0u8..8 {
        assert_eq!(AssertKind::from_u8(n).unwrap().as_u8(), n);
    }
}

#[test]
fn msg_hash_has_known_values() {
    // FNV-1a of the empty text, and of one letter.
    assert_eq!(msg_hash(""), 0x811c_9dc5);
    assert_eq!(msg_hash("a"), 0xe40c_292c);
}

#[test]
fn assertions_count_and_are_read_back() {
    let mut state = ExplorerState::new();
    init_assertions(&mut state);
    assertion_bool(&mut state, AssertKind::Sometimes, true, true, "seen");
    assertion_bool(&mut state, AssertKind::Sometimes, true, false, "seen");
    assertion_bool(&mut state, AssertKind::Always, true, true, "held");
    let shots = assertion_read_all(&state);
    assert_eq!(shots.len(), 2);
    assert_eq!(shots[0].msg, "seen");
    assert_eq!(shots[0].kind, AssertKind::Sometimes.as_u8());
    assert_eq!(shots[0].pass_count, 1);
    assert_eq!(shots[0].fail_count, 1);
    assert_eq!(shots[1].msg, "held");
    assert_eq!(shots[1].pass_count, 1);
    reset_assertions(&mut state);
    assert!(assertion_read_all(&state).is_empty());
}

#[test]
fn names_that_are_not_ascii_are_read_back() {
    let mut state = ExplorerState::new();
    init_assertions(&mut state);
    assertion_bool(&mut state, AssertKind::Sometimes, true, true, "gr\u{fc}n");
    // 63 bytes fit: the letter at the end is cut in two and the rest is not text.
    let long = format!("{}\u{fc}", "x".repeat(62));
    assertion_bool(&mut state, AssertKind::Sometimes, true, true, &long);
    let shots = assertion_read_all(&state);
    assert_eq!(shots[0].msg, "gr\u{fc}n");
    assert_eq!(shots[1].msg, "???");
}

#[test]
fn tables_are_made_from_their_parts() {
    let mut state = ExplorerState::new();
    init_assertions(&mut state);
    assertion_bool(&mut state, AssertKind::Sometimes, true, true, "a");
    assertion_bool(&mut state, AssertKind::Sometimes, true, true, "b");
    assertion_sometimes_each(&mut state, "c", &[("k", 1)], &[]);
    let slots: Vec<AssertionSlot> = state.assertions.as_ref().unwrap().slots().to_vec();
    let buckets: Vec<EachBucket> = state.each_buckets.as_ref().unwrap().buckets().to_vec();
    let twice = vec![slots[0], slots[1], slots[0]];
    assert!(AssertionTable::from_slots(twice).is_none());
    state.assertions = AssertionTable::from_slots(slots);
    state.each_buckets = EachTable::from_buckets(buckets);
    assert_eq!(assertion_read_all(&state).len(), 2);
    assert_eq!(each_bucket_read_all(&state).len(), 1);
    assert!(EachTable::from_buckets(each_bucket_read_all(&state)).is_some());
}

#[test]
fn broken_assertions_are_reported() {
    let mut state = ExplorerState::new();
    init_assertions(&mut state);
    let r = assertion_bool(&mut state, AssertKind::Always, true, false, "never");
    assert_eq!(r.report, Some(AssertReport::Failed));
    let r = assertion_bool(&mut state, AssertKind::Unreachable, false, true, "nowhere");
    assert_eq!(r.report, Some(AssertReport::UnreachableReached));
    let r = assertion_numeric(
        &mut state,
        AssertKind::NumericAlways,
        AssertCmp::Gt,
        false,
        1,
        5,
        "small",
    );
    assert_eq!(r.report, Some(AssertReport::NumericFailed));
}

#[test]
fn only_discoveries_split() {
    let mut state = ExplorerState::new();
    init(&mut state, plain_config());
    let never = [
        AssertKind::Always,
        AssertKind::AlwaysOrUnreachable,
        AssertKind::Unreachable,
    ];
    for (i, kind) in never.into_iter().enumerate() {
        let msg = format!("never {i}");
        assert!(assertion_bool(&mut state, kind, true, true, &msg).split.is_none());
    }
    let r = assertion_bool(&mut state, AssertKind::Sometimes, true, false, "some");
    assert!(r.split.is_none());
    let r = assertion_bool(&mut state, AssertKind::Sometimes, true, true, "some");
    assert!(r.split.is_some());
    let r = assertion_bool(&mut state, AssertKind::Sometimes, true, true, "some");
    assert!(r.split.is_none());
    let r = assertion_bool(&mut state, AssertKind::Reachable, true, true, "reached");
    assert!(r.split.is_some());
    let mut higher = |left: i64| {
        assertion_numeric(
            &mut state,
            AssertKind::NumericSometimes,
            AssertCmp::Gt,
            true,
            left,
            0,
            "height",
        )
        .split
        .is_some()
    };
    assert!(higher(1));
    assert!(!higher(1));
    assert!(higher(2));
}

#[test]
fn watermarks_rise() {
    let mut state = ExplorerState::new();
    init_assertions(&mut state);
    for (left, watermark) in [(3i64, 3i64), (1, 3), (7, 7), (5, 7)] {
        assertion_numeric(
            &mut state,
            AssertKind::NumericSometimes,
            AssertCmp::Ge,
            true,
            left,
            0,
            "height",
        );
        assert_eq!(assertion_read_all(&state)[0].watermark, watermark);
    }
}

#[test]
fn frontiers_rise() {
    let mut state = ExplorerState::new();
    init_assertions(&mut state);
    for (bools, frontier) in [
        ([("a", true), ("b", false)], 1u8),
        ([("a", false), ("b", false)], 1),
        ([("a", true), ("b", true)], 2),
        ([("a", false), ("b", true)], 2),
    ] {
        assertion_sometimes_all(&mut state, "together", &bools);
        assert_eq!(assertion_read_all(&state)[0].frontier, frontier);
    }
}

// Context.

#[test]
fn test_default_hooks() {
    let hooks = set_rng_hooks(|| 0, |_| {});
    assert_eq!(rng_get_count(&hooks), 0);
    rng_reseed(&hooks, 42);
}

#[test]
fn test_set_hooks() {
    let call_count: Cell<u64> = Cell::new(0);
    let last_seed: Cell<u64> = Cell::new(0);
    let hooks = set_rng_hooks(|| call_count.get(), |seed| last_seed.set(seed));

    call_count.set(42);
    assert_eq!(rng_get_count(&hooks), 42);

    rng_reseed(&hooks, 123);
    assert_eq!(last_seed.get(), 123);
}

#[test]
fn context_test_inactive_by_default() {
    let state = ExplorerState::new();
    assert!(!explorer_is_active(&state));
    assert!(!explorer_is_child(&state));
}

// Coverage.

#[test]
fn test_set_bit_and_check() {
    let mut bm = CoverageBitmap::new();
    let mut vm = ExploredMap::new();

    assert!(!vm.has_new_bits(&bm));

    bm.set_bit(42);
    assert!(vm.has_new_bits(&bm));

    vm.merge_from(&bm);
    assert!(!vm.has_new_bits(&bm));
}

#[test]
fn test_clear() {
    let mut bm = CoverageBitmap::new();

    bm.set_bit(0);
    bm.set_bit(100);
    bm.set_bit(8000);

    bm.clear();

    for i in 0..COVERAGE_MAP_SIZE {
        assert_eq!(bm.as_ptr()[i], 0);
    }
}

#[test]
fn test_merge_accumulates() {
    let mut bm1 = CoverageBitmap::new();
    let mut bm2 = CoverageBitmap::new();
    let mut vm = ExploredMap::new();

    bm1.set_bit(10);
    bm2.set_bit(20);

    vm.merge_from(&bm1);
    assert!(vm.has_new_bits(&bm2));

    vm.merge_from(&bm2);
    assert!(!vm.has_new_bits(&bm1));
    assert!(!vm.has_new_bits(&bm2));
}

#[test]
fn test_count_bits_set() {
    let mut vm = ExploredMap::new();
    let mut bm = CoverageBitmap::new();

    assert_eq!(vm.count_bits_set(), 0);

    bm.set_bit(0);
    bm.set_bit(42);
    bm.set_bit(8000);
    vm.merge_from(&bm);

    assert_eq!(vm.count_bits_set(), 3);
}

#[test]
fn bits_beyond_the_map_start_over() {
    let mut a = CoverageBitmap::new();
    a.set_bit(8192 + 5);
    assert_eq!(a.as_ptr()[0], 1 << 5);
    let b = CoverageBitmap::from_bytes(a.as_ptr().clone()).unwrap();
    assert_eq!(b.as_ptr(), a.as_ptr());
    assert!(CoverageBitmap::from_bytes(vec![0; 3]).is_none());
}

// Buckets.

#[test]
fn each_buckets_test_msg_hash_deterministic() {
    let h1 = msg_hash("test_assertion");
    let h2 = msg_hash("test_assertion");
    assert_eq!(h1, h2);
}

#[test]
fn test_msg_hash_different_inputs() {
    let h1 = msg_hash("alpha");
    let h2 = msg_hash("beta");
    let h3 = msg_hash("gamma");
    assert_ne!(h1, h2);
    assert_ne!(h2, h3);
    assert_ne!(h1, h3);
}

#[test]
fn test_pack_unpack_quality_roundtrip() {
    let quality = &[("health", 100i64), ("armor", 50i64), ("mana", 200i64)];
    let packed = pack_quality(quality);
    let unpacked = unpack_quality(packed, 3);
    assert_eq!(unpacked, vec![100, 50, 200]);
}

#[test]
fn test_pack_quality_single() {
    let quality = &[("health", 42i64)];
    let packed = pack_quality(quality);
    let unpacked = unpack_quality(packed, 1);
    assert_eq!(unpacked, vec![42]);
}

#[test]
fn test_each_bucket_size_stable() {
    assert_eq!(std::mem::size_of::<EachBucket>(), 104);
}

#[test]
fn test_each_bucket_read_all_when_inactive() {
    let state = ExplorerState::new();
    let buckets = each_bucket_read_all(&state);
    assert!(buckets.is_empty());
}

#[test]
fn test_assertion_sometimes_each_noop_when_inactive() {
    let mut state = ExplorerState::new();
    assertion_sometimes_each(&mut state, "test", &[("key", 1)], &[]);
    assert!(each_bucket_read_all(&state).is_empty());
}

#[test]
fn buckets_are_kept_by_key() {
    let mut state = ExplorerState::new();
    init_assertions(&mut state);
    assertion_sometimes_each(&mut state, "floor", &[("floor", 1)], &[]);
    assertion_sometimes_each(&mut state, "floor", &[("floor", 2)], &[]);
    assertion_sometimes_each(&mut state, "floor", &[("floor", 1)], &[]);
    let buckets = each_bucket_read_all(&state);
    assert_eq!(buckets.len(), 2);
    assert_eq!(buckets[0].msg_str(), "floor");
    assert_eq!(buckets[0].pass_count, 2);
    assert_eq!(buckets[0].key_values[0], 1);
    assert_eq!(buckets[1].pass_count, 1);
    assert_eq!(buckets[1].key_values[0], 2);
}

#[test]
fn best_scores_rise() {
    let mut state = ExplorerState::new();
    init_assertions(&mut state);
    for (health, best) in [(10i64, 10i64), (5, 10), (30, 30)] {
        assertion_sometimes_each(&mut state, "room", &[("room", 1)], &[("health", health)]);
        assert_eq!(each_bucket_read_all(&state)[0].best_score, pack_quality(&[("h", best)]));
    }
}

#[test]
fn a_first_quality_of_zero_splits() {
    let mut state = ExplorerState::new();
    init_assertions(&mut state);
    let keys = [("room", 1i64)];
    assert_eq!(assertion_sometimes_each(&mut state, "room", &keys, &[]), Some(0));
    assert_eq!(assertion_sometimes_each(&mut state, "room", &keys, &[]), None);
    assert_eq!(each_bucket_read_all(&state)[0].has_quality, 0);
    let zero = [("health", 0i64), ("gold", 0)];
    assert_eq!(assertion_sometimes_each(&mut state, "room", &keys, &zero), Some(0));
    let bucket = each_bucket_read_all(&state)[0];
    assert_eq!(bucket.has_quality, 2);
    assert_eq!(bucket.best_score, pack_quality(&zero));
    assert_eq!(assertion_sometimes_each(&mut state, "room", &keys, &zero), None);
    let better = [("health", 0i64), ("gold", 1)];
    assert_eq!(assertion_sometimes_each(&mut state, "room", &keys, &better), Some(0));
    assert_eq!(each_bucket_read_all(&state)[0].pass_count, 5);
}

#[test]
fn packed_measures_keep_their_order() {
    let packed = |values: &[i64]| {
        let quality: Vec<(&str, i64)> = values.iter().map(|v| ("q", *v)).collect();
        pack_quality(&quality)
    };
    assert_eq!(packed(&[0]), i64::MIN);
    assert_eq!(packed(&[65535, 65535, 65535, 65535]), i64::MAX);
    assert!(packed(&[1]) < packed(&[32767]));
    assert!(packed(&[32767]) < packed(&[32768]));
    assert!(packed(&[32768, 0]) < packed(&[32768, 1]));
    assert!(packed(&[7, 65535, 65535]) < packed(&[8, 0, 0]));
    assert_eq!(unpack_quality(packed(&[40000, 3, 65535, 9]), 4), vec![40000, 3, 65535, 9]);
}

#[test]
fn large_measures_still_improve() {
    let mut state = ExplorerState::new();
    init_assertions(&mut state);
    let mut visit =
        |v: i64| assertion_sometimes_each(&mut state, "room", &[("room", 1)], &[("gold", v)]);
    assert_eq!(visit(32767), Some(0));
    assert_eq!(visit(32768), Some(0));
    assert_eq!(visit(32768), None);
    assert_eq!(visit(1), None);
}

// Energy.

#[test]
fn marks_get_their_budget_once() {
    let mut b = init_energy_budget(100, 10);
    init_mark_budget(&mut b, 3);
    assert_eq!(b.per_mark[3], 10);
    assert!(decrement_mark_energy(&mut b, 3));
    init_mark_budget(&mut b, 3);
    assert_eq!(b.per_mark[3], 9);
    return_mark_energy_to_pool(&mut b, 3);
    init_mark_budget(&mut b, 3);
    assert_eq!(b.per_mark[3], 0);
    assert_eq!(b.realloc_pool, 9);
}

#[test]
fn test_mark_budget_decrement_and_return() {
    let mut b = init_energy_budget(100, 10);
    init_mark_budget(&mut b, 0);
    assert!(decrement_mark_energy(&mut b, 0));
    assert!(decrement_mark_energy(&mut b, 0));

    return_mark_energy_to_pool(&mut b, 0);
    assert_eq!(b.per_mark[0], 0);
    assert_eq!(b.realloc_pool, 8);
}

#[test]
fn test_productive_mark_draws_from_realloc() {
    let mut b = init_energy_budget(100, 5);
    init_mark_budget(&mut b, 0);
    decrement_mark_energy(&mut b, 0);
    return_mark_energy_to_pool(&mut b, 0);

    init_mark_budget(&mut b, 1);
    for _ in 0..5 {
        assert!(decrement_mark_energy(&mut b, 1));
    }
    assert!(decrement_mark_energy(&mut b, 1));
    assert_eq!(b.realloc_pool, 3);
}

#[test]
fn test_global_energy_exhaustion() {
    let mut b = init_energy_budget(3, 100);
    init_mark_budget(&mut b, 0);
    assert!(decrement_mark_energy(&mut b, 0));
    assert!(decrement_mark_energy(&mut b, 0));
    assert!(decrement_mark_energy(&mut b, 0));
    assert!(!decrement_mark_energy(&mut b, 0));
    assert_eq!(b.global_remaining, 0);
}

#[test]
fn test_realloc_flow() {
    let mut b = init_energy_budget(50, 5);
    init_mark_budget(&mut b, 0);
    decrement_mark_energy(&mut b, 0);
    return_mark_energy_to_pool(&mut b, 0);

    assert_eq!(b.realloc_pool, 4);

    init_mark_budget(&mut b, 1);
    for _ in 0..5 {
        assert!(decrement_mark_energy(&mut b, 1));
    }
    for _ in 0..3 {
        assert!(decrement_mark_energy(&mut b, 1));
    }
    assert_eq!(b.realloc_pool, 1);
}

#[test]
fn plain_energy_ends_at_zero() {
    let mut stats = init_shared_stats(2);
    assert!(decrement_energy(&mut stats));
    assert!(decrement_energy(&mut stats));
    assert!(!decrement_energy(&mut stats));
    assert_eq!(stats.global_energy, 0);
}

// The life of an exploration.

fn plain_config() -> ExplorationConfig {
    ExplorationConfig {
        max_depth: 2,
        timelines_per_split: 4,
        global_energy: 100,
        adaptive: None,
        parallelism: None,
    }
}

#[test]
fn test_init_cleanup_cycle() {
    let mut state = ExplorerState::new();
    init(&mut state, plain_config());
    assert!(explorer_is_active(&state));
    assert!(!explorer_is_child(&state));

    let stats = get_exploration_stats(&state.stats, &state.energy, 0, 0)
        .expect("stats should be available");
    assert_eq!(stats.global_energy, 100);
    assert_eq!(stats.total_timelines, 0);
    assert_eq!(stats.fork_points, 0);
    assert_eq!(stats.bug_found, 0);

    cleanup(&mut state);
    assert!(!explorer_is_active(&state));
    assert!(get_exploration_stats(&state.stats, &state.energy, 0, 0).is_none());
}

#[test]
fn lib_test_inactive_by_default() {
    let state = ExplorerState::new();
    assert!(!explorer_is_active(&state));
    assert!(!explorer_is_child(&state));
}

#[test]
fn lib_test_assertion_bool_noop_when_inactive() {
    let mut state = ExplorerState::new();
    assertion_bool(&mut state, AssertKind::Sometimes, true, true, "test_assertion");
    assert!(state.assertions.is_none());
}

#[test]
fn test_init_assertions_standalone() {
    let mut state = ExplorerState::new();
    init_assertions(&mut state);
    assert!(state.assertions.is_some());

    // A second call changes nothing.
    assertion_bool(&mut state, AssertKind::Sometimes, true, true, "kept");
    init_assertions(&mut state);
    assert_eq!(assertion_read_all(&state).len(), 1);

    cleanup_assertions(&mut state);
    assert!(state.assertions.is_none());
}

#[test]
fn test_backward_compat_no_adaptive() {
    let mut state = ExplorerState::new();
    init(&mut state, plain_config());
    assert!(state.energy.is_none());
    cleanup(&mut state);
}

#[test]
fn next_seed_keeps_what_was_learned() {
    let mut state = ExplorerState::new();
    init(&mut state, plain_config());
    assertion_bool(&mut state, AssertKind::Sometimes, true, true, "seen");
    if let Some(map) = &mut state.explored {
        let mut bits = CoverageBitmap::new();
        bits.set_bit(7);
        map.merge_from(&bits);
    }
    let explored = state.explored.as_ref().unwrap().count_bits_set();
    assert!(explored > 0);
    prepare_next_seed(&mut state, 50);
    assert_eq!(state.explored.as_ref().unwrap().count_bits_set(), explored);
    assert_eq!(state.stats.as_ref().unwrap().global_energy, 50);
    let shots = assertion_read_all(&state);
    assert_eq!(shots.len(), 1);
    assert_eq!(shots[0].pass_count, 0);
    assert!(state.ctx.warm_start);
}

#[test]
fn half_the_cores_are_rounded_up() {
    assert_eq!(resolve_parallelism(&Parallelism::MaxCores, 7), 7);
    assert_eq!(resolve_parallelism(&Parallelism::HalfCores, 7), 4);
    assert_eq!(resolve_parallelism(&Parallelism::HalfCores, 1), 1);
    assert_eq!(resolve_parallelism(&Parallelism::Cores(3), 7), 3);
    assert_eq!(resolve_parallelism(&Parallelism::MaxCores, -1), 1);
}

#[test]
fn the_first_bug_recipe_stays() {
    let mut recipe = init_shared_recipe();
    assert!(get_bug_recipe(&Some(init_shared_recipe())).is_none());
    save_bug_recipe(&mut recipe, &vec![(1, 2)], 3, 4);
    save_bug_recipe(&mut recipe, &vec![], 5, 6);
    assert_eq!(get_bug_recipe(&Some(recipe)), Some(vec![(1, 2), (3, 4)]));
    assert_eq!(get_bug_recipe(&None), None);
}

// Recipes as text.

#[test]
fn test_format_empty() {
    assert_eq!(format_timeline(&[]), "");
}

#[test]
fn test_format_single() {
    assert_eq!(format_timeline(&[(42, 12345)]), "42@12345");
}

#[test]
fn test_format_multiple() {
    let recipe = vec![(42, 12345), (17, 67890), (100, 999)];
    assert_eq!(format_timeline(&recipe), "42@12345 -> 17@67890 -> 100@999");
}

#[test]
fn test_roundtrip() {
    let original = vec![(42, 12345), (17, 67890)];
    let formatted = format_timeline(&original);
    let parsed = parse_timeline(&formatted).expect("parse failed");
    assert_eq!(original, parsed);
}

#[test]
fn test_parse_empty() {
    let result = parse_timeline("").expect("parse failed");
    assert!(result.is_empty());
}

#[test]
fn test_parse_whitespace() {
    let result = parse_timeline("  ").expect("parse failed");
    assert!(result.is_empty());
}

#[test]
fn test_parse_error_missing_at() {
    let result = parse_timeline("42-12345");
    assert!(result.is_err());
}

#[test]
fn test_parse_error_non_numeric() {
    let result = parse_timeline("abc@12345");
    assert!(result.is_err());
}

#[test]
fn largest_numbers_survive_a_round_trip() {
    let original = vec![(u64::MAX, 0), (0, u64::MAX)];
    assert_eq!(parse_timeline(&format_timeline(&original)), Ok(original));
    assert!(parse_timeline("18446744073709551616@1").is_err());
    assert!(parse_timeline("1@").is_err());
    assert_eq!(parse_timeline(" 1@2 -> +3@4 "), Ok(vec![(1, 2), (3, 4)]));
}

// Edge counters.

#[test]
fn test_bucketing_table() {
    assert_eq!(count_class(0), 0);
    assert_eq!(count_class(1), 1);
    assert_eq!(count_class(2), 2);
    assert_eq!(count_class(3), 4);
    for i in 4..=7u8 {
        assert_eq!(count_class(i), 8, "bucket mismatch at {i}");
    }
    for i in 8..=15u8 {
        assert_eq!(count_class(i), 16, "bucket mismatch at {i}");
    }
    for i in 16..=31u8 {
        assert_eq!(count_class(i), 32, "bucket mismatch at {i}");
    }
    for i in 32..=127u8 {
        assert_eq!(count_class(i), 64, "bucket mismatch at {i}");
    }
    for i in 128..=255u8 {
        assert_eq!(count_class(i), 128, "bucket mismatch at {i}");
    }
}

#[test]
fn test_novelty_detection_basic() {
    let mut buffer = vec![0u8; 8];
    let mut history = vec![0u8; 8];
    buffer[0] = 1;

    let novel = has_new_coverage_inner(&mut buffer, &mut history);
    assert!(novel);
    assert_eq!(history[0], 1);
}

#[test]
fn test_known_coverage_skipped() {
    let mut buffer = vec![0u8; 8];
    let mut history = vec![0u8; 8];

    buffer[0] = 1;
    let novel = has_new_coverage_inner(&mut buffer, &mut history);
    assert!(novel);

    buffer[0] = 1;
    let novel = has_new_coverage_inner(&mut buffer, &mut history);
    assert!(!novel);
}

#[test]
fn test_higher_bucket_is_novel() {
    let mut buffer = vec![0u8; 4];
    let mut history = vec![0u8; 4];

    buffer[0] = 1;
    let novel = has_new_coverage_inner(&mut buffer, &mut history);
    assert!(novel);
    assert_eq!(history[0], 1);

    buffer[0] = 5;
    let novel = has_new_coverage_inner(&mut buffer, &mut history);
    assert!(novel);
    assert_eq!(history[0], 8);

    buffer[0] = 3;
    let novel = has_new_coverage_inner(&mut buffer, &mut history);
    assert!(!novel);
    assert_eq!(history[0], 8);
}

#[test]
fn test_zeros_skipped() {
    let mut buffer = vec![0u8; 8];
    let mut history = vec![0u8; 8];

    let novel = has_new_coverage_inner(&mut buffer, &mut history);
    assert!(!novel);
}

#[test]
fn test_unavailable_noop() {
    let mut s = no_sancov();
    assert!(!sancov_is_available(&s));
    assert_eq!(sancov_edge_count(&s), 0);
    assert_eq!(sancov_edges_covered(&s), 0);
    assert!(!has_new_sancov_coverage(&mut s));
    assert!(!has_new_sancov_coverage_from(&mut s, 0));

    let mut counters: Vec<u8> = Vec::new();
    copy_counters_to_shared(&mut s, &counters);
    reset_bss_counters(&s, &mut counters);
    clear_transfer_buffer(&mut s);
    cleanup_sancov_shared(&mut s);

    assert!(!get_or_init_sancov_pool(&mut s, 4));
    assert!(s.pool.is_none());
}

#[test]
fn test_init_cleanup_lifecycle() {
    let mut s = no_sancov();
    init_sancov_shared(&mut s);
    assert!(s.transfer.is_none(), "no buffers allocated without sancov");
    cleanup_sancov_shared(&mut s);
}

#[test]
fn test_classify_counts_in_place() {
    let mut buf = vec![0u8, 1, 2, 3, 5, 10, 20, 50, 200];
    classify_counts(&mut buf);
    assert_eq!(buf, [0, 1, 2, 4, 8, 16, 32, 64, 128]);
}

#[test]
fn counters_pass_through_the_transfer_buffer() {
    let mut s = no_sancov();
    s.counters = register_counters(None, 100, 104);
    assert!(sancov_is_available(&s));
    assert_eq!(sancov_edge_count(&s), 4);
    init_sancov_shared(&mut s);
    copy_counters_to_shared(&mut s, &[0, 3, 0, 1]);
    assert!(has_new_sancov_coverage(&mut s));
    assert_eq!(sancov_edges_covered(&s), 2);
    copy_counters_to_shared(&mut s, &[0, 3, 0, 1]);
    assert!(!has_new_sancov_coverage(&mut s));
    let mut counters = vec![9u8; 4];
    reset_bss_counters(&s, &mut counters);
    assert_eq!(counters, [0, 0, 0, 0]);
}

#[test]
fn counter_ranges_grow_together() {
    let r = register_counters(None, 100, 104);
    let r = register_counters(r, 96, 100);
    let r = r.unwrap();
    assert_eq!((r.start, r.stop), (96, 104));
    assert!(register_counters(None, 8, 8).is_none());
}

// Seeds of timelines.

#[test]
fn test_compute_child_seed_deterministic() {
    let s1 = compute_child_seed(42, "test", 0);
    let s2 = compute_child_seed(42, "test", 0);
    assert_eq!(s1, s2);
}

#[test]
fn test_compute_child_seed_varies_by_index() {
    let s0 = compute_child_seed(42, "test", 0);
    let s1 = compute_child_seed(42, "test", 1);
    let s2 = compute_child_seed(42, "test", 2);
    assert_ne!(s0, s1);
    assert_ne!(s1, s2);
    assert_ne!(s0, s2);
}

#[test]
fn test_compute_child_seed_varies_by_name() {
    let s1 = compute_child_seed(42, "alpha", 0);
    let s2 = compute_child_seed(42, "beta", 0);
    assert_ne!(s1, s2);
}

#[test]
fn test_compute_child_seed_varies_by_parent() {
    let s1 = compute_child_seed(1, "test", 0);
    let s2 = compute_child_seed(2, "test", 0);
    assert_ne!(s1, s2);
}

// Splits, with timelines that run one after the other in this process.

fn copy_ctx(c: &ExplorerCtx) -> ExplorerCtx {
    ExplorerCtx {
        active: c.active,
        is_child: c.is_child,
        depth: c.depth,
        max_depth: c.max_depth,
        current_seed: c.current_seed,
        recipe: c.recipe.clone(),
        timelines_per_split: c.timelines_per_split,
        adaptive: c.adaptive,
        parallelism: c.parallelism,
        warm_start: c.warm_start,
    }
}

/// Runs a scenario to its end, and every timeline that it splits off. Returns the
/// exit code of a timeline that was split off.
fn run_to_end(state: &mut ExplorerState, rng: &mut XorShift64, mut run: ScenarioRun) -> Option<i32> {
    loop {
        match run.step(rng, explorer_is_child(state)) {
            ScenarioStep::Done => return None,
            ScenarioStep::Exit { code } => return Some(code),
            ScenarioStep::Mark { name } => {
                let r = assertion_bool(state, AssertKind::Sometimes, true, true, name);
                let Some(slot) = r.split else { continue };
                let calls = count(rng);
                let Some(mut split) = dispatch_split(state, name, slot, calls, 0) else {
                    continue;
                };
                loop {
                    match split.next_action(state) {
                        SplitAction::Done => break,
                        SplitAction::Reap => unreachable!(),
                        SplitAction::Fork { child_seed, .. } => {
                            let saved = copy_ctx(&state.ctx);
                            setup_child(state, child_seed, calls, false);
                            let mut child_rng = *rng;
                            reseed(&mut child_rng, child_seed);
                            let code = run_to_end(state, &mut child_rng, run);
                            state.ctx = saved;
                            split.child_ended(state, code, false);
                        }
                    }
                }
            }
        }
    }
}

#[test]
fn slow_simulation_adaptive_maze_cascade() {
    let mut state = ExplorerState::new();
    let mut rng = XorShift64::new(1);
    let run = run_adaptive_maze_cascade(&mut state, &mut rng);
    assert!(run_to_end(&mut state, &mut rng, run).is_none());
    let stats = get_exploration_stats(&state.stats, &state.energy, 0, 0);
    cleanup(&mut state);
    let stats = stats.expect("stats should be available");

    assert!(
        stats.total_timelines > 0,
        "expected forked children, got total_timelines={}",
        stats.total_timelines
    );
    assert!(
        stats.fork_points > 0,
        "expected fork points, got fork_points={}",
        stats.fork_points
    );
    assert_eq!(check_scenario(Scenario::MazeCascade, Some(stats)), Ok(()));
}

#[test]
fn slow_simulation_adaptive_dungeon_floors() {
    let mut state = ExplorerState::new();
    let mut rng = XorShift64::new(1);
    let run = run_adaptive_dungeon_floors(&mut state, &mut rng);
    assert!(run_to_end(&mut state, &mut rng, run).is_none());
    let stats = get_exploration_stats(&state.stats, &state.energy, 0, 0);
    cleanup(&mut state);
    let stats = stats.expect("stats should be available");

    assert!(
        stats.total_timelines > 0,
        "expected forked children, got total_timelines={}",
        stats.total_timelines
    );
    assert!(
        stats.fork_points > 0,
        "expected fork points, got fork_points={}",
        stats.fork_points
    );
    assert_eq!(check_scenario(Scenario::DungeonFloors, Some(stats)), Ok(()));
}

#[test]
fn slow_simulation_adaptive_energy_budget() {
    let mut state = ExplorerState::new();
    let mut rng = XorShift64::new(1);
    let run = run_adaptive_energy_budget(&mut state, &mut rng);
    assert!(run_to_end(&mut state, &mut rng, run).is_none());
    let stats = get_exploration_stats(&state.stats, &state.energy, 0, 0);
    cleanup(&mut state);
    let stats = stats.expect("stats should be available");

    assert!(
        stats.total_timelines <= 8,
        "energy limit exceeded: total_timelines={} (expected <= 8)",
        stats.total_timelines
    );
    assert!(
        stats.global_energy >= 0,
        "energy went negative: global_energy={}",
        stats.global_energy
    );
    assert!(
        stats.realloc_pool_remaining >= 0,
        "realloc pool went negative: realloc_pool={}",
        stats.realloc_pool_remaining
    );
    assert_eq!(check_scenario(Scenario::EnergyBudget, Some(stats)), Ok(()));
}

#[test]
fn scenarios_that_fail_say_why() {
    assert_eq!(
        check_scenario(Scenario::MazeCascade, None),
        Err(AdaptiveTestError::StatsUnavailable)
    );
    let mut state = ExplorerState::new();
    init(&mut state, plain_config());
    let stats = get_exploration_stats(&state.stats, &state.energy, 0, 0).unwrap();
    assert_eq!(
        check_scenario(Scenario::MazeCascade, Some(stats)),
        Err(AdaptiveTestError::NoForks { total: 0 })
    );
}

#[test]
fn fixed_splits_cost_energy() {
    let mut state = ExplorerState::new();
    init(&mut state, plain_config());
    let r = assertion_bool(&mut state, AssertKind::Sometimes, true, true, "mark");
    let slot = r.split.expect("the first success splits");
    let mut split = dispatch_split(&mut state, "mark", slot, 5, 0).expect("a split is due");
    let mut seeds: Vec<u64> = Vec::new();
    loop {
        match split.next_action(&mut state) {
            SplitAction::Fork { child_seed, slot } => {
                assert_eq!(slot, None);
                seeds.push(child_seed);
                split.child_ended(&mut state, Some(if seeds.len() == 2 { 42 } else { 0 }), false);
            }
            SplitAction::Reap => unreachable!(),
            SplitAction::Done => break,
        }
    }
    let expected: Vec<u64> = (0..4).map(|i| compute_child_seed(0, "mark", i)).collect();
    assert_eq!(seeds, expected);
    let stats = state.stats.as_ref().unwrap();
    assert_eq!(stats.global_energy, 96);
    assert_eq!(stats.fork_points, 4);
    assert_eq!(stats.bug_found, 1);
    assert_eq!(get_bug_recipe(&state.recipe), Some(vec![(5, expected[1])]));
    // The same assertion does not split again.
    let r = assertion_bool(&mut state, AssertKind::Sometimes, true, true, "mark");
    assert!(r.split.is_none());
}

#[test]
fn parallel_splits_keep_to_their_slots() {
    let mut state = ExplorerState::new();
    let config = ExplorationConfig {
        parallelism: Some(Parallelism::Cores(2)),
        ..plain_config()
    };
    init(&mut state, config);
    let r = assertion_bool(&mut state, AssertKind::Sometimes, true, true, "mark");
    let mut split = dispatch_split(&mut state, "mark", r.split.unwrap(), 5, 2).unwrap();
    let mut running: Vec<(u64, usize)> = Vec::new();
    let mut pid: u64 = 100;
    loop {
        match split.next_action(&mut state) {
            SplitAction::Fork { slot, .. } => {
                let slot = slot.expect("parallel timelines have slots");
                assert!(running.iter().all(|(_, s)| *s != slot));
                pid += 1;
                running.push((pid, slot));
                assert!(running.len() <= 2);
                split.forked(pid);
            }
            SplitAction::Reap => {
                let (pid, _) = running.remove(0);
                split.reaped(&mut state, pid, Some(0), CoverageBitmap::new(), false);
            }
            SplitAction::Done => break,
        }
    }
    assert!(running.is_empty());
    assert_eq!(pid, 104);
}

#[test]
fn adaptive_configuration_counts_batches() {
    let mut state = ExplorerState::new();
    let config = ExplorationConfig {
        adaptive: Some(AdaptiveConfig {
            batch_size: 2,
            min_timelines: 2,
            max_timelines: 6,
            per_mark_energy: 3,
            warm_min_timelines: None,
        }),
        ..plain_config()
    };
    init(&mut state, config);
    let r = assertion_bool(&mut state, AssertKind::Sometimes, true, true, "mark");
    let mut split = dispatch_split(&mut state, "mark", r.split.unwrap(), 5, 0).unwrap();
    let mut n = 0;
    while let SplitAction::Fork { .. } = split.next_action(&mut state) {
        n += 1;
        split.child_ended(&mut state, Some(0), false);
    }
    // Nothing new was covered, so one batch is all, and the rest goes to the pool.
    assert_eq!(n, 2);
    assert_eq!(state.energy.as_ref().unwrap().realloc_pool, 1);
}

#[test]
fn the_generator_has_known_values() {
    let mut rng = XorShift64::new(1);
    assert_eq!(next_random(&mut rng), 1_082_269_761);
    assert_eq!(count(&rng), 1);
    reseed(&mut rng, 0);
    assert_eq!(count(&rng), 0);
    assert_eq!(next_random(&mut rng), 1_082_269_761);
}
