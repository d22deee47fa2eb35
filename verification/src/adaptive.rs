//! Scenarios for adaptive exploration: chains of doors that a timeline passes with
//! some luck, each of which is a mark at which timelines are split off.
//!
//! A scenario decides which mark comes next and how a timeline ends; whoever drives it
//! tracks the marks and splits.

use crate::context::ExplorerState;
use crate::explorer::{exploring, init};
use crate::shared_stats::ExplorationStats;
use crate::split_config::{AdaptiveConfig, ExplorationConfig};
use crate::split_loop::BUG_EXIT_CODE;
use crate::text::{append_decimal, decimal};
use crate::xorshift::{advanced, random_below, reseed, seeded, xorshift, XorShift64};
use vstd::prelude::*;
use vstd::string::StringExecFns;

verus! {

/// Why a scenario failed.
#[derive(Debug, Clone, PartialEq, Eq)]
pub enum AdaptiveTestError {
    /// The exploration could not be started.
    Init {
        /// Why not.
        reason: String,
    },
    /// There was no summary.
    StatsUnavailable,
    /// No timeline was split off.
    NoForks {
        /// Timelines that were run.
        total: u64,
    },
    /// No timeline came back.
    NoForkPoints {
        /// Timelines that came back.
        points: u64,
    },
    /// There were more timelines than energy.
    EnergyExceeded {
        /// Timelines that were run.
        total: u64,
        /// The most that should be.
        limit: u64,
    },
    /// The global energy was overdrawn.
    EnergyNegative {
        /// What is left.
        energy: i64,
    },
    /// The pool was overdrawn.
    PoolNegative {
        /// What is left.
        pool: i64,
    },
}

/// A number with a sign in decimal.
pub open spec fn signed_decimal(n: int) -> Seq<char> {
    if n < 0 {
        seq!['-'] + decimal(-n)
    } else {
        decimal(n)
    }
}

fn append_signed(out: &mut String, n: i64)
    ensures
        final(out)@ == old(out)@ + signed_decimal(n as int),
{
    if n < 0 {
        let ghost before = out@;
        proof {
            reveal_strlit("-");
        }
        out.append("-");
        let size: u64 = (-(n + 1)) as u64 + 1;
        append_decimal(out, size);
        assert(out@ =~= before + signed_decimal(n as int));
    } else {
        append_decimal(out, n as u64);
    }
}

impl AdaptiveTestError {
    /// What an error says.
    pub open spec fn told(self) -> Seq<char> {
        match self {
            AdaptiveTestError::Init { reason } => "init failed: "@ + reason@,
            AdaptiveTestError::StatsUnavailable => "stats unavailable"@,
            AdaptiveTestError::NoForks { total } => "expected forked children, got total_timelines="@
                + decimal(total as int),
            AdaptiveTestError::NoForkPoints { points } => "expected fork points, got fork_points="@
                + decimal(points as int),
            AdaptiveTestError::EnergyExceeded { total, limit } => {
                "energy limit exceeded: total_timelines="@ + decimal(total as int)
                    + " (expected <= "@ + decimal(limit as int) + ")"@
            },
            AdaptiveTestError::EnergyNegative { energy } => "energy went negative: global_energy="@
                + signed_decimal(energy as int),
            AdaptiveTestError::PoolNegative { pool } => "realloc pool went negative: realloc_pool="@
                + signed_decimal(pool as int),
        }
    }

    /// Tells the error.
    pub fn describe(&self) -> (text: String)
        ensures
            text@ == self.told(),
    {
        match self {
            AdaptiveTestError::Init { reason } => {
                let mut text = "init failed: ".to_owned();
                text.append(reason.as_str());
                text
            },
            AdaptiveTestError::StatsUnavailable => "stats unavailable".to_owned(),
            AdaptiveTestError::NoForks { total } => {
                let mut text = "expected forked children, got total_timelines=".to_owned();
                append_decimal(&mut text, *total);
                text
            },
            AdaptiveTestError::NoForkPoints { points } => {
                let mut text = "expected fork points, got fork_points=".to_owned();
                append_decimal(&mut text, *points);
                text
            },
            AdaptiveTestError::EnergyExceeded { total, limit } => {
                let mut text = "energy limit exceeded: total_timelines=".to_owned();
                append_decimal(&mut text, *total);
                text.append(" (expected <= ");
                append_decimal(&mut text, *limit);
                text.append(")");
                text
            },
            AdaptiveTestError::EnergyNegative { energy } => {
                let mut text = "energy went negative: global_energy=".to_owned();
                append_signed(&mut text, *energy);
                text
            },
            AdaptiveTestError::PoolNegative { pool } => {
                let mut text = "realloc pool went negative: realloc_pool=".to_owned();
                append_signed(&mut text, *pool);
                text
            },
        }
    }
}

/// A scenario.
#[derive(Debug, Clone, Copy, PartialEq, Eq, Structural)]
pub enum Scenario {
    /// Three locks, of which each needs two doors and the locks before it.
    MazeCascade,
    /// Five floors, of which each needs a key and the floors before it.
    DungeonFloors,
    /// Three marks that every timeline passes, with little energy.
    EnergyBudget,
}

/// How many marks a scenario has.
pub open spec fn mark_count(s: Scenario) -> u32 {
    match s {
        Scenario::MazeCascade => 7,
        Scenario::DungeonFloors => 6,
        Scenario::EnergyBudget => 3,
    }
}

/// The name of a mark.
pub open spec fn mark_text(s: Scenario, mark: u32) -> Seq<char> {
    match s {
        Scenario::MazeCascade => if mark == 0 {
            "maze_entry"@
        } else if mark == 1 {
            "maze_g0a"@
        } else if mark == 2 {
            "maze_lock0"@
        } else if mark == 3 {
            "maze_g1a"@
        } else if mark == 4 {
            "maze_lock1"@
        } else if mark == 5 {
            "maze_g2a"@
        } else {
            "maze_lock2"@
        },
        Scenario::DungeonFloors => if mark == 0 {
            "dungeon_entry"@
        } else if mark == 1 {
            "dungeon_f0"@
        } else if mark == 2 {
            "dungeon_f1"@
        } else if mark == 3 {
            "dungeon_f2"@
        } else if mark == 4 {
            "dungeon_f3"@
        } else {
            "dungeon_f4"@
        },
        Scenario::EnergyBudget => if mark == 0 {
            "energy_a"@
        } else if mark == 1 {
            "energy_b"@
        } else {
            "energy_c"@
        },
    }
}

fn mark_name(s: Scenario, mark: u32) -> (name: &'static str)
    ensures
        name@ == mark_text(s, mark),
{
    match s {
        Scenario::MazeCascade => match mark {
            0 => "maze_entry",
            1 => "maze_g0a",
            2 => "maze_lock0",
            3 => "maze_g1a",
            4 => "maze_lock1",
            5 => "maze_g2a",
            _ => "maze_lock2",
        },
        Scenario::DungeonFloors => match mark {
            0 => "dungeon_entry",
            1 => "dungeon_f0",
            2 => "dungeon_f1",
            3 => "dungeon_f2",
            4 => "dungeon_f3",
            _ => "dungeon_f4",
        },
        Scenario::EnergyBudget => match mark {
            0 => "energy_a",
            1 => "energy_b",
            _ => "energy_c",
        },
    }
}

/// The odds of the door before a mark: so many of so many. The first mark has no door,
/// and neither has any where only energy counts.
pub open spec fn door_odds(s: Scenario, mark: u32) -> Option<(u32, u32)> {
    match s {
        Scenario::MazeCascade => if mark == 0 {
            None
        } else {
            Some((3, 10))
        },
        Scenario::DungeonFloors => if mark == 0 {
            None
        } else {
            Some((1, 5))
        },
        Scenario::EnergyBudget => None,
    }
}

fn odds(s: Scenario, mark: u32) -> (r: Option<(u32, u32)>)
    ensures
        r == door_odds(s, mark),
        r matches Some((_, of)) ==> of > 0,
{
    match s {
        Scenario::MazeCascade => if mark == 0 {
            None
        } else {
            Some((3, 10))
        },
        Scenario::DungeonFloors => if mark == 0 {
            None
        } else {
            Some((1, 5))
        },
        Scenario::EnergyBudget => None,
    }
}

/// The seed of a scenario.
pub open spec fn scenario_seed(s: Scenario) -> u64 {
    match s {
        Scenario::MazeCascade => 42,
        Scenario::DungeonFloors => 7777,
        Scenario::EnergyBudget => 99,
    }
}

/// The settings of a scenario.
pub open spec fn scenario_config(s: Scenario) -> ExplorationConfig {
    match s {
        Scenario::MazeCascade => adaptive_config(8, 150, 4, 20, 15),
        Scenario::DungeonFloors => adaptive_config(7, 200, 4, 25, 20),
        Scenario::EnergyBudget => adaptive_config(3, 8, 2, 6, 3),
    }
}

/// Settings with as many timelines at least as there are in a batch.
pub open spec fn adaptive_config(
    max_depth: u32,
    global_energy: i64,
    batch_size: u32,
    max_timelines: u32,
    per_mark_energy: i64,
) -> ExplorationConfig {
    ExplorationConfig {
        max_depth,
        timelines_per_split: 4,
        global_energy,
        adaptive: Some(
            AdaptiveConfig {
                batch_size,
                min_timelines: batch_size,
                max_timelines,
                per_mark_energy,
                warm_min_timelines: None,
            },
        ),
        parallelism: None,
    }
}

fn make_config(
    max_depth: u32,
    global_energy: i64,
    batch_size: u32,
    max_timelines: u32,
    per_mark_energy: i64,
) -> (c: ExplorationConfig)
    ensures
        c == adaptive_config(max_depth, global_energy, batch_size, max_timelines, per_mark_energy),
{
    ExplorationConfig {
        max_depth,
        timelines_per_split: 4,
        global_energy,
        adaptive: Some(
            AdaptiveConfig {
                batch_size,
                min_timelines: batch_size,
                max_timelines,
                per_mark_energy,
                warm_min_timelines: None,
            },
        ),
        parallelism: None,
    }
}

/// A timeline of a scenario.
#[derive(Debug, Clone, Copy, PartialEq, Eq, Structural)]
pub struct ScenarioRun {
    /// The scenario.
    pub scenario: Scenario,
    /// The mark that comes next.
    pub next_mark: u32,
    /// Whether the timeline stood before a door that it did not pass.
    pub stopped: bool,
}

/// What a timeline does next.
#[derive(Debug, Clone, Copy)]
pub enum ScenarioStep {
    /// It passes a mark: the mark is to be tracked as something that sometimes holds,
    /// and timelines to be split off at it.
    Mark {
        /// The name of the mark.
        name: &'static str,
    },
    /// It was split off and ends.
    Exit {
        /// The code that it ends with.
        code: i32,
    },
    /// It is the first timeline and has come to its end.
    Done,
}

/// What a [`ScenarioStep`] says.
pub ghost enum ScenarioStepView {
    Mark(Seq<char>),
    Exit(i32),
    Done,
}

impl View for ScenarioStep {
    type V = ScenarioStepView;

    open spec fn view(&self) -> ScenarioStepView {
        match *self {
            ScenarioStep::Mark { name } => ScenarioStepView::Mark(name@),
            ScenarioStep::Exit { code } => ScenarioStepView::Exit(code),
            ScenarioStep::Done => ScenarioStepView::Done,
        }
    }
}

/// Whether a timeline found the bug: it passed all the doors of a scenario that has
/// doors.
pub open spec fn bug_reached(r: ScenarioRun) -> bool {
    r.next_mark >= mark_count(r.scenario) && !(r.scenario is EnergyBudget)
}

/// How a timeline ends.
pub open spec fn scenario_end(r: ScenarioRun, is_child: bool) -> ScenarioStepView {
    if is_child {
        ScenarioStepView::Exit(
            if bug_reached(r) {
                BUG_EXIT_CODE
            } else {
                0
            },
        )
    } else {
        ScenarioStepView::Done
    }
}

/// Whether a timeline passes the door before its next mark.
pub open spec fn door_passed(r: ScenarioRun, rng: XorShift64) -> bool {
    match door_odds(r.scenario, r.next_mark) {
        Some((wins, of)) => xorshift(rng.state) % (of as u64) < wins,
        None => true,
    }
}

/// The generator after the door before the next mark of a timeline.
pub open spec fn door_drawn(r: ScenarioRun, rng: XorShift64) -> XorShift64 {
    match door_odds(r.scenario, r.next_mark) {
        Some(odds) => advanced(rng),
        None => rng,
    }
}

/// What a timeline and the generator are after a step, and what the timeline does.
pub open spec fn scenario_stepped(r: ScenarioRun, rng: XorShift64, is_child: bool) -> (
    ScenarioRun,
    XorShift64,
    ScenarioStepView,
) {
    if r.stopped || r.next_mark >= mark_count(r.scenario) {
        (r, rng, scenario_end(r, is_child))
    } else if door_passed(r, rng) {
        (
            ScenarioRun { next_mark: (r.next_mark + 1) as u32, ..r },
            door_drawn(r, rng),
            ScenarioStepView::Mark(mark_text(r.scenario, r.next_mark)),
        )
    } else {
        let stopped = ScenarioRun { stopped: true, ..r };
        (stopped, door_drawn(r, rng), scenario_end(stopped, is_child))
    }
}

impl ScenarioRun {
    /// Decides what the timeline does next.
    pub fn step(&mut self, rng: &mut XorShift64, is_child: bool) -> (step: ScenarioStep)
        ensures
            (*final(self), *final(rng), step@) == scenario_stepped(
                *old(self),
                *old(rng),
                is_child,
            ),
    {
        let marks: u32 = match self.scenario {
            Scenario::MazeCascade => 7,
            Scenario::DungeonFloors => 6,
            Scenario::EnergyBudget => 3,
        };
        if !self.stopped && self.next_mark < marks {
            let passed: bool = match odds(self.scenario, self.next_mark) {
                Some((wins, of)) => random_below(rng, of) < wins,
                None => true,
            };
            if passed {
                let name = mark_name(self.scenario, self.next_mark);
                self.next_mark = self.next_mark + 1;
                return ScenarioStep::Mark { name };
            }
            self.stopped = true;
        }
        if !is_child {
            return ScenarioStep::Done;
        }
        let bug: bool = self.next_mark >= marks && match self.scenario {
            Scenario::EnergyBudget => false,
            _ => true,
        };
        if bug {
            ScenarioStep::Exit { code: BUG_EXIT_CODE }
        } else {
            ScenarioStep::Exit { code: 0 }
        }
    }
}

/// Begins the maze: its locks and doors are chained, so that without splits hardly any
/// timeline opens them all.
pub fn run_adaptive_maze_cascade(state: &mut ExplorerState, rng: &mut XorShift64) -> (r:
    ScenarioRun)
    requires
        old(state).wf(),
    ensures
        final(state).wf(),
        *final(rng) == seeded(scenario_seed(Scenario::MazeCascade)),
        final(state)@ == exploring(old(state)@, scenario_config(Scenario::MazeCascade)),
        r == (ScenarioRun { scenario: Scenario::MazeCascade, next_mark: 0, stopped: false }),
{
    reseed(rng, 42);
    init(state, make_config(8, 150, 4, 20, 15));
    ScenarioRun { scenario: Scenario::MazeCascade, next_mark: 0, stopped: false }
}

/// Begins the dungeon: each of its floors needs the key of the one before.
pub fn run_adaptive_dungeon_floors(state: &mut ExplorerState, rng: &mut XorShift64) -> (r:
    ScenarioRun)
    requires
        old(state).wf(),
    ensures
        final(state).wf(),
        *final(rng) == seeded(scenario_seed(Scenario::DungeonFloors)),
        final(state)@ == exploring(old(state)@, scenario_config(Scenario::DungeonFloors)),
        r == (ScenarioRun { scenario: Scenario::DungeonFloors, next_mark: 0, stopped: false }),
{
    reseed(rng, 7777);
    init(state, make_config(7, 200, 4, 25, 20));
    ScenarioRun { scenario: Scenario::DungeonFloors, next_mark: 0, stopped: false }
}

/// Begins the scenario in which only energy counts.
pub fn run_adaptive_energy_budget(state: &mut ExplorerState, rng: &mut XorShift64) -> (r:
    ScenarioRun)
    requires
        old(state).wf(),
    ensures
        final(state).wf(),
        *final(rng) == seeded(scenario_seed(Scenario::EnergyBudget)),
        final(state)@ == exploring(old(state)@, scenario_config(Scenario::EnergyBudget)),
        r == (ScenarioRun { scenario: Scenario::EnergyBudget, next_mark: 0, stopped: false }),
{
    reseed(rng, 99);
    init(state, make_config(3, 8, 2, 6, 3));
    ScenarioRun { scenario: Scenario::EnergyBudget, next_mark: 0, stopped: false }
}

/// What is wrong with the summary of a scenario.
pub open spec fn scenario_fault(s: Scenario, stats: Option<ExplorationStats>) -> Option<
    AdaptiveTestError,
> {
    match stats {
        None => Some(AdaptiveTestError::StatsUnavailable),
        Some(t) => match s {
            Scenario::EnergyBudget => if t.total_timelines > 8 {
                Some(AdaptiveTestError::EnergyExceeded { total: t.total_timelines, limit: 8 })
            } else if t.global_energy < 0 {
                Some(AdaptiveTestError::EnergyNegative { energy: t.global_energy })
            } else if t.realloc_pool_remaining < 0 {
                Some(AdaptiveTestError::PoolNegative { pool: t.realloc_pool_remaining })
            } else {
                None
            },
            _ => if t.total_timelines == 0 {
                Some(AdaptiveTestError::NoForks { total: t.total_timelines })
            } else if t.fork_points == 0 {
                Some(AdaptiveTestError::NoForkPoints { points: t.fork_points })
            } else {
                None
            },
        },
    }
}

/// Checks the summary of a scenario.
pub fn check_scenario(s: Scenario, stats: Option<ExplorationStats>) -> (r: Result<
    (),
    AdaptiveTestError,
>)
    ensures
        match r {
            Ok(()) => scenario_fault(s, stats) is None,
            Err(e) => scenario_fault(s, stats) == Some(e),
        },
{
    match stats {
        None => Err(AdaptiveTestError::StatsUnavailable),
        Some(t) => match s {
            Scenario::EnergyBudget => if t.total_timelines > 8 {
                Err(AdaptiveTestError::EnergyExceeded { total: t.total_timelines, limit: 8 })
            } else if t.global_energy < 0 {
                Err(AdaptiveTestError::EnergyNegative { energy: t.global_energy })
            } else if t.realloc_pool_remaining < 0 {
                Err(AdaptiveTestError::PoolNegative { pool: t.realloc_pool_remaining })
            } else {
                Ok(())
            },
            _ => if t.total_timelines == 0 {
                Err(AdaptiveTestError::NoForks { total: t.total_timelines })
            } else if t.fork_points == 0 {
                Err(AdaptiveTestError::NoForkPoints { points: t.fork_points })
            } else {
                Ok(())
            },
        },
    }
}

} // verus!
