//! Settings of the exploration.

use vstd::prelude::*;

verus! {

/// How many timelines run at a time.
#[derive(Debug, Clone, Copy, PartialEq, Eq, Structural)]
pub enum Parallelism {
    /// As many as there are processors.
    MaxCores,
    /// Half as many as there are processors, rounded up.
    HalfCores,
    /// A fixed number.
    Cores(usize),
    /// As many as there are processors, less a fixed number.
    MaxCoresMinus(usize),
}

/// How many timelines run at a time on `ncpus` processors; at least one.
pub open spec fn parallel_slots(p: Parallelism, ncpus: nat) -> nat {
    let n: int = match p {
        Parallelism::MaxCores => ncpus as int,
        Parallelism::HalfCores => (ncpus + 1) as int / 2,
        Parallelism::Cores(c) => c as int,
        Parallelism::MaxCoresMinus(minus) => ncpus - minus,
    };
    if n < 1 {
        1
    } else {
        n as nat
    }
}

/// Resolves how many timelines run at a time. `ncpus` is what the system says of
/// its processors; where that is not positive, one is counted.
pub fn resolve_parallelism(p: &Parallelism, ncpus: i64) -> (n: usize)
    requires
        ncpus <= usize::MAX,
    ensures
        n == parallel_slots(
            *p,
            if ncpus > 0 {
                ncpus as nat
            } else {
                1
            },
        ),
{
    let ncpus: usize = if ncpus > 0 {
        ncpus as usize
    } else {
        1
    };
    let n: usize = match p {
        Parallelism::MaxCores => ncpus,
        Parallelism::HalfCores => ncpus / 2 + ncpus % 2,
        Parallelism::Cores(c) => *c,
        Parallelism::MaxCoresMinus(minus) => {
            if ncpus >= *minus {
                ncpus - *minus
            } else {
                0
            }
        },
    };
    if n < 1 {
        1
    } else {
        n
    }
}

/// Settings of adaptive splitting.
#[derive(Debug, Clone, Copy, PartialEq, Eq, Structural)]
pub struct AdaptiveConfig {
    /// Timelines per batch.
    pub batch_size: u32,
    /// The fewest timelines per mark.
    pub min_timelines: u32,
    /// The most timelines per mark.
    pub max_timelines: u32,
    /// The energy of a mark.
    pub per_mark_energy: i64,
    /// A smaller number of timelines per mark for a warm start. Splitting goes by
    /// `min_timelines`, warm or not.
    pub warm_min_timelines: Option<u32>,
}

/// Settings of the exploration.
#[derive(Debug, Clone, Copy, PartialEq, Eq, Structural)]
pub struct ExplorationConfig {
    /// How deep timelines split.
    pub max_depth: u32,
    /// Timelines per split, where splitting is not adaptive.
    pub timelines_per_split: u32,
    /// How many timelines run in all.
    pub global_energy: i64,
    /// Adaptive splitting, where wanted.
    pub adaptive: Option<AdaptiveConfig>,
    /// How many timelines run at a time, where more than one.
    pub parallelism: Option<Parallelism>,
}

} // verus!
