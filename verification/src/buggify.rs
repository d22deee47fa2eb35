//! Deterministic fault injection.
//!
//! Each location is activated or not, once per simulation run. Active locations
//! fire with a probability on each call.

use crate::random::{RandomProvider, ratio_below};
use crate::table::Table;
use vstd::prelude::*;

verus! {

/// The probability, in parts per million, with which an active location fires
/// where no other is given.
pub const DEFAULT_FIRING: u32 = 250_000;

/// Which locations inject faults.
pub struct Buggify {
    enabled: bool,
    active_locations: Table<String, bool>,
    activation: u32,
}

/// What a [`Buggify`] says.
#[verifier::ext_equal]
pub ghost struct BuggifyView {
    /// Whether faults are injected at all.
    pub enabled: bool,
    /// The locations met so far, and whether they are active.
    pub active: Map<Seq<char>, bool>,
    /// The probability that a location is active, in parts per million.
    pub activation: u32,
}

impl View for Buggify {
    type V = BuggifyView;

    closed spec fn view(&self) -> BuggifyView {
        BuggifyView {
            enabled: self.enabled,
            active: self.active_locations@,
            activation: self.activation,
        }
    }
}

/// No fault injection.
pub open spec fn buggify_off() -> BuggifyView {
    BuggifyView { enabled: false, active: Map::empty(), activation: 0 }
}

/// Whether the location `at` fires with probability `ppm`, and the states after
/// that was decided. The first time at a location decides whether it is active.
pub open spec fn buggify_draw<R: RandomProvider>(
    b: BuggifyView,
    rng: R,
    ppm: u32,
    at: Seq<char>,
) -> (bool, BuggifyView, R) {
    if !b.enabled || ppm == 0 {
        (false, b, rng)
    } else {
        let (active, b1, rng1) = if b.active.contains_key(at) {
            (b.active[at], b, rng)
        } else {
            let active = ratio_below(rng.ratio_draw().0, b.activation);
            (
                active,
                BuggifyView { active: b.active.insert(at, active), ..b },
                rng.ratio_draw().1,
            )
        };
        if active {
            (ratio_below(rng1.ratio_draw().0, ppm), b1, rng1.ratio_draw().1)
        } else {
            (false, b1, rng1)
        }
    }
}

impl Buggify {
    /// The table of locations is well formed.
    pub closed spec fn wf(&self) -> bool {
        self.active_locations.wf()
    }

    /// No fault injection.
    pub fn new() -> (b: Self)
        ensures
            b.wf(),
            b@ == buggify_off(),
    {
        Buggify { enabled: false, active_locations: Table::new(), activation: 0 }
    }
}

/// Starts fault injection for a simulation run.
pub fn buggify_init(state: &mut Buggify, activation: u32, _firing: u32)
    ensures
        final(state).wf(),
        final(state)@ == (BuggifyView { enabled: true, active: Map::empty(), activation }),
{
    state.enabled = true;
    state.active_locations = Table::new();
    state.activation = activation;
}

/// Ends fault injection.
pub fn buggify_reset(state: &mut Buggify)
    ensures
        final(state).wf(),
        final(state)@ == buggify_off(),
{
    state.enabled = false;
    state.active_locations = Table::new();
    state.activation = 0;
}

/// Decides whether the fault at `location` is injected, with probability `ppm`
/// where the location is active.
pub fn buggify_internal<R: RandomProvider>(
    state: &mut Buggify,
    rng: &mut R,
    ppm: u32,
    location: &str,
) -> (fires: bool)
    requires
        old(state).wf(),
    ensures
        final(state).wf(),
        (fires, final(state)@, *final(rng)) == buggify_draw(old(state)@, *old(rng), ppm, location@),
{
    if !state.enabled || ppm == 0 {
        return false;
    }
    let key: String = location.to_owned();
    let known: Option<bool> = match state.active_locations.get(&key) {
        Some(active) => Some(*active),
        None => None,
    };
    let is_active: bool = match known {
        Some(active) => active,
        None => {
            let active: bool = rng.random_bool(state.activation);
            state.active_locations.insert(key, active);
            active
        },
    };
    is_active && rng.random_bool(ppm)
}

/// While faults are injected, a location that was found active stays active, and
/// one that was not stays inactive.
pub proof fn lemma_activation_is_decided_once<R: RandomProvider>(
    b: BuggifyView,
    rng: R,
    ppm: u32,
    at: Seq<char>,
    other: Seq<char>,
)
    ensures
        ({
            let b1 = buggify_draw(b, rng, ppm, at).1;
            &&& b1.enabled == b.enabled
            &&& b1.activation == b.activation
            &&& b.active.contains_key(other) ==> b1.active.contains_key(other)
                && b1.active[other] == b.active[other]
            &&& b.enabled && ppm > 0 ==> b1.active.contains_key(at)
            &&& buggify_draw(b, rng, ppm, at).0 ==> b1.active.contains_key(at) && b1.active[at]
        }),
{
}

} // verus!
