//! The energy that timelines are paid from: a global budget, a budget per mark,
//! and a pool of what marks gave back.

use crate::assertion_slots::MAX_ASSERTION_SLOTS;
use crate::counts::plus_energy;
use vstd::prelude::*;

verus! {

/// The budgets.
#[derive(Debug)]
pub struct EnergyBudget {
    /// What is left in all.
    pub global_remaining: i64,
    /// What is left per mark.
    pub per_mark: Vec<i64>,
    /// Which marks got their budget.
    pub funded: Vec<bool>,
    /// What a mark starts with.
    pub per_mark_initial: i64,
    /// What marks gave back.
    pub realloc_pool: i64,
}

/// What an [`EnergyBudget`] says.
#[verifier::ext_equal]
pub ghost struct EnergyView {
    pub global_remaining: i64,
    pub per_mark: Seq<i64>,
    pub funded: Seq<bool>,
    pub per_mark_initial: i64,
    pub realloc_pool: i64,
}

impl View for EnergyBudget {
    type V = EnergyView;

    open spec fn view(&self) -> EnergyView {
        EnergyView {
            global_remaining: self.global_remaining,
            per_mark: self.per_mark@,
            funded: self.funded@,
            per_mark_initial: self.per_mark_initial,
            realloc_pool: self.realloc_pool,
        }
    }
}

/// Budgets of which nothing was given to a mark yet.
pub open spec fn fresh_energy(global_energy: i64, per_mark_initial: i64) -> EnergyView {
    EnergyView {
        global_remaining: global_energy,
        per_mark: Seq::new(MAX_ASSERTION_SLOTS as nat, |i: int| 0i64),
        funded: Seq::new(MAX_ASSERTION_SLOTS as nat, |i: int| false),
        per_mark_initial,
        realloc_pool: 0,
    }
}

/// A mark got its budget, unless it got it before.
pub open spec fn mark_funded(e: EnergyView, slot: int) -> EnergyView {
    if slot < MAX_ASSERTION_SLOTS && !e.funded[slot] {
        EnergyView {
            per_mark: e.per_mark.update(slot, e.per_mark_initial),
            funded: e.funded.update(slot, true),
            ..e
        }
    } else {
        e
    }
}

/// Whether a mark can pay for a timeline, and the budgets after it did: from the
/// global budget, and from its own or else from the pool. Nothing is paid where
/// one of them is short.
pub open spec fn mark_charged(e: EnergyView, slot: int) -> (bool, EnergyView) {
    if e.global_remaining <= 0 || slot >= MAX_ASSERTION_SLOTS {
        (false, e)
    } else if e.per_mark[slot] > 0 {
        (
            true,
            EnergyView {
                global_remaining: (e.global_remaining - 1) as i64,
                per_mark: e.per_mark.update(slot, (e.per_mark[slot] - 1) as i64),
                ..e
            },
        )
    } else if e.realloc_pool > 0 {
        (
            true,
            EnergyView {
                global_remaining: (e.global_remaining - 1) as i64,
                realloc_pool: (e.realloc_pool - 1) as i64,
                ..e
            },
        )
    } else {
        (false, e)
    }
}

/// A mark gave what it had left to the pool.
pub open spec fn mark_refunded(e: EnergyView, slot: int) -> EnergyView {
    if slot < MAX_ASSERTION_SLOTS {
        EnergyView {
            per_mark: e.per_mark.update(slot, 0),
            realloc_pool: if e.per_mark[slot] > 0 {
                plus_energy(e.realloc_pool, e.per_mark[slot])
            } else {
                e.realloc_pool
            },
            ..e
        }
    } else {
        e
    }
}

impl EnergyBudget {
    /// There is a budget for every mark.
    pub open spec fn wf(&self) -> bool {
        self.per_mark@.len() == MAX_ASSERTION_SLOTS && self.funded@.len() == MAX_ASSERTION_SLOTS
    }
}

/// Budgets for an exploration.
pub fn init_energy_budget(global_energy: i64, per_mark_initial: i64) -> (e: EnergyBudget)
    ensures
        e.wf(),
        e@ == fresh_energy(global_energy, per_mark_initial),
{
    let mut per_mark: Vec<i64> = Vec::new();
    let mut funded: Vec<bool> = Vec::new();
    while per_mark.len() < MAX_ASSERTION_SLOTS
        invariant
            per_mark@.len() <= MAX_ASSERTION_SLOTS,
            funded@.len() == per_mark@.len(),
            forall|i: int| 0 <= i < per_mark@.len() ==> #[trigger] per_mark@[i] == 0,
            forall|i: int| 0 <= i < funded@.len() ==> !#[trigger] funded@[i],
        decreases MAX_ASSERTION_SLOTS - per_mark@.len(),
    {
        per_mark.push(0);
        funded.push(false);
    }
    EnergyBudget {
        global_remaining: global_energy,
        per_mark,
        funded,
        per_mark_initial,
        realloc_pool: 0,
    }
}

/// Fresh budgets for another seed. Marks start with what they started with before.
pub fn reset_energy_budget(budget: &mut EnergyBudget, global_energy: i64)
    ensures
        final(budget).wf(),
        final(budget)@ == fresh_energy(global_energy, old(budget)@.per_mark_initial),
{
    let initial: i64 = budget.per_mark_initial;
    *budget = init_energy_budget(global_energy, initial);
}

/// Gives a mark its budget, the first time.
pub fn init_mark_budget(budget: &mut EnergyBudget, slot_idx: usize)
    requires
        old(budget).wf(),
    ensures
        final(budget).wf(),
        final(budget)@ == mark_funded(old(budget)@, slot_idx as int),
{
    if slot_idx < MAX_ASSERTION_SLOTS && !budget.funded[slot_idx] {
        let initial: i64 = budget.per_mark_initial;
        budget.per_mark.set(slot_idx, initial);
        budget.funded.set(slot_idx, true);
    }
}

/// Pays for a timeline of a mark. Returns whether there was energy for it.
pub fn decrement_mark_energy(budget: &mut EnergyBudget, slot_idx: usize) -> (paid: bool)
    requires
        old(budget).wf(),
    ensures
        final(budget).wf(),
        (paid, final(budget)@) == mark_charged(old(budget)@, slot_idx as int),
{
    if budget.global_remaining <= 0 || slot_idx >= MAX_ASSERTION_SLOTS {
        return false;
    }
    let own: i64 = budget.per_mark[slot_idx];
    if own > 0 {
        budget.global_remaining = budget.global_remaining - 1;
        budget.per_mark.set(slot_idx, own - 1);
        return true;
    }
    if budget.realloc_pool > 0 {
        budget.global_remaining = budget.global_remaining - 1;
        budget.realloc_pool = budget.realloc_pool - 1;
        return true;
    }
    false
}

/// Gives what a mark has left to the pool.
pub fn return_mark_energy_to_pool(budget: &mut EnergyBudget, slot_idx: usize)
    requires
        old(budget).wf(),
    ensures
        final(budget).wf(),
        final(budget)@ == mark_refunded(old(budget)@, slot_idx as int),
{
    if slot_idx < MAX_ASSERTION_SLOTS {
        let remaining: i64 = budget.per_mark[slot_idx];
        budget.per_mark.set(slot_idx, 0);
        if remaining > 0 {
            budget.realloc_pool = budget.realloc_pool.wrapping_add(remaining);
        }
    }
}

/// A mark gets its budget once: whatever it spent or gave back since, it gets no other.
pub proof fn lemma_marks_are_funded_once(e: EnergyView, slot: int, other: int)
    requires
        e.per_mark.len() == MAX_ASSERTION_SLOTS,
        e.funded.len() == MAX_ASSERTION_SLOTS,
        0 <= slot < MAX_ASSERTION_SLOTS,
        0 <= other < MAX_ASSERTION_SLOTS,
    ensures
        mark_funded(e, slot).funded[slot],
        !e.funded[slot] ==> mark_funded(e, slot).per_mark[slot] == e.per_mark_initial,
        e.funded[slot] ==> mark_funded(e, slot) == e,
        e.funded[slot] ==> mark_funded(e, other).funded[slot],
        mark_charged(e, other).1.funded == e.funded,
        mark_refunded(e, other).funded == e.funded,
{
}

/// No budget is overdrawn.
pub open spec fn solvent(e: EnergyView) -> bool {
    &&& e.global_remaining >= 0
    &&& e.realloc_pool >= 0
    &&& forall|i: int| 0 <= i < e.per_mark.len() ==> #[trigger] e.per_mark[i] >= 0
}

/// Paying for a timeline takes one unit of the global budget and one unit of what
/// the mark and the pool hold together, and overdraws nothing. Where nothing is
/// paid, nothing changes.
pub proof fn lemma_charge_is_exact(e: EnergyView, slot: int)
    requires
        e.per_mark.len() == MAX_ASSERTION_SLOTS,
        solvent(e),
        0 <= slot,
    ensures
        ({
            let (paid, after) = mark_charged(e, slot);
            &&& solvent(after)
            &&& !paid ==> after == e
            &&& paid ==> after.global_remaining == e.global_remaining - 1
            &&& paid ==> after.per_mark[slot] + after.realloc_pool == e.per_mark[slot]
                + e.realloc_pool - 1
            &&& forall|i: int|
                0 <= i < e.per_mark.len() && i != slot ==> #[trigger] after.per_mark[i]
                    == e.per_mark[i]
        }),
{
}

/// What a mark gives back goes to the pool, and nothing is lost.
pub proof fn lemma_refund_conserves(e: EnergyView, slot: int)
    requires
        e.per_mark.len() == MAX_ASSERTION_SLOTS,
        solvent(e),
        0 <= slot < MAX_ASSERTION_SLOTS,
        e.per_mark[slot] + e.realloc_pool <= i64::MAX,
    ensures
        ({
            let after = mark_refunded(e, slot);
            &&& solvent(after)
            &&& after.per_mark[slot] == 0
            &&& after.realloc_pool == e.per_mark[slot] + e.realloc_pool
            &&& after.global_remaining == e.global_remaining
        }),
{
}

} // verus!
