//! Coverage of the edges of instrumented code.
//!
//! Each edge has a counter. A run hands its counters over, they are put into coarse
//! classes, and compared with the highest class that any run before it reached.

use vstd::prelude::*;

verus! {

/// The addresses that the counters lie at.
#[derive(Debug, Clone, Copy, PartialEq, Eq, Structural)]
pub struct CounterRange {
    /// The first address.
    pub start: usize,
    /// The address behind the last.
    pub stop: usize,
}

/// The smallest range that holds two ranges.
pub open spec fn range_join(a: CounterRange, b: CounterRange) -> CounterRange {
    CounterRange {
        start: if b.start < a.start {
            b.start
        } else {
            a.start
        },
        stop: if b.stop > a.stop {
            b.stop
        } else {
            a.stop
        },
    }
}

/// The range of the counters after one more part of the code told where its counters
/// lie. A part at no address, or without counters, changes nothing.
pub open spec fn range_with(
    known: Option<CounterRange>,
    start: usize,
    stop: usize,
) -> Option<CounterRange> {
    if start == 0 || stop == 0 || stop <= start {
        known
    } else {
        match known {
            None => Some(CounterRange { start, stop }),
            Some(k) => Some(range_join(k, CounterRange { start, stop })),
        }
    }
}

/// Takes note of where the counters of one more part of the code lie.
pub fn register_counters(known: Option<CounterRange>, start: usize, stop: usize) -> (r: Option<
    CounterRange,
>)
    ensures
        r == range_with(known, start, stop),
{
    if start == 0 || stop == 0 || stop <= start {
        return known;
    }
    match known {
        None => Some(CounterRange { start, stop }),
        Some(k) => {
            let first: usize = if start < k.start {
                start
            } else {
                k.start
            };
            let last: usize = if stop > k.stop {
                stop
            } else {
                k.stop
            };
            Some(CounterRange { start: first, stop: last })
        },
    }
}

/// One range covers the counters of all parts, in whatever order they came.
pub proof fn lemma_range_covers_parts(known: Option<CounterRange>, start: usize, stop: usize)
    requires
        0 < start < stop,
        known matches Some(k) ==> k.start < k.stop,
    ensures
        range_with(known, start, stop) matches Some(r) && r.start <= start && stop <= r.stop && (
        known matches Some(k) ==> r.start <= k.start && k.stop <= r.stop),
{
}

/// The class of a count.
pub open spec fn class_of(count: u8) -> u8 {
    if count <= 2 {
        count
    } else if count == 3 {
        4
    } else if count <= 7 {
        8
    } else if count <= 15 {
        16
    } else if count <= 31 {
        32
    } else if count <= 127 {
        64
    } else {
        128
    }
}

/// The class of a count.
pub fn count_class(count: u8) -> (class: u8)
    ensures
        class == class_of(count),
{
    if count <= 2 {
        count
    } else if count == 3 {
        4
    } else if count <= 7 {
        8
    } else if count <= 15 {
        16
    } else if count <= 31 {
        32
    } else if count <= 127 {
        64
    } else {
        128
    }
}

/// The classes of counts.
pub open spec fn classes(counts: Seq<u8>) -> Seq<u8> {
    Seq::new(counts.len(), |i: int| class_of(counts[i]))
}

/// Replaces counts by their classes.
pub fn classify_counts(buffer: &mut Vec<u8>)
    ensures
        final(buffer)@ == classes(old(buffer)@),
{
    let ghost before = buffer@;
    let n: usize = buffer.len();
    let mut i: usize = 0;
    while i < n
        invariant
            i <= n,
            n == before.len(),
            buffer@.len() == n,
            forall|j: int| 0 <= j < i ==> #[trigger] buffer@[j] == class_of(before[j]),
            forall|j: int| i <= j < n ==> #[trigger] buffer@[j] == before[j],
        decreases n - i,
    {
        let count: u8 = buffer[i];
        buffer.set(i, count_class(count));
        i += 1;
    }
    assert(buffer@ =~= classes(before));
}

/// The highest classes after a run with some classes.
pub open spec fn raised(history: Seq<u8>, run: Seq<u8>) -> Seq<u8> {
    Seq::new(
        history.len(),
        |i: int|
            if i < run.len() && run[i] > history[i] {
                run[i]
            } else {
                history[i]
            },
    )
}

/// Whether a run with some classes reached one that none before it did.
pub open spec fn reaches_new(history: Seq<u8>, run: Seq<u8>) -> bool {
    exists|i: int| 0 <= i < run.len() && 0 <= i < history.len() && #[trigger] run[i] > history[i]
}

/// Puts the counts of a run into classes, raises the highest classes to them, and
/// returns whether one was raised.
pub fn has_new_coverage_inner(buffer: &mut Vec<u8>, history: &mut Vec<u8>) -> (found: bool)
    ensures
        final(buffer)@ == classes(old(buffer)@),
        final(history)@ == raised(old(history)@, classes(old(buffer)@)),
        found == reaches_new(old(history)@, classes(old(buffer)@)),
{
    classify_counts(buffer);
    let ghost before = history@;
    let n: usize = if buffer.len() < history.len() {
        buffer.len()
    } else {
        history.len()
    };
    let mut found: bool = false;
    let mut i: usize = 0;
    while i < n
        invariant
            i <= n,
            n <= buffer@.len(),
            n <= history@.len(),
            history@.len() == before.len(),
            forall|j: int|
                0 <= j < i ==> #[trigger] history@[j] == (if buffer@[j] > before[j] {
                    buffer@[j]
                } else {
                    before[j]
                }),
            forall|j: int| i <= j < before.len() ==> #[trigger] history@[j] == before[j],
            found == (exists|j: int| 0 <= j < i && #[trigger] buffer@[j] > before[j]),
        decreases n - i,
    {
        let class: u8 = buffer[i];
        if class > history[i] {
            history.set(i, class);
            found = true;
            assert(buffer@[i as int] > before[i as int]);
        }
        i += 1;
    }
    assert(history@ =~= raised(before, buffer@));
    found
}

/// A run that is looked at again reaches nothing new, and the highest classes never
/// fall.
pub proof fn lemma_second_look_is_not_new(history: Seq<u8>, run: Seq<u8>)
    ensures
        !reaches_new(raised(history, run), run),
        raised(raised(history, run), run) == raised(history, run),
        !reaches_new(history, run) ==> raised(history, run) == history,
        forall|i: int| 0 <= i < history.len() ==> #[trigger] raised(history, run)[i] >= history[i],
{
    assert(raised(raised(history, run), run) =~= raised(history, run));
    if !reaches_new(history, run) {
        assert(raised(history, run) =~= history);
    }
}

/// What is kept of the edges of the instrumented code.
#[derive(Debug)]
pub struct Sancov {
    /// Where the counters lie, where the code is instrumented.
    pub counters: Option<CounterRange>,
    /// The counters that a run handed over.
    pub transfer: Option<Vec<u8>>,
    /// The highest class of each edge.
    pub history: Option<Vec<u8>>,
    /// The counters that runs beside each other handed over, slot after slot.
    pub pool: Option<Vec<Vec<u8>>>,
}

/// What a [`Sancov`] says.
#[verifier::ext_equal]
pub ghost struct SancovView {
    pub counters: Option<CounterRange>,
    pub transfer: Option<Seq<u8>>,
    pub history: Option<Seq<u8>>,
    pub pool: Option<Seq<Seq<u8>>>,
}

/// The slots of a pool.
pub open spec fn pool_view(slots: Seq<Vec<u8>>) -> Seq<Seq<u8>> {
    Seq::new(slots.len(), |i: int| slots[i]@)
}

impl View for Sancov {
    type V = SancovView;

    open spec fn view(&self) -> SancovView {
        SancovView {
            counters: self.counters,
            transfer: crate::context::opt_view(self.transfer),
            history: crate::context::opt_view(self.history),
            pool: match self.pool {
                Some(slots) => Some(pool_view(slots@)),
                None => None,
            },
        }
    }
}

/// How many edges there are.
pub open spec fn edge_count(v: SancovView) -> nat {
    match v.counters {
        Some(r) if r.start <= r.stop => (r.stop - r.start) as nat,
        _ => 0,
    }
}

/// How many edges were seen.
pub open spec fn covered_count(history: Seq<u8>) -> nat
    decreases history.len(),
{
    if history.len() == 0 {
        0
    } else {
        covered_count(history.drop_last()) + if history.last() != 0 {
            1nat
        } else {
            0nat
        }
    }
}

/// No counter was hit.
pub open spec fn zeros(n: nat) -> Seq<u8> {
    Seq::new(n, |i: int| 0u8)
}

fn zero_vec(n: usize) -> (v: Vec<u8>)
    ensures
        v@ == zeros(n as nat),
{
    let mut v: Vec<u8> = Vec::new();
    while v.len() < n
        invariant
            v@.len() <= n,
            forall|i: int| 0 <= i < v@.len() ==> #[trigger] v@[i] == 0,
        decreases n - v@.len(),
    {
        v.push(0);
    }
    assert(v@ =~= zeros(n as nat));
    v
}

/// What is kept before anything is known of the code.
pub fn no_sancov() -> (s: Sancov)
    ensures
        s@ == (SancovView { counters: None, transfer: None, history: None, pool: None }),
{
    Sancov { counters: None, transfer: None, history: None, pool: None }
}

/// Whether the code is instrumented.
pub fn sancov_is_available(s: &Sancov) -> (b: bool)
    ensures
        b == (s@.counters is Some),
{
    s.counters.is_some()
}

/// How many edges there are; none where the code is not instrumented.
pub fn sancov_edge_count(s: &Sancov) -> (n: usize)
    ensures
        n == edge_count(s@),
{
    match s.counters {
        Some(r) => {
            if r.start <= r.stop {
                r.stop - r.start
            } else {
                0
            }
        },
        None => 0,
    }
}

/// How many edges were seen; none where the code is not instrumented.
pub fn sancov_edges_covered(s: &Sancov) -> (n: usize)
    ensures
        n == edges_seen(s@),
{
    if !sancov_is_available(s) {
        return 0;
    }
    match &s.history {
        Some(h) => {
            let mut n: usize = 0;
            let mut i: usize = 0;
            while i < h.len()
                invariant
                    i <= h@.len(),
                    n <= i,
                    n == covered_count(h@.take(i as int)),
                decreases h@.len() - i,
            {
                if h[i] != 0 {
                    n += 1;
                }
                assert(h@.take(i + 1).drop_last() =~= h@.take(i as int));
                i += 1;
            }
            assert(h@.take(i as int) =~= h@);
            n
        },
        None => 0,
    }
}

/// Makes room for the counters of runs and for the highest classes. Nothing happens
/// where the code has no edges.
pub fn init_sancov_shared(s: &mut Sancov)
    ensures
        final(s)@ == set_up(old(s)@),
{
    let n: usize = sancov_edge_count(s);
    if n > 0 {
        s.transfer = Some(zero_vec(n));
        s.history = Some(zero_vec(n));
    }
}

/// Forgets what runs handed over and what was seen.
pub fn cleanup_sancov_shared(s: &mut Sancov)
    ensures
        final(s)@ == (SancovView { transfer: None, history: None, pool: None, ..old(s)@ }),
{
    s.transfer = None;
    s.history = None;
    s.pool = None;
}

/// Forgets what the last run handed over.
pub fn clear_transfer_buffer(s: &mut Sancov)
    ensures
        final(s)@ == cleared(old(s)@),
{
    if !sancov_is_available(s) {
        return;
    }
    let n: usize = match &s.transfer {
        Some(t) => t.len(),
        None => return,
    };
    s.transfer = Some(zero_vec(n));
}

/// The counters of a run are handed over, as far as there is room.
pub open spec fn handed_over(buffer: Seq<u8>, counters: Seq<u8>) -> Seq<u8> {
    Seq::new(
        buffer.len(),
        |i: int|
            if i < counters.len() {
                counters[i]
            } else {
                buffer[i]
            },
    )
}

/// Hands the counters of a run over.
pub fn copy_counters_to_shared(s: &mut Sancov, counters: &[u8])
    ensures
        final(s)@ == copied(old(s)@, counters@),
{
    if !sancov_is_available(s) {
        return;
    }
    if let Some(t) = &mut s.transfer {
        let ghost before = t@;
        let n: usize = if t.len() < counters.len() {
            t.len()
        } else {
            counters.len()
        };
        let mut i: usize = 0;
        while i < n
            invariant
                i <= n,
                n <= counters@.len(),
                n <= t@.len(),
                t@.len() == before.len(),
                forall|j: int| 0 <= j < i ==> #[trigger] t@[j] == counters@[j],
                forall|j: int| i <= j < before.len() ==> #[trigger] t@[j] == before[j],
            decreases n - i,
        {
            t.set(i, counters[i]);
            i += 1;
        }
        assert(t@ =~= handed_over(before, counters@));
    }
}

/// Sets the counters of the code to zero, where the code is instrumented.
pub fn reset_bss_counters(s: &Sancov, counters: &mut Vec<u8>)
    ensures
        final(counters)@ == (if s@.counters is Some {
            zeros(old(counters)@.len())
        } else {
            old(counters)@
        }),
{
    if sancov_is_available(s) {
        let n: usize = counters.len();
        *counters = zero_vec(n);
    }
}

/// What is kept when an exploration begins: no edge was seen. Nothing is kept where the
/// code has no edges.
pub open spec fn set_up(v: SancovView) -> SancovView {
    if edge_count(v) == 0 {
        v
    } else {
        SancovView {
            transfer: Some(zeros(edge_count(v))),
            history: Some(zeros(edge_count(v))),
            ..v
        }
    }
}

/// What is kept after a run handed its counters over.
pub open spec fn copied(v: SancovView, counters: Seq<u8>) -> SancovView {
    match v.transfer {
        Some(t) if v.counters is Some => SancovView {
            transfer: Some(handed_over(t, counters)),
            ..v
        },
        _ => v,
    }
}

/// What is kept after the counters of the last run were dropped.
pub open spec fn cleared(v: SancovView) -> SancovView {
    match v.transfer {
        Some(t) if v.counters is Some => SancovView { transfer: Some(zeros(t.len())), ..v },
        _ => v,
    }
}

/// How many edges were seen in all runs.
pub open spec fn edges_seen(v: SancovView) -> nat {
    match v.history {
        Some(h) if v.counters is Some => covered_count(h),
        _ => 0,
    }
}

/// What is kept after the counters that the last run handed over were looked at.
pub open spec fn looked_at(v: SancovView) -> (SancovView, bool) {
    match (v.transfer, v.history) {
        (Some(t), Some(h)) if v.counters is Some => (
            SancovView {
                transfer: Some(classes(t)),
                history: Some(raised(h, classes(t))),
                ..v
            },
            reaches_new(h, classes(t)),
        ),
        _ => (v, false),
    }
}

/// Whether the run that handed its counters over reached something new.
pub fn has_new_sancov_coverage(s: &mut Sancov) -> (found: bool)
    ensures
        (final(s)@, found) == looked_at(old(s)@),
{
    if !sancov_is_available(s) {
        return false;
    }
    if let Some(t) = &mut s.transfer {
        if let Some(h) = &mut s.history {
            return has_new_coverage_inner(t, h);
        }
    }
    false
}

/// What is kept after the counters in a slot of the pool were looked at.
pub open spec fn slot_looked_at(v: SancovView, slot: int) -> (SancovView, bool) {
    match (v.pool, v.history) {
        (Some(slots), Some(h)) if v.counters is Some && 0 <= slot < slots.len() => (
            SancovView {
                pool: Some(slots.update(slot, classes(slots[slot]))),
                history: Some(raised(h, classes(slots[slot]))),
                ..v
            },
            reaches_new(h, classes(slots[slot])),
        ),
        _ => (v, false),
    }
}

/// Whether the run that handed its counters over in a slot of the pool reached
/// something new; not where there is no such slot.
pub fn has_new_sancov_coverage_from(s: &mut Sancov, slot: usize) -> (found: bool)
    ensures
        (final(s)@, found) == slot_looked_at(old(s)@, slot as int),
{
    if !sancov_is_available(s) {
        return false;
    }
    let ghost before = s@;
    if let Some(slots) = &mut s.pool {
        if slot < slots.len() {
            if let Some(h) = &mut s.history {
                let ghost held = pool_view(slots@);
                let mut run: Vec<u8> = Vec::new();
                std::mem::swap(&mut run, &mut slots[slot]);
                assert(run@ == held[slot as int]);
                let found: bool = has_new_coverage_inner(&mut run, h);
                slots.set(slot, run);
                assert(pool_view(slots@) =~= held.update(
                    slot as int,
                    classes(held[slot as int]),
                ));
                return found;
            }
        }
    }
    false
}

/// A pool with a number of slots.
pub open spec fn fresh_pool(slot_count: nat, edges: nat) -> Seq<Seq<u8>> {
    Seq::new(slot_count, |i: int| zeros(edges))
}

/// What is kept after a pool was asked for: one with enough slots stays, else a new
/// one takes its place. There is none where the code has no edges.
pub open spec fn pooled(v: SancovView, slot_count: nat) -> (SancovView, bool) {
    if edge_count(v) == 0 {
        (v, false)
    } else {
        match v.pool {
            Some(slots) if slots.len() >= slot_count => (v, true),
            _ => (SancovView { pool: Some(fresh_pool(slot_count, edge_count(v))), ..v }, true),
        }
    }
}

/// Sees to it that there is a pool with enough slots. Returns whether there is one.
pub fn get_or_init_sancov_pool(s: &mut Sancov, slot_count: usize) -> (there: bool)
    ensures
        (final(s)@, there) == pooled(old(s)@, slot_count as nat),
{
    let n: usize = sancov_edge_count(s);
    if n == 0 {
        return false;
    }
    if let Some(slots) = &s.pool {
        if slots.len() >= slot_count {
            return true;
        }
    }
    let mut slots: Vec<Vec<u8>> = Vec::new();
    while slots.len() < slot_count
        invariant
            slots@.len() <= slot_count,
            forall|i: int| 0 <= i < slots@.len() ==> (#[trigger] slots@[i])@ == zeros(n as nat),
        decreases slot_count - slots@.len(),
    {
        slots.push(zero_vec(n));
    }
    assert(pool_view(slots@) =~= fresh_pool(slot_count as nat, n as nat));
    s.pool = Some(slots);
    true
}

} // verus!
