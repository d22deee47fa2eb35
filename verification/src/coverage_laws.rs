//! What the edges that runs take say of them.

use crate::sancov::{
    CounterRange, SancovView, class_of, classes, cleared, copied, covered_count, edge_count,
    edges_seen, looked_at, pooled, set_up, slot_looked_at, zeros,
};
use vstd::prelude::*;

verus! {

/// Of edges that are numbered from `start` up to `stop` there are as many as numbers, and
/// without numbers none.
pub proof fn lemma_edges_are_counted(v: SancovView, start: usize, stop: usize)
    ensures
        v.counters is None ==> edge_count(v) == 0,
        v.counters == Some(CounterRange { start, stop }) && start <= stop ==> edge_count(v) + start
            == stop,
        v.counters == Some(CounterRange { start, stop }) && start > stop ==> edge_count(v) == 0,
{
}

/// A run is new exactly where it took an edge more often than any run before, as far as the
/// classes of counts tell. The first run is new where it took an edge at all; the same run is
/// never new twice.
pub proof fn lemma_new_runs_are_told(v: SancovView, counters: Seq<u8>)
    requires
        v.counters is Some,
        edge_count(v) == counters.len(),
        counters.len() > 0,
    ensures
        ({
            let first = looked_at(copied(set_up(v), counters));
            let again = looked_at(copied(cleared(first.0), counters));
            &&& first.1 <==> exists|i: int| 0 <= i < counters.len() && #[trigger] counters[i] != 0
            &&& !again.1
            &&& again.0.history == first.0.history
            &&& edges_seen(set_up(v)) == 0
        }),
        v.history is Some && v.history->0.len() == counters.len() && v.transfer is Some
            && v.transfer->0.len() == counters.len() ==> {
            let (after, new) = looked_at(copied(v, counters));
            &&& new <==> exists|i: int|
                0 <= i < counters.len() && class_of(#[trigger] counters[i]) > v.history->0[i]
            &&& after.history is Some && after.history->0.len() == counters.len()
            &&& forall|i: int|
                0 <= i < counters.len() ==> (#[trigger] after.history->0[i] == if class_of(
                    counters[i],
                ) > v.history->0[i] {
                    class_of(counters[i])
                } else {
                    v.history->0[i]
                })
            &&& after.counters == v.counters && after.pool == v.pool
        },
{
    let n = counters.len();
    let v0 = set_up(v);
    let v1 = copied(v0, counters);
    assert(v1.transfer->0 =~= counters);
    let first = looked_at(v1);
    let run = classes(counters);
    assert(first.1 ==> exists|i: int| 0 <= i < counters.len() && #[trigger] counters[i] != 0) by {
        if first.1 {
            let i = choose|i: int| 0 <= i < run.len() && i < n && #[trigger] run[i] > zeros(n)[i];
            assert(counters[i] != 0);
        }
    }
    if exists|i: int| 0 <= i < counters.len() && #[trigger] counters[i] != 0 {
        let i = choose|i: int| 0 <= i < counters.len() && #[trigger] counters[i] != 0;
        assert(run[i] > zeros(n)[i]);
    }
    let v2 = copied(cleared(first.0), counters);
    assert(v2.transfer->0 =~= counters);
    crate::sancov::lemma_second_look_is_not_new(zeros(n), run);
    lemma_none_of_zeros(n);
    if v.history is Some && v.history->0.len() == n && v.transfer is Some && v.transfer->0.len()
        == n {
        let h = v.history->0;
        assert(copied(v, counters).transfer->0 =~= counters);
        let (after, new) = looked_at(copied(v, counters));
        if new {
            let i = choose|i: int| 0 <= i < run.len() && i < h.len() && #[trigger] run[i] > h[i];
            assert(class_of(counters[i]) > h[i]);
        }
        if exists|i: int| 0 <= i < n && class_of(#[trigger] counters[i]) > h[i] {
            let i = choose|i: int| 0 <= i < n && class_of(#[trigger] counters[i]) > h[i];
            assert(run[i] > h[i]);
        }
    }
}

/// A run that handed its counters over in a slot is new exactly where it would be new alone,
/// and teaches the same; other slots stay.
pub proof fn lemma_slots_teach_as_runs_do(v: SancovView, slot: int, other: int)
    requires
        v.counters is Some,
        v.pool is Some,
        v.history is Some,
        0 <= slot < v.pool->0.len(),
    ensures
        ({
            let alone = looked_at(SancovView { transfer: Some(v.pool->0[slot]), ..v });
            let (after, new) = slot_looked_at(v, slot);
            &&& new == alone.1
            &&& after.history == alone.0.history
            &&& after.transfer == v.transfer
            &&& after.pool is Some && after.pool->0.len() == v.pool->0.len()
            &&& 0 <= other < v.pool->0.len() && other != slot ==> after.pool->0[other]
                == v.pool->0[other]
        }),
{
}

/// A pool that is asked for has at least as many slots as wanted, each with a counter for each
/// edge where it was made for that; one with enough slots stays. There is none exactly where
/// there are no edges.
pub proof fn lemma_pools_have_room(v: SancovView, wanted: nat, i: int)
    ensures
        ({
            let (after, there) = pooled(v, wanted);
            &&& there <==> edge_count(v) > 0
            &&& !there ==> after == v
            &&& there ==> after.pool is Some && after.pool->0.len() >= wanted
            &&& there && v.pool is None && 0 <= i < wanted ==> after.pool->0[i].len()
                == edge_count(v)
            &&& v.pool is Some && v.pool->0.len() >= wanted ==> after.pool == v.pool
            &&& after.history == v.history && after.transfer == v.transfer
        }),
{
}

/// An edge that is seen for the first time is one more edge that was seen; one that was seen
/// before is not. There are never more than edges.
pub proof fn lemma_seen_edges_are_counted(history: Seq<u8>, i: int, class: u8)
    requires
        0 <= i < history.len(),
        class != 0,
    ensures
        covered_count(history) <= history.len(),
        history[i] == 0 ==> covered_count(history.update(i, class)) == covered_count(history) + 1,
        history[i] != 0 ==> covered_count(history.update(i, class)) == covered_count(history),
    decreases history.len(),
{
    let now = history.update(i, class);
    lemma_at_most_all(history);
    if i == history.len() - 1 {
        assert(now.drop_last() =~= history.drop_last());
    } else {
        lemma_seen_edges_are_counted(history.drop_last(), i, class);
        assert(now.drop_last() =~= history.drop_last().update(i, class));
    }
}

proof fn lemma_at_most_all(history: Seq<u8>)
    ensures
        covered_count(history) <= history.len(),
    decreases history.len(),
{
    if history.len() > 0 {
        lemma_at_most_all(history.drop_last());
    }
}

proof fn lemma_none_of_zeros(n: nat)
    ensures
        covered_count(zeros(n)) == 0,
    decreases n,
{
    if n > 0 {
        lemma_none_of_zeros((n - 1) as nat);
        assert(zeros(n).drop_last() =~= zeros((n - 1) as nat));
    }
}

} // verus!
