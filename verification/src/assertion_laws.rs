//! What assertions count, report and lead to.

use crate::assertion_slots::{
    AssertCmp, AssertKind, AssertOutcome, AssertReport, AssertionSlotSnapshot, MAX_ASSERTION_SLOTS,
    SlotView, all_asserted, bool_asserted, fresh_slot, hashes_unique, lemma_slot_from, number_asserted,
    progress_marked, shows, slot_for, slot_from, true_count,
};
use crate::bytes::le_bytes;
use crate::context::ExplorerView;
use crate::each_buckets::{
    BucketView, MAX_EACH_BUCKETS, bucket_for, bucket_from, bucket_hash_of, each_asserted,
    fresh_bucket, key_bytes,
};
use crate::hash::{hash_of, lemma_one_byte_changes_the_hash};
use vstd::prelude::*;

verus! {

/// The slot of a message, if it has one.
pub open spec fn slot_of(e: ExplorerView, msg: Seq<char>) -> Option<SlotView> {
    match e.assertions {
        Some(slots) => if exists|i: int|
            0 <= i < slots.len() && (#[trigger] slots[i]).msg_hash == hash_of(msg) {
            Some(
                slots[choose|i: int|
                    0 <= i < slots.len() && (#[trigger] slots[i]).msg_hash == hash_of(msg)],
            )
        } else {
            None
        },
        None => None,
    }
}

/// How often an assertion passed.
pub open spec fn passes(e: ExplorerView, msg: Seq<char>) -> int {
    match slot_of(e, msg) {
        Some(s) => s.pass_count as int,
        None => 0,
    }
}

/// How often an assertion failed.
pub open spec fn failures(e: ExplorerView, msg: Seq<char>) -> int {
    match slot_of(e, msg) {
        Some(s) => s.fail_count as int,
        None => 0,
    }
}

/// Assertions are tracked, each message in one slot, and there is room for this one; no count
/// is at its end.
pub open spec fn tracks(e: ExplorerView, msg: Seq<char>) -> bool {
    &&& e.assertions is Some
    &&& hashes_unique(e.assertions->0)
    &&& e.assertions->0.len() <= MAX_ASSERTION_SLOTS
    &&& slot_of(e, msg) is Some || e.assertions->0.len() < MAX_ASSERTION_SLOTS
    &&& passes(e, msg) < u64::MAX
    &&& failures(e, msg) < u64::MAX
}

/// The slots of other messages.
pub open spec fn others_kept(before: ExplorerView, after: ExplorerView, msg: Seq<char>) -> bool {
    forall|other: Seq<char>|
        hash_of(other) != hash_of(msg) ==> #[trigger] slot_of(after, other) == slot_of(before, other)
}

/// Where the slot of a message is.
proof fn lemma_slot_of(e: ExplorerView, msg: Seq<char>, fresh: SlotView)
    requires
        tracks(e, msg),
        fresh.msg_hash == hash_of(msg),
    ensures
        ({
            let (slots, found) = slot_for(e.assertions->0, fresh);
            &&& found matches Some(i) && 0 <= i < slots.len() && slots[i] == (match slot_of(
                e,
                msg,
            ) {
                Some(s) => s,
                None => fresh,
            })
            &&& slots.len() <= MAX_ASSERTION_SLOTS
            &&& hashes_unique(slots)
            &&& slots == e.assertions->0 || slots == e.assertions->0.push(fresh)
        }),
{
    let slots = e.assertions->0;
    lemma_slot_from(slots, hash_of(msg), 0);
    if let Some(i) = slot_from(slots, hash_of(msg), 0) {
        assert(slots[i].msg_hash == hash_of(msg));
        let j = choose|j: int|
            0 <= j < slots.len() && (#[trigger] slots[j]).msg_hash == hash_of(msg);
        assert(i == j) by {
            if i < j {
                assert(slots[i].msg_hash != slots[j].msg_hash);
            }
            if j < i {
                assert(slots[j].msg_hash != slots[i].msg_hash);
            }
        }
    } else {
        assert(slot_of(e, msg) is None);
        let more = slots.push(fresh);
        assert forall|i: int, j: int| 0 <= i < j < more.len() implies (#[trigger] more[i]).msg_hash
            != (#[trigger] more[j]).msg_hash by {
            if j < slots.len() {
                assert(slots[i].msg_hash != slots[j].msg_hash);
            } else {
                assert(slots[i].msg_hash != hash_of(msg));
            }
        }
    }
}

/// What is found after the slot of a message changed.
proof fn lemma_slot_changed(
    e: ExplorerView,
    after: ExplorerView,
    msg: Seq<char>,
    fresh: SlotView,
    slot: SlotView,
)
    requires
        tracks(e, msg),
        fresh.msg_hash == hash_of(msg),
        slot.msg_hash == hash_of(msg),
        after.assertions == Some(
            slot_for(e.assertions->0, fresh).0.update(
                slot_for(e.assertions->0, fresh).1->0,
                slot,
            ),
        ),
    ensures
        slot_of(after, msg) == Some(slot),
        others_kept(e, after, msg),
        hashes_unique(after.assertions->0),
{
    lemma_slot_of(e, msg, fresh);
    let (slots, found) = slot_for(e.assertions->0, fresh);
    let i = found->0;
    let now = slots.update(i, slot);
    assert forall|a: int, b: int| 0 <= a < b < now.len() implies (#[trigger] now[a]).msg_hash
        != (#[trigger] now[b]).msg_hash by {
        assert(slots[a].msg_hash != slots[b].msg_hash);
    }
    lemma_found(after, msg, i);
    assert forall|other: Seq<char>| hash_of(other) != hash_of(msg) implies #[trigger] slot_of(
        after,
        other,
    ) == slot_of(e, other) by {
        let old = e.assertions->0;
        let h = hash_of(other);
        lemma_other_slot(old, now, h, hash_of(msg), i);
        if exists|a: int| 0 <= a < old.len() && (#[trigger] old[a]).msg_hash == h {
            let a = choose|a: int| 0 <= a < old.len() && (#[trigger] old[a]).msg_hash == h;
            lemma_found(e, other, a);
            lemma_found(after, other, a);
        } else {
            assert forall|b: int| 0 <= b < now.len() implies (#[trigger] now[b]).msg_hash != h by {
                if b < old.len() && b != i {
                    assert(now[b] == old[b]);
                }
            }
            assert(slot_of(after, other) is None);
        }
    }
}

/// The slot that is found is the one with the hash of the message.
proof fn lemma_found(e: ExplorerView, msg: Seq<char>, i: int)
    requires
        e.assertions is Some,
        hashes_unique(e.assertions->0),
        0 <= i < e.assertions->0.len(),
        e.assertions->0[i].msg_hash == hash_of(msg),
    ensures
        slot_of(e, msg) == Some(e.assertions->0[i]),
{
    let slots = e.assertions->0;
    let k = choose|k: int| 0 <= k < slots.len() && (#[trigger] slots[k]).msg_hash == hash_of(msg);
    if k < i {
        assert(slots[k].msg_hash != slots[i].msg_hash);
    }
    if i < k {
        assert(slots[i].msg_hash != slots[k].msg_hash);
    }
}

proof fn lemma_other_slot(
    old: Seq<SlotView>,
    now: Seq<SlotView>,
    other: u32,
    hash: u32,
    i: int,
)
    requires
        other != hash,
        0 <= i < now.len(),
        now.len() == old.len() || (now.len() == old.len() + 1 && i == old.len()),
        forall|a: int| 0 <= a < old.len() && a != i ==> #[trigger] now[a] == old[a],
        i < old.len() ==> old[i].msg_hash == hash,
        now[i].msg_hash == hash,
    ensures
        forall|a: int|
            0 <= a < old.len() && (#[trigger] old[a]).msg_hash == other ==> now[a] == old[a],
{
}

/// A numeric assertion counts a pass exactly where its left number is less than the right
/// one, or less or equal, greater, greater or equal, as it says, and else a failure. One that
/// should always hold is reported exactly on its first failure, and never asks for a split. The
/// watermark is the greatest left number so far, or the least where that is wanted.
pub proof fn lemma_numbers_pass_as_they_compare(
    e: ExplorerView,
    kind: AssertKind,
    how: AssertCmp,
    maximize: bool,
    left: i64,
    right: i64,
    msg: Seq<char>,
)
    requires
        tracks(e, msg),
    ensures
        ({
            let (after, outcome) = number_asserted(e, kind, how, maximize, left, right, msg);
            let slot = slot_of(after, msg)->0;
            &&& slot_of(after, msg) is Some
            &&& how == AssertCmp::Lt && left < right || how == AssertCmp::Le && left <= right || how
                == AssertCmp::Gt && left > right || how == AssertCmp::Ge && left >= right
                ==> passes(after, msg) == passes(e, msg) + 1 && failures(after, msg) == failures(
                e,
                msg,
            ) && outcome.report is None
            &&& how == AssertCmp::Lt && left >= right || how == AssertCmp::Le && left > right || how
                == AssertCmp::Gt && left <= right || how == AssertCmp::Ge && left < right
                ==> passes(after, msg) == passes(e, msg) && failures(after, msg) == failures(e, msg)
                + 1 && outcome.report == (if kind == AssertKind::NumericAlways && failures(e, msg)
                == 0 {
                Some(AssertReport::NumericFailed)
            } else {
                None
            })
            &&& maximize ==> slot.watermark >= left
            &&& !maximize ==> slot.watermark <= left
            &&& slot_of(e, msg) is None ==> slot.watermark == left
            &&& slot_of(e, msg) matches Some(s) ==> {
                &&& slot.watermark == left || slot.watermark == s.watermark
                &&& maximize ==> slot.watermark >= s.watermark
                &&& !maximize ==> slot.watermark <= s.watermark
            }
            &&& outcome.split is Some <==> e.ctx.active && kind == AssertKind::NumericSometimes
                && (slot_of(e, msg) matches Some(s) ==> if maximize {
                left > s.fork_watermark
            } else {
                left < s.fork_watermark
            }) && (slot_of(e, msg) is None ==> if maximize {
                left > i64::MIN
            } else {
                left < i64::MAX
            })
            &&& others_kept(e, after, msg)
        }),
{
    let fresh = fresh_slot(
        hash_of(msg),
        kind,
        1,
        if maximize {
            1
        } else {
            0
        },
        msg,
    );
    lemma_slot_of(e, msg, fresh);
    let (slots, found) = slot_for(e.assertions->0, fresh);
    let after = number_asserted(e, kind, how, maximize, left, right, msg).0;
    let slot = after.assertions->0[found->0];
    assert(after.assertions == Some(slots.update(found->0, slot)));
    lemma_slot_changed(e, after, msg, fresh, slot);
}

/// A boolean assertion counts a pass where its condition holds and a failure where not; a
/// place that should not be reached counts each time that it is. One that should always hold
/// is reported exactly on its first failure, a place that should not be reached when it is
/// first reached. One that should hold sometimes, or a place that should be reached, asks for a
/// split exactly on its first success.
pub proof fn lemma_conditions_pass_as_they_hold(
    e: ExplorerView,
    kind: AssertKind,
    must_hit: bool,
    condition: bool,
    msg: Seq<char>,
)
    requires
        tracks(e, msg),
        kind != AssertKind::NumericSometimes,
        kind != AssertKind::BooleanSometimesAll,
    ensures
        ({
            let (after, outcome) = bool_asserted(e, kind, must_hit, condition, msg);
            let sometimes = kind == AssertKind::Sometimes || kind == AssertKind::Reachable;
            &&& slot_of(after, msg) is Some
            &&& condition || kind == AssertKind::Unreachable ==> passes(after, msg) == passes(
                e,
                msg,
            ) + 1 && failures(after, msg) == failures(e, msg)
            &&& !condition && kind != AssertKind::Unreachable ==> passes(after, msg) == passes(
                e,
                msg,
            ) && failures(after, msg) == failures(e, msg) + 1
            &&& outcome.report == (if kind == AssertKind::Unreachable && passes(e, msg) == 0 {
                Some(AssertReport::UnreachableReached)
            } else if (kind == AssertKind::Always || kind == AssertKind::AlwaysOrUnreachable || kind
                == AssertKind::NumericAlways) && !condition && failures(e, msg) == 0 {
                Some(AssertReport::Failed)
            } else {
                None
            })
            &&& outcome.split is Some <==> e.ctx.active && sometimes && condition && (slot_of(
                e,
                msg,
            ) matches Some(s) ==> s.fork_triggered == 0)
            &&& sometimes && condition ==> slot_of(after, msg)->0.fork_triggered != 0
            &&& others_kept(e, after, msg)
        }),
{
    let fresh = fresh_slot(
        hash_of(msg),
        kind,
        if must_hit {
            1
        } else {
            0
        },
        0,
        msg,
    );
    lemma_slot_of(e, msg, fresh);
    let (slots, found) = slot_for(e.assertions->0, fresh);
    let after = bool_asserted(e, kind, must_hit, condition, msg).0;
    let slot = after.assertions->0[found->0];
    assert(after.assertions == Some(slots.update(found->0, slot)));
    lemma_slot_changed(e, after, msg, fresh, slot);
}

/// A compound assertion is counted each time, its frontier is the most conditions that held
/// at once so far, and it asks for a split exactly when that grows.
pub proof fn lemma_most_conditions_are_kept(e: ExplorerView, msg: Seq<char>, holding: u8)
    requires
        tracks(e, msg),
    ensures
        ({
            let (after, outcome) = all_asserted(e, msg, holding);
            let before = match slot_of(e, msg) {
                Some(s) => s.frontier,
                None => 0,
            };
            let now = slot_of(after, msg)->0.frontier;
            &&& slot_of(after, msg) is Some
            &&& passes(after, msg) == passes(e, msg) + 1
            &&& failures(after, msg) == failures(e, msg)
            &&& now >= before && now >= holding && (now == before || now == holding)
            &&& outcome.report is None
            &&& outcome.split is Some <==> e.ctx.active && holding > before
            &&& others_kept(e, after, msg)
        }),
{
    let fresh = fresh_slot(hash_of(msg), AssertKind::BooleanSometimesAll, 1, 0, msg);
    lemma_slot_of(e, msg, fresh);
    let (slots, found) = slot_for(e.assertions->0, fresh);
    let after = all_asserted(e, msg, holding).0;
    let slot = after.assertions->0[found->0];
    assert(after.assertions == Some(slots.update(found->0, slot)));
    lemma_slot_changed(e, after, msg, fresh, slot);
}

/// All conditions hold exactly where as many hold as there are; none where none does.
pub proof fn lemma_true_count_is_exact(bools: Seq<(&str, bool)>)
    ensures
        true_count(bools) <= bools.len(),
        true_count(bools) == bools.len() <==> forall|i: int|
            0 <= i < bools.len() ==> (#[trigger] bools[i]).1,
        true_count(bools) == 0 <==> forall|i: int| 0 <= i < bools.len() ==> !(#[trigger] bools[i]).1,
    decreases bools.len(),
{
    if bools.len() > 0 {
        let t = bools.drop_last();
        lemma_true_count_is_exact(t);
        assert forall|i: int| 0 <= i < t.len() implies t[i] == bools[i] by {}
        let last = bools[bools.len() - 1];
        if true_count(bools) == bools.len() {
            assert forall|i: int| 0 <= i < bools.len() implies (#[trigger] bools[i]).1 by {
                if i < t.len() {
                    assert(t[i].1);
                }
            }
        }
        if forall|i: int| 0 <= i < bools.len() ==> (#[trigger] bools[i]).1 {
            assert(last.1);
            assert forall|i: int| 0 <= i < t.len() implies (#[trigger] t[i]).1 by {
                assert(bools[i].1);
            }
        }
        if true_count(bools) == 0 {
            assert forall|i: int| 0 <= i < bools.len() implies !(#[trigger] bools[i]).1 by {
                if i < t.len() {
                    assert(!t[i].1);
                }
            }
        }
        if forall|i: int| 0 <= i < bools.len() ==> !(#[trigger] bools[i]).1 {
            assert(!last.1);
            assert forall|i: int| 0 <= i < t.len() implies !(#[trigger] t[i]).1 by {
                assert(!bools[i].1);
            }
        }
    }
}

/// The bucket of a message with the values of its keys, if there is one.
pub open spec fn has_bucket(e: ExplorerView, msg: Seq<char>, keys: Seq<(&str, i64)>) -> bool {
    e.each_buckets matches Some(buckets) && exists|i: int|
        0 <= i < buckets.len() && (#[trigger] buckets[i]).site_hash == hash_of(msg)
            && buckets[i].bucket_hash == bucket_hash_of(msg, keys)
}

proof fn lemma_bucket_from(buckets: Seq<BucketView>, b: BucketView, from: int)
    requires
        0 <= from,
    ensures
        match bucket_from(buckets, b, from) {
            Some(i) => from <= i < buckets.len() && buckets[i].site_hash == b.site_hash
                && buckets[i].bucket_hash == b.bucket_hash,
            None => forall|i: int|
                from <= i < buckets.len() ==> (#[trigger] buckets[i]).site_hash != b.site_hash
                    || buckets[i].bucket_hash != b.bucket_hash,
        },
    decreases buckets.len() - from,
{
    if from < buckets.len() {
        lemma_bucket_from(buckets, b, from + 1);
    }
}

/// Values that were not met before, while there is room, get a bucket and ask for a split;
/// the bucket holds the values and counts one visit. Values that were met in this seed ask for
/// one again only with a quality, and every visit is counted.
pub proof fn lemma_new_values_split(
    e: ExplorerView,
    msg: Seq<char>,
    keys: Seq<(&str, i64)>,
    quality: Seq<(&str, i64)>,
)
    requires
        e.each_buckets is Some,
        e.each_buckets->0.len() < MAX_EACH_BUCKETS,
    ensures
        ({
            let (after, split) = each_asserted(e, msg, keys, quality);
            let before = e.each_buckets->0;
            let now = after.each_buckets->0;
            &&& after.each_buckets is Some
            &&& !has_bucket(e, msg, keys) ==> {
                &&& split is Some
                &&& now.len() == before.len() + 1
                &&& now.drop_last() == before
                &&& now.last().site_hash == hash_of(msg)
                &&& now.last().bucket_hash == bucket_hash_of(msg, keys)
                &&& now.last().pass_count == 1
                &&& now.last().fork_triggered != 0
                &&& forall|i: int|
                    0 <= i < keys.len() && i < 6 ==> #[trigger] now.last().key_values[i]
                        == keys[i].1
            }
            &&& has_bucket(e, msg, keys) ==> now.len() == before.len()
            &&& has_bucket(after, msg, keys)
            &&& after.assertions == e.assertions
            &&& after.ctx == e.ctx
        }),
{
    let has_quality = crate::each_buckets::quality_count(quality);
    let fresh = fresh_bucket(msg, keys, has_quality);
    let before = e.each_buckets->0;
    lemma_bucket_from(before, fresh, 0);
    let (buckets, found) = bucket_for(before, fresh);
    let i = found->0;
    let after = each_asserted(e, msg, keys, quality).0;
    let now = after.each_buckets->0;
    assert(now == buckets.update(i, now[i]));
    assert(now[i].site_hash == hash_of(msg) && now[i].bucket_hash == bucket_hash_of(msg, keys));
    if !has_bucket(e, msg, keys) {
        if let Some(j) = bucket_from(before, fresh, 0) {
            assert(before[j].site_hash == hash_of(msg));
        }
        assert(now.drop_last() =~= before);
    } else {
        let j = choose|j: int|
            0 <= j < before.len() && (#[trigger] before[j]).site_hash == hash_of(msg)
                && before[j].bucket_hash == bucket_hash_of(msg, keys);
        assert(bucket_from(before, fresh, 0) is Some);
    }
}

/// Values that were met in this seed, and whose bucket has a quality, ask for a split
/// exactly where the quality is better: the first measure that differs is greater. So it is for
/// measures of 16 bits.
pub proof fn lemma_better_quality_splits(
    e: ExplorerView,
    msg: Seq<char>,
    keys: Seq<(&str, i64)>,
    first: Seq<(&str, i64)>,
    second: Seq<(&str, i64)>,
)
    requires
        e.each_buckets is Some,
        e.each_buckets->0.len() < MAX_EACH_BUCKETS,
        !has_bucket(e, msg, keys),
        1 <= first.len() <= 4,
        first.len() == second.len(),
        forall|i: int| 0 <= i < first.len() ==> 0 <= (#[trigger] first[i]).1 <= 65535,
        forall|i: int| 0 <= i < second.len() ==> 0 <= (#[trigger] second[i]).1 <= 65535,
    ensures
        ({
            let met = each_asserted(e, msg, keys, first).0;
            let (after, split) = each_asserted(met, msg, keys, second);
            split is Some <==> crate::each_buckets::measures_less(first, second)
        }),
{
    let n = crate::each_buckets::quality_count(first);
    let fresh = fresh_bucket(msg, keys, n);
    let before = e.each_buckets->0;
    lemma_bucket_from(before, fresh, 0);
    lemma_new_values_split(e, msg, keys, first);
    let met = each_asserted(e, msg, keys, first).0;
    let buckets = met.each_buckets->0;
    if let Some(j) = bucket_from(before, fresh, 0) {
        assert(before[j].site_hash == hash_of(msg));
    }
    lemma_bucket_from(buckets, fresh, 0);
    let i = bucket_from(buckets, fresh, 0);
    assert(buckets[buckets.len() - 1] == buckets.last());
    assert(i is Some);
    assert(i->0 == before.len()) by {
        if i->0 < before.len() {
            assert(buckets[i->0] == buckets.drop_last()[i->0]);
            assert(before[i->0].site_hash == hash_of(msg));
        }
    }
    crate::each_buckets::lemma_packing_keeps_order(first, second);
}

/// Progress at a message is covered in this timeline and in all, under the hash of the message
/// modulo the size of the map; what was covered stays so, and nothing else is added to this
/// timeline.
pub proof fn lemma_progress_is_covered(e: ExplorerView, hash: u32, bit: int)
    requires
        e.bitmap is Some,
        e.explored is Some,
    ensures
        ({
            let v = progress_marked(e, hash);
            &&& v.bitmap is Some && v.explored is Some
            &&& v.bitmap->0.contains(bit) <==> e.bitmap->0.contains(bit) || bit == hash % 8192
            &&& v.explored->0.contains(bit) <==> e.explored->0.contains(bit)
                || v.bitmap->0.contains(bit)
            &&& v.assertions == e.assertions && v.each_buckets == e.each_buckets
            &&& v.ctx == e.ctx && v.stats == e.stats && v.energy == e.energy
        }),
{
}

/// A snapshot of an assertion shows how often it passed and failed, its watermark and its
/// frontier, as they are.
pub proof fn lemma_snapshots_show_what_is_kept(shot: AssertionSlotSnapshot, s: SlotView)
    requires
        shows(shot, s),
    ensures
        shot.pass_count == s.pass_count,
        shot.fail_count == s.fail_count,
        shot.watermark == s.watermark,
        shot.frontier == s.frontier,
        shot.kind == s.kind,
        shot.must_hit == s.must_hit,
{
}

/// Whether what an assertion did to the coverage fits what it asked for: a split comes with the
/// message covered, in this timeline and in all, and without one nothing changes.
pub open spec fn covered_as_split(
    e: ExplorerView,
    after: ExplorerView,
    outcome: AssertOutcome,
    msg: Seq<char>,
) -> bool {
    &&& outcome.split is Some ==> after.bitmap is Some && after.bitmap->0.contains(
        hash_of(msg) as int % 8192,
    ) && after.explored is Some && after.explored->0.contains(hash_of(msg) as int % 8192)
    &&& outcome.split is None ==> after.bitmap == e.bitmap && after.explored == e.explored
}

/// An assertion that asks for a split made progress, and that is covered; one that does not
/// leaves the coverage as it is.
pub proof fn lemma_splits_come_with_coverage(
    e: ExplorerView,
    kind: AssertKind,
    how: AssertCmp,
    flag: bool,
    left: i64,
    right: i64,
    holding: u8,
    msg: Seq<char>,
)
    requires
        tracks(e, msg),
        e.ctx.active,
        e.bitmap is Some,
        e.explored is Some,
    ensures
        ({
            let (after, outcome) = number_asserted(e, kind, how, flag, left, right, msg);
            covered_as_split(e, after, outcome, msg)
        }),
        ({
            let (after, outcome) = bool_asserted(e, kind, flag, left < right, msg);
            covered_as_split(e, after, outcome, msg)
        }),
        ({
            let (after, outcome) = all_asserted(e, msg, holding);
            covered_as_split(e, after, outcome, msg)
        }),
{
    let worst: u8 = if flag {
        1
    } else {
        0
    };
    lemma_slot_of(e, msg, fresh_slot(hash_of(msg), kind, worst, 0, msg));
    lemma_slot_of(e, msg, fresh_slot(hash_of(msg), kind, 1, worst, msg));
    lemma_slot_of(
        e,
        msg,
        fresh_slot(hash_of(msg), AssertKind::BooleanSometimesAll, 1, 0, msg),
    );
    lemma_hash_of_found(e, msg);
}

/// A slot that is found has the hash of its message.
proof fn lemma_hash_of_found(e: ExplorerView, msg: Seq<char>)
    ensures
        slot_of(e, msg) matches Some(s) ==> s.msg_hash == hash_of(msg),
{
}

/// Values tell buckets apart: with another value for one of the keys, where both are less than
/// 256, there is another bucket.
pub proof fn lemma_values_tell_buckets_apart(
    msg: Seq<char>,
    keys: Seq<(&str, i64)>,
    name: &str,
    a: i64,
    b: i64,
)
    requires
        0 <= a < 256,
        0 <= b < 256,
        a != b,
    ensures
        bucket_hash_of(msg, keys.push((name, a))) != bucket_hash_of(msg, keys.push((name, b))),
{
    let with_a = keys.push((name, a));
    let with_b = keys.push((name, b));
    assert(with_a.drop_last() =~= keys);
    assert(with_b.drop_last() =~= keys);
    let bytes = key_bytes(with_a);
    let n = key_bytes(keys).len() as int;
    reveal_with_fuel(le_bytes, 9);
    assert(le_bytes(b as int, 8) =~= le_bytes(a as int, 8).update(0, b as u8));
    assert(key_bytes(with_b) =~= bytes.update(n, b as u8));
    assert(bytes[n] == a as u8);
    lemma_one_byte_changes_the_hash(hash_of(msg), bytes, n, b as u8);
}

} // verus!
