//! Tracking of assertions.
//!
//! Boolean assertions say that something always, sometimes or never holds.
//! Numeric assertions compare numbers and keep the best one as a watermark.
//! Compound assertions count how many of their conditions hold at once and keep
//! the largest count as a frontier. Progress on the first visit, on a watermark or
//! on a frontier asks for a split of the timeline.

use crate::context::{ExplorerState, ExplorerView};
use crate::counts::next_count;
use crate::hash::{hash_of, msg_hash, padded, truncate_to_buf};
use crate::slot_table::try_bump_alloc;
use crate::utf8::{buffer_text, read_buffer_text};
use vstd::prelude::*;

verus! {

/// The most assertions that are tracked.
pub const MAX_ASSERTION_SLOTS: usize = 128;

/// How many bytes of a message are kept, with the zero at the end.
pub const SLOT_MSG_LEN: usize = 64;

/// What kind of assertion it is.
#[derive(Debug, Clone, Copy, PartialEq, Eq, Structural)]
pub enum AssertKind {
    /// Holds whenever it is reached, and is reached.
    Always,
    /// Holds whenever it is reached.
    AlwaysOrUnreachable,
    /// Holds at least once.
    Sometimes,
    /// Is reached at least once.
    Reachable,
    /// Is never reached.
    Unreachable,
    /// A comparison that always holds.
    NumericAlways,
    /// A comparison that holds at least once.
    NumericSometimes,
    /// Conditions that at least once hold all together.
    BooleanSometimesAll,
}

/// The number of a kind.
pub open spec fn kind_number(kind: AssertKind) -> u8 {
    match kind {
        AssertKind::Always => 0,
        AssertKind::AlwaysOrUnreachable => 1,
        AssertKind::Sometimes => 2,
        AssertKind::Reachable => 3,
        AssertKind::Unreachable => 4,
        AssertKind::NumericAlways => 5,
        AssertKind::NumericSometimes => 6,
        AssertKind::BooleanSometimesAll => 7,
    }
}

impl AssertKind {
    /// The kind with a number.
    pub fn from_u8(v: u8) -> (r: Option<Self>)
        ensures
            match r {
                Some(kind) => kind_number(kind) == v,
                None => v >= 8,
            },
    {
        match v {
            0 => Some(AssertKind::Always),
            1 => Some(AssertKind::AlwaysOrUnreachable),
            2 => Some(AssertKind::Sometimes),
            3 => Some(AssertKind::Reachable),
            4 => Some(AssertKind::Unreachable),
            5 => Some(AssertKind::NumericAlways),
            6 => Some(AssertKind::NumericSometimes),
            7 => Some(AssertKind::BooleanSometimesAll),
            _ => None,
        }
    }

    /// The number of the kind.
    pub fn as_u8(self) -> (v: u8)
        ensures
            v == kind_number(self),
    {
        match self {
            AssertKind::Always => 0,
            AssertKind::AlwaysOrUnreachable => 1,
            AssertKind::Sometimes => 2,
            AssertKind::Reachable => 3,
            AssertKind::Unreachable => 4,
            AssertKind::NumericAlways => 5,
            AssertKind::NumericSometimes => 6,
            AssertKind::BooleanSometimesAll => 7,
        }
    }
}

/// How a numeric assertion compares its sides.
#[derive(Debug, Clone, Copy, PartialEq, Eq, Structural)]
pub enum AssertCmp {
    /// Left is greater.
    Gt,
    /// Left is greater or equal.
    Ge,
    /// Left is less.
    Lt,
    /// Left is less or equal.
    Le,
}

/// Whether a comparison holds.
pub open spec fn compares(how: AssertCmp, left: i64, right: i64) -> bool {
    match how {
        AssertCmp::Gt => left > right,
        AssertCmp::Ge => left >= right,
        AssertCmp::Lt => left < right,
        AssertCmp::Le => left <= right,
    }
}

/// What is known of one assertion.
#[derive(Debug, Clone, Copy)]
pub struct AssertionSlot {
    /// The hash of the message.
    pub msg_hash: u32,
    /// The number of the kind.
    pub kind: u8,
    /// Whether the assertion has to be reached.
    pub must_hit: u8,
    /// Whether larger numbers are better.
    pub maximize: u8,
    /// Whether the first success asked for a split.
    pub fork_triggered: u8,
    /// How often it held.
    pub pass_count: u64,
    /// How often it did not hold.
    pub fail_count: u64,
    /// The best number.
    pub watermark: i64,
    /// The best number that asked for a split.
    pub fork_watermark: i64,
    /// The most conditions that held at once.
    pub frontier: u8,
    /// Fills up the slot.
    pub _pad: [u8; 7],
    /// The message, cut and filled up with zeros.
    pub msg: [u8; 64],
}

/// What an [`AssertionSlot`] says.
#[verifier::ext_equal]
pub ghost struct SlotView {
    pub msg_hash: u32,
    pub kind: u8,
    pub must_hit: u8,
    pub maximize: u8,
    pub fork_triggered: u8,
    pub pass_count: u64,
    pub fail_count: u64,
    pub watermark: i64,
    pub fork_watermark: i64,
    pub frontier: u8,
    pub msg: Seq<u8>,
}

impl View for AssertionSlot {
    type V = SlotView;

    open spec fn view(&self) -> SlotView {
        SlotView {
            msg_hash: self.msg_hash,
            kind: self.kind,
            must_hit: self.must_hit,
            maximize: self.maximize,
            fork_triggered: self.fork_triggered,
            pass_count: self.pass_count,
            fail_count: self.fail_count,
            watermark: self.watermark,
            fork_watermark: self.fork_watermark,
            frontier: self.frontier,
            msg: self.msg@,
        }
    }
}

impl AssertionSlot {
    /// The message.
    pub fn msg_str(&self) -> (s: &str)
        ensures
            s@ == buffer_text(self@.msg),
    {
        read_buffer_text(self.msg.as_slice())
    }
}

/// A slot for an assertion that was not met before.
pub open spec fn fresh_slot(
    hash: u32,
    kind: AssertKind,
    must_hit: u8,
    maximize: u8,
    msg: Seq<char>,
) -> SlotView {
    let worst = if maximize == 1 {
        i64::MIN
    } else {
        i64::MAX
    };
    SlotView {
        msg_hash: hash,
        kind: kind_number(kind),
        must_hit,
        maximize,
        fork_triggered: 0,
        pass_count: 0,
        fail_count: 0,
        watermark: worst,
        fork_watermark: worst,
        frontier: 0,
        msg: padded(vstd::utf8::encode_utf8(msg), SLOT_MSG_LEN as nat),
    }
}

/// The slots of the assertions that were met. No two have the same hash.
pub struct AssertionTable {
    count: u32,
    slots: Vec<AssertionSlot>,
}

/// What is known of the assertions.
pub open spec fn slot_views(s: Seq<AssertionSlot>) -> Seq<SlotView> {
    Seq::new(s.len(), |i: int| s[i]@)
}

impl View for AssertionTable {
    type V = Seq<SlotView>;

    closed spec fn view(&self) -> Seq<SlotView> {
        slot_views(self.slots@)
    }
}

/// The position of the slot with a hash, looked for from `from` on.
pub open spec fn slot_from(slots: Seq<SlotView>, hash: u32, from: int) -> Option<int>
    decreases slots.len() - from,
{
    if from < 0 || from >= slots.len() {
        None
    } else if slots[from].msg_hash == hash {
        Some(from)
    } else {
        slot_from(slots, hash, from + 1)
    }
}

/// The slots with one for `fresh`, and its position: the one with its hash, or a
/// new one where there is room.
pub open spec fn slot_for(slots: Seq<SlotView>, fresh: SlotView) -> (Seq<SlotView>, Option<int>) {
    match slot_from(slots, fresh.msg_hash, 0) {
        Some(i) => (slots, Some(i)),
        None => if slots.len() < MAX_ASSERTION_SLOTS {
            (slots.push(fresh), Some(slots.len() as int))
        } else {
            (slots, None)
        },
    }
}

/// No two slots have the same hash.
pub open spec fn hashes_unique(slots: Seq<SlotView>) -> bool {
    forall|i: int, j: int|
        0 <= i < j < slots.len() ==> (#[trigger] slots[i]).msg_hash != (#[trigger] slots[j]).msg_hash
}

/// A slot that is found has the hash that was looked for; where none is found none has it.
pub proof fn lemma_slot_from(slots: Seq<SlotView>, hash: u32, from: int)
    requires
        0 <= from,
    ensures
        match slot_from(slots, hash, from) {
            Some(i) => from <= i < slots.len() && slots[i].msg_hash == hash,
            None => forall|i: int|
                from <= i < slots.len() ==> (#[trigger] slots[i]).msg_hash != hash,
        },
    decreases slots.len() - from,
{
    if from < slots.len() && slots[from].msg_hash != hash {
        lemma_slot_from(slots, hash, from + 1);
    }
}

/// A slot that was found or made is found again, and slots stay unique.
pub proof fn lemma_slot_found_again(slots: Seq<SlotView>, fresh: SlotView)
    requires
        hashes_unique(slots),
        slots.len() <= MAX_ASSERTION_SLOTS,
    ensures
        ({
            let (after, index) = slot_for(slots, fresh);
            &&& hashes_unique(after)
            &&& after.len() <= MAX_ASSERTION_SLOTS
            &&& index matches Some(i) ==> 0 <= i < after.len() && after[i].msg_hash
                == fresh.msg_hash && slot_for(after, fresh) == (after, index)
            &&& index is None ==> slots.len() == MAX_ASSERTION_SLOTS
        }),
{
    lemma_slot_from(slots, fresh.msg_hash, 0);
    let (after, index) = slot_for(slots, fresh);
    if slot_from(slots, fresh.msg_hash, 0) is None && index is Some {
        assert forall|i: int, j: int| 0 <= i < j < after.len() implies (
        #[trigger] after[i]).msg_hash != (#[trigger] after[j]).msg_hash by {
            assert(after[i] == slots[i]);
        }
        lemma_slot_from(after, fresh.msg_hash, 0);
    }
}

impl AssertionTable {
    /// There is a slot for each counted assertion, and no more than fit.
    pub closed spec fn wf(&self) -> bool {
        &&& self.count == self.slots@.len()
        &&& self.slots@.len() <= MAX_ASSERTION_SLOTS
        &&& hashes_unique(self@)
    }

    /// No assertion was met.
    pub fn new() -> (t: Self)
        ensures
            t.wf(),
            t@ == Seq::<SlotView>::empty(),
    {
        let t = AssertionTable { count: 0, slots: Vec::new() };
        assert(t@ =~= Seq::<SlotView>::empty());
        t
    }

    /// The table with the given slots, where they fit and no two have the same hash.
    pub fn from_slots(slots: Vec<AssertionSlot>) -> (r: Option<Self>)
        ensures
            r is Some == (slots@.len() <= MAX_ASSERTION_SLOTS && hashes_unique(
                slot_views(slots@),
            )),
            r matches Some(t) ==> t.wf() && t@ == slot_views(slots@),
    {
        if slots.len() > MAX_ASSERTION_SLOTS {
            return None;
        }
        let mut j: usize = 0;
        while j < slots.len()
            invariant
                j <= slots@.len(),
                hashes_unique(slot_views(slots@).take(j as int)),
            decreases slots@.len() - j,
        {
            let ghost views = slot_views(slots@);
            let mut i: usize = 0;
            while i < j
                invariant
                    i <= j < slots@.len(),
                    views == slot_views(slots@),
                    forall|k: int|
                        0 <= k < i ==> (#[trigger] views[k]).msg_hash != views[j as int].msg_hash,
                decreases j - i,
            {
                if slots[i].msg_hash == slots[j].msg_hash {
                    proof {
                        assert(views[i as int].msg_hash == views[j as int].msg_hash);
                    }
                    return None;
                }
                i += 1;
            }
            proof {
                let before = views.take(j as int);
                let more = views.take(j + 1);
                assert forall|a: int, b: int| 0 <= a < b < more.len() implies (
                #[trigger] more[a]).msg_hash != (#[trigger] more[b]).msg_hash by {
                    if b < j {
                        assert(before[a] == more[a] && before[b] == more[b]);
                    } else {
                        assert(views[a] == more[a] && views[b] == more[b]);
                    }
                }
            }
            j += 1;
        }
        proof {
            assert(slot_views(slots@).take(j as int) =~= slot_views(slots@));
        }
        Some(AssertionTable { count: slots.len() as u32, slots })
    }

    /// The slots.
    pub fn slots(&self) -> (s: &Vec<AssertionSlot>)
        requires
            self.wf(),
        ensures
            slot_views(s@) == self@,
            s@.len() <= MAX_ASSERTION_SLOTS,
    {
        &self.slots
    }

    /// Finds the slot for an assertion, or makes one where there is room.
    fn find_or_alloc_slot(
        &mut self,
        hash: u32,
        kind: AssertKind,
        must_hit: u8,
        maximize: u8,
        msg: &str,
    ) -> (r: Option<usize>)
        requires
            old(self).wf(),
        ensures
            final(self).wf(),
            ({
                let (after, index) = slot_for(
                    old(self)@,
                    fresh_slot(hash, kind, must_hit, maximize, msg@),
                );
                &&& final(self)@ == after
                &&& match r {
                    Some(i) => index == Some(i as int) && i < after.len(),
                    None => index is None,
                }
            }),
    {
        let ghost fresh = fresh_slot(hash, kind, must_hit, maximize, msg@);
        proof {
            lemma_slot_found_again(self@, fresh);
        }
        let mut i: usize = 0;
        while i < self.slots.len()
            invariant
                i <= self.slots@.len(),
                self.wf(),
                self@ == old(self)@,
                slot_from(self@, hash, 0) == slot_from(self@, hash, i as int),
            decreases self.slots@.len() - i,
        {
            if self.slots[i].msg_hash == hash {
                return Some(i);
            }
            i += 1;
        }
        match try_bump_alloc(&mut self.count, 128) {
            Some(index) => {
                let worst: i64 = if maximize == 1 {
                    i64::MIN
                } else {
                    i64::MAX
                };
                let ghost before = self.slots@;
                let slot = AssertionSlot {
                    msg_hash: hash,
                    kind: kind.as_u8(),
                    must_hit,
                    maximize,
                    fork_triggered: 0,
                    pass_count: 0,
                    fail_count: 0,
                    watermark: worst,
                    fork_watermark: worst,
                    frontier: 0,
                    _pad: [0u8; 7],
                    msg: truncate_to_buf(msg),
                };
                self.slots.push(slot);
                proof {
                    assert(slot@ == fresh);
                    assert(self@ =~= slot_views(before).push(fresh));
                }
                Some(index)
            },
            None => None,
        }
    }

    /// Replaces a slot, which keeps its hash.
    fn set_slot(&mut self, index: usize, slot: AssertionSlot)
        requires
            old(self).wf(),
            index < old(self)@.len(),
            slot@.msg_hash == old(self)@[index as int].msg_hash,
        ensures
            final(self).wf(),
            final(self)@ == old(self)@.update(index as int, slot@),
    {
        let ghost before = self@;
        self.slots.set(index, slot);
        proof {
            assert(self@ =~= before.update(index as int, slot@));
            assert forall|i: int, j: int| 0 <= i < j < self@.len() implies (
            #[trigger] self@[i]).msg_hash != (#[trigger] self@[j]).msg_hash by {
                assert(before[i].msg_hash != before[j].msg_hash);
            }
        }
    }

    /// Forgets how often assertions held and which of them asked for a split.
    /// Watermarks and frontiers stay.
    pub fn start_next_seed(&mut self)
        requires
            old(self).wf(),
        ensures
            final(self).wf(),
            final(self)@ == slots_for_next_seed(old(self)@),
    {
        let ghost before = self@;
        let n: usize = self.slots.len();
        let mut i: usize = 0;
        while i < n
            invariant
                i <= n,
                n == before.len(),
                self.wf(),
                self@.len() == n,
                forall|j: int| 0 <= j < i ==> #[trigger] self@[j] == slot_for_next_seed(before[j]),
                forall|j: int| i <= j < n ==> #[trigger] self@[j] == before[j],
            decreases n - i,
        {
            let mut slot = self.slots[i];
            assert(slot@ == self@[i as int]);
            slot.fork_triggered = 0;
            slot.pass_count = 0;
            slot.fail_count = 0;
            self.set_slot(i, slot);
            i += 1;
        }
        assert(self@ =~= slots_for_next_seed(before));
    }
}

/// A slot for the next seed.
pub open spec fn slot_for_next_seed(s: SlotView) -> SlotView {
    SlotView { fork_triggered: 0, pass_count: 0, fail_count: 0, ..s }
}

/// The slots for the next seed.
pub open spec fn slots_for_next_seed(s: Seq<SlotView>) -> Seq<SlotView> {
    Seq::new(s.len(), |i: int| slot_for_next_seed(s[i]))
}

/// What is to be told of an assertion the first time that it goes wrong.
#[derive(Debug, Clone, Copy, PartialEq, Eq, Structural)]
pub enum AssertReport {
    /// A condition that should always hold did not.
    Failed,
    /// A place that should not be reached was.
    UnreachableReached,
    /// A comparison that should always hold did not.
    NumericFailed,
}

/// What is to be done after an assertion.
#[derive(Debug, Clone, Copy, PartialEq, Eq, Structural)]
pub struct AssertOutcome {
    /// What is to be told.
    pub report: Option<AssertReport>,
    /// The mark at which the timeline is to be split.
    pub split: Option<usize>,
}

/// Nothing is to be done.
pub open spec fn no_outcome() -> AssertOutcome {
    AssertOutcome { report: None, split: None }
}

/// What a slot says after a boolean assertion, whether there was progress, and
/// what is to be told.
pub open spec fn bool_counted(s: SlotView, kind: AssertKind, condition: bool) -> (
    SlotView,
    bool,
    Option<AssertReport>,
) {
    match kind {
        AssertKind::Always | AssertKind::AlwaysOrUnreachable | AssertKind::NumericAlways => {
            if condition {
                (SlotView { pass_count: next_count(s.pass_count), ..s }, false, None)
            } else {
                (
                    SlotView { fail_count: next_count(s.fail_count), ..s },
                    false,
                    if s.fail_count == 0 {
                        Some(AssertReport::Failed)
                    } else {
                        None
                    },
                )
            }
        },
        AssertKind::Sometimes | AssertKind::Reachable => {
            if condition {
                let first = s.fork_triggered == 0;
                (
                    SlotView {
                        pass_count: next_count(s.pass_count),
                        fork_triggered: if first {
                            1
                        } else {
                            s.fork_triggered
                        },
                        ..s
                    },
                    first,
                    None,
                )
            } else {
                (SlotView { fail_count: next_count(s.fail_count), ..s }, false, None)
            }
        },
        AssertKind::Unreachable => {
            (
                SlotView { pass_count: next_count(s.pass_count), ..s },
                false,
                if s.pass_count == 0 {
                    Some(AssertReport::UnreachableReached)
                } else {
                    None
                },
            )
        },
        AssertKind::NumericSometimes | AssertKind::BooleanSometimesAll => (s, false, None),
    }
}

/// Whether a number is better than another.
pub open spec fn better(maximize: bool, a: i64, b: i64) -> bool {
    if maximize {
        a > b
    } else {
        a < b
    }
}

/// What a slot says after a numeric assertion, whether there was progress, and
/// what is to be told.
pub open spec fn number_counted(
    s: SlotView,
    kind: AssertKind,
    maximize: bool,
    passes: bool,
    left: i64,
) -> (SlotView, bool, Option<AssertReport>) {
    let progress = kind == AssertKind::NumericSometimes && better(
        maximize,
        left,
        s.fork_watermark,
    );
    (
        SlotView {
            pass_count: if passes {
                next_count(s.pass_count)
            } else {
                s.pass_count
            },
            fail_count: if passes {
                s.fail_count
            } else {
                next_count(s.fail_count)
            },
            watermark: if better(maximize, left, s.watermark) {
                left
            } else {
                s.watermark
            },
            fork_watermark: if progress {
                left
            } else {
                s.fork_watermark
            },
            ..s
        },
        progress,
        if !passes && kind == AssertKind::NumericAlways && s.fail_count == 0 {
            Some(AssertReport::NumericFailed)
        } else {
            None
        },
    )
}

/// How many conditions hold, as far as a byte counts.
pub open spec fn true_count(bools: Seq<(&str, bool)>) -> nat
    decreases bools.len(),
{
    if bools.len() == 0 {
        0
    } else {
        true_count(bools.drop_last()) + if bools.last().1 {
            1nat
        } else {
            0nat
        }
    }
}

/// What a slot says after a compound assertion of which `holding` conditions held,
/// and whether there was progress.
pub open spec fn all_counted(s: SlotView, holding: u8) -> (SlotView, bool) {
    (
        SlotView {
            pass_count: next_count(s.pass_count),
            frontier: if holding > s.frontier {
                holding
            } else {
                s.frontier
            },
            ..s
        },
        holding > s.frontier,
    )
}

/// Progress was made at a message: it is covered, in this timeline and in all.
pub open spec fn progress_marked(e: ExplorerView, hash: u32) -> ExplorerView {
    let bitmap = match e.bitmap {
        Some(b) => Some(b.insert(hash as int % crate::coverage::COVERAGE_MAP_BITS as int)),
        None => None,
    };
    ExplorerView {
        bitmap,
        explored: match (e.explored, bitmap) {
            (Some(seen), Some(b)) => Some(seen.union(b)),
            (seen, _) => seen,
        },
        ..e
    }
}

/// The state and what is to be done after an assertion changed the slot at `index`
/// to `slot`.
pub open spec fn slot_asserted(
    e: ExplorerView,
    slots: Seq<SlotView>,
    index: int,
    slot: SlotView,
    progress: bool,
    report: Option<AssertReport>,
) -> (ExplorerView, AssertOutcome) {
    let e1 = ExplorerView { assertions: Some(slots.update(index, slot)), ..e };
    if progress {
        (
            progress_marked(e1, slot.msg_hash),
            AssertOutcome {
                report,
                split: if e.ctx.active {
                    Some((index % MAX_ASSERTION_SLOTS as int) as usize)
                } else {
                    None
                },
            },
        )
    } else {
        (e1, AssertOutcome { report, split: None })
    }
}

/// The state and what is to be done after a boolean assertion.
pub open spec fn bool_asserted(
    e: ExplorerView,
    kind: AssertKind,
    must_hit: bool,
    condition: bool,
    msg: Seq<char>,
) -> (ExplorerView, AssertOutcome) {
    match e.assertions {
        None => (e, no_outcome()),
        Some(table) => {
            let fresh = fresh_slot(
                hash_of(msg),
                kind,
                if must_hit {
                    1
                } else {
                    0
                },
                0,
                msg,
            );
            let (slots, found) = slot_for(table, fresh);
            match found {
                None => (e, no_outcome()),
                Some(i) => {
                    let (slot, progress, report) = bool_counted(slots[i], kind, condition);
                    slot_asserted(e, slots, i, slot, progress, report)
                },
            }
        },
    }
}

/// The state and what is to be done after a numeric assertion.
pub open spec fn number_asserted(
    e: ExplorerView,
    kind: AssertKind,
    how: AssertCmp,
    maximize: bool,
    left: i64,
    right: i64,
    msg: Seq<char>,
) -> (ExplorerView, AssertOutcome) {
    match e.assertions {
        None => (e, no_outcome()),
        Some(table) => {
            let fresh = fresh_slot(
                hash_of(msg),
                kind,
                1,
                if maximize {
                    1
                } else {
                    0
                },
                msg,
            );
            let (slots, found) = slot_for(table, fresh);
            match found {
                None => (e, no_outcome()),
                Some(i) => {
                    let (slot, progress, report) = number_counted(
                        slots[i],
                        kind,
                        maximize,
                        compares(how, left, right),
                        left,
                    );
                    slot_asserted(e, slots, i, slot, progress, report)
                },
            }
        },
    }
}

/// The state and what is to be done after a compound assertion of which `holding`
/// conditions held.
pub open spec fn all_asserted(e: ExplorerView, msg: Seq<char>, holding: u8) -> (
    ExplorerView,
    AssertOutcome,
) {
    match e.assertions {
        None => (e, no_outcome()),
        Some(table) => {
            let fresh = fresh_slot(hash_of(msg), AssertKind::BooleanSometimesAll, 1, 0, msg);
            let (slots, found) = slot_for(table, fresh);
            match found {
                None => (e, no_outcome()),
                Some(i) => {
                    let (slot, progress) = all_counted(slots[i], holding);
                    slot_asserted(e, slots, i, slot, progress, None)
                },
            }
        },
    }
}

/// Notes progress at a message.
fn mark_progress(state: &mut ExplorerState, hash: u32)
    requires
        old(state).wf(),
    ensures
        final(state).wf(),
        final(state)@ == progress_marked(old(state)@, hash),
{
    if let Some(bitmap) = &mut state.bitmap {
        bitmap.set_bit(hash as usize);
    }
    if let Some(explored) = &mut state.explored {
        if let Some(bitmap) = &state.bitmap {
            explored.merge_from(bitmap);
        }
    }
}

/// Notes an assertion that changed a slot.
fn finish_assertion(
    state: &mut ExplorerState,
    index: usize,
    slot: AssertionSlot,
    progress: bool,
    report: Option<AssertReport>,
) -> (r: AssertOutcome)
    requires
        old(state).wf(),
        old(state)@.assertions matches Some(slots) && index < slots.len() && slot@.msg_hash
            == slots[index as int].msg_hash,
    ensures
        final(state).wf(),
        (final(state)@, r) == slot_asserted(
            old(state)@,
            old(state)@.assertions->0,
            index as int,
            slot@,
            progress,
            report,
        ),
{
    if let Some(table) = &mut state.assertions {
        table.set_slot(index, slot);
    }
    if !progress {
        return AssertOutcome { report, split: None };
    }
    mark_progress(state, slot.msg_hash);
    let split: Option<usize> = if state.ctx.active {
        Some(index % MAX_ASSERTION_SLOTS)
    } else {
        None
    };
    AssertOutcome { report, split }
}

/// Finds the slot for an assertion, where assertions are tracked and there is room.
fn locate(
    state: &mut ExplorerState,
    kind: AssertKind,
    must_hit: u8,
    maximize: u8,
    msg: &str,
) -> (r: Option<(usize, AssertionSlot)>)
    requires
        old(state).wf(),
    ensures
        final(state).wf(),
        match old(state)@.assertions {
            None => r is None && final(state)@ == old(state)@,
            Some(table) => {
                let (slots, found) = slot_for(
                    table,
                    fresh_slot(hash_of(msg@), kind, must_hit, maximize, msg@),
                );
                match r {
                    None => found is None && final(state)@ == old(state)@,
                    Some((i, slot)) => {
                        &&& found == Some(i as int)
                        &&& i < slots.len()
                        &&& slot@ == slots[i as int]
                        &&& final(state)@ == (ExplorerView {
                            assertions: Some(slots),
                            ..old(state)@
                        })
                    },
                }
            },
        },
{
    let hash: u32 = msg_hash(msg);
    if let Some(table) = &mut state.assertions {
        match table.find_or_alloc_slot(hash, kind, must_hit, maximize, msg) {
            Some(i) => {
                let slot = table.slots[i];
                Some((i, slot))
            },
            None => None,
        }
    } else {
        None
    }
}

/// Tracks a boolean assertion.
pub fn assertion_bool(
    state: &mut ExplorerState,
    kind: AssertKind,
    must_hit: bool,
    condition: bool,
    msg: &str,
) -> (r: AssertOutcome)
    requires
        old(state).wf(),
    ensures
        final(state).wf(),
        (final(state)@, r) == bool_asserted(old(state)@, kind, must_hit, condition, msg@),
{
    let must_hit_u8: u8 = if must_hit {
        1
    } else {
        0
    };
    match locate(state, kind, must_hit_u8, 0, msg) {
        None => AssertOutcome { report: None, split: None },
        Some((index, found)) => {
            let mut slot = found;
            let mut progress: bool = false;
            let mut report: Option<AssertReport> = None;
            match kind {
                AssertKind::Always | AssertKind::AlwaysOrUnreachable | AssertKind::NumericAlways => {
                    if condition {
                        slot.pass_count = slot.pass_count.wrapping_add(1);
                    } else {
                        if slot.fail_count == 0 {
                            report = Some(AssertReport::Failed);
                        }
                        slot.fail_count = slot.fail_count.wrapping_add(1);
                    }
                },
                AssertKind::Sometimes | AssertKind::Reachable => {
                    if condition {
                        slot.pass_count = slot.pass_count.wrapping_add(1);
                        if slot.fork_triggered == 0 {
                            slot.fork_triggered = 1;
                            progress = true;
                        }
                    } else {
                        slot.fail_count = slot.fail_count.wrapping_add(1);
                    }
                },
                AssertKind::Unreachable => {
                    if slot.pass_count == 0 {
                        report = Some(AssertReport::UnreachableReached);
                    }
                    slot.pass_count = slot.pass_count.wrapping_add(1);
                },
                AssertKind::NumericSometimes | AssertKind::BooleanSometimesAll => {},
            }
            assert((slot@, progress, report) == bool_counted(found@, kind, condition));
            finish_assertion(state, index, slot, progress, report)
        },
    }
}

/// Tracks a numeric assertion.
pub fn assertion_numeric(
    state: &mut ExplorerState,
    kind: AssertKind,
    how: AssertCmp,
    maximize: bool,
    left: i64,
    right: i64,
    msg: &str,
) -> (r: AssertOutcome)
    requires
        old(state).wf(),
    ensures
        final(state).wf(),
        (final(state)@, r) == number_asserted(
            old(state)@,
            kind,
            how,
            maximize,
            left,
            right,
            msg@,
        ),
{
    let maximize_u8: u8 = if maximize {
        1
    } else {
        0
    };
    match locate(state, kind, 1, maximize_u8, msg) {
        None => AssertOutcome { report: None, split: None },
        Some((index, found)) => {
            let mut slot = found;
            let mut progress: bool = false;
            let mut report: Option<AssertReport> = None;
            let passes: bool = match how {
                AssertCmp::Gt => left > right,
                AssertCmp::Ge => left >= right,
                AssertCmp::Lt => left < right,
                AssertCmp::Le => left <= right,
            };
            if passes {
                slot.pass_count = slot.pass_count.wrapping_add(1);
            } else {
                if kind == AssertKind::NumericAlways && slot.fail_count == 0 {
                    report = Some(AssertReport::NumericFailed);
                }
                slot.fail_count = slot.fail_count.wrapping_add(1);
            }
            if is_better(maximize, left, slot.watermark) {
                slot.watermark = left;
            }
            if kind == AssertKind::NumericSometimes {
                if is_better(maximize, left, slot.fork_watermark) {
                    slot.fork_watermark = left;
                    progress = true;
                }
            }
            assert((slot@, progress, report) == number_counted(
                found@,
                kind,
                maximize,
                passes,
                left,
            ));
            finish_assertion(state, index, slot, progress, report)
        },
    }
}

/// Whether a number is better than another.
fn is_better(maximize: bool, a: i64, b: i64) -> (r: bool)
    ensures
        r == better(maximize, a, b),
{
    if maximize {
        a > b
    } else {
        a < b
    }
}

/// Tracks a compound assertion.
pub fn assertion_sometimes_all(
    state: &mut ExplorerState,
    msg: &str,
    named_bools: &[(&str, bool)],
) -> (r: AssertOutcome)
    requires
        old(state).wf(),
    ensures
        final(state).wf(),
        (final(state)@, r) == all_asserted(
            old(state)@,
            msg@,
            (true_count(named_bools@) % 256) as u8,
        ),
{
    match locate(state, AssertKind::BooleanSometimesAll, 1, 0, msg) {
        None => AssertOutcome { report: None, split: None },
        Some((index, found)) => {
            let mut slot = found;
            let holding: u8 = count_true(named_bools);
            let progress: bool = holding > slot.frontier;
            slot.pass_count = slot.pass_count.wrapping_add(1);
            if progress {
                slot.frontier = holding;
            }
            assert((slot@, progress) == all_counted(found@, holding));
            finish_assertion(state, index, slot, progress, None)
        },
    }
}

/// Counts the conditions that hold.
fn count_true(named_bools: &[(&str, bool)]) -> (n: u8)
    ensures
        n == true_count(named_bools@) % 256,
{
    let mut n: u8 = 0;
    let mut i: usize = 0;
    while i < named_bools.len()
        invariant
            i <= named_bools@.len(),
            n == true_count(named_bools@.take(i as int)) % 256,
        decreases named_bools@.len() - i,
    {
        if named_bools[i].1 {
            n = n.wrapping_add(1);
        }
        assert(named_bools@.take(i + 1).drop_last() =~= named_bools@.take(i as int));
        i += 1;
    }
    assert(named_bools@.take(i as int) =~= named_bools@);
    n
}

/// What is known of an assertion, for a report.
#[derive(Debug, Clone)]
pub struct AssertionSlotSnapshot {
    /// The message.
    pub msg: String,
    /// The number of the kind.
    pub kind: u8,
    /// Whether the assertion has to be reached.
    pub must_hit: u8,
    /// How often it held.
    pub pass_count: u64,
    /// How often it did not hold.
    pub fail_count: u64,
    /// The best number.
    pub watermark: i64,
    /// The most conditions that held at once.
    pub frontier: u8,
}

/// Whether a snapshot shows a slot.
pub open spec fn shows(shot: AssertionSlotSnapshot, s: SlotView) -> bool {
    &&& shot.msg@ == buffer_text(s.msg)
    &&& shot.kind == s.kind
    &&& shot.must_hit == s.must_hit
    &&& shot.pass_count == s.pass_count
    &&& shot.fail_count == s.fail_count
    &&& shot.watermark == s.watermark
    &&& shot.frontier == s.frontier
}

/// Reads what is known of all assertions; nothing where none are tracked.
pub fn assertion_read_all(state: &ExplorerState) -> (shots: Vec<AssertionSlotSnapshot>)
    requires
        state.wf(),
    ensures
        match state@.assertions {
            Some(slots) => shots@.len() == slots.len() && forall|i: int|
                0 <= i < slots.len() ==> shows(#[trigger] shots@[i], slots[i]),
            None => shots@.len() == 0,
        },
{
    let mut shots: Vec<AssertionSlotSnapshot> = Vec::new();
    if let Some(table) = &state.assertions {
        let slots = table.slots();
        let mut i: usize = 0;
        while i < slots.len()
            invariant
                i <= slots@.len(),
                shots@.len() == i,
                forall|j: int| 0 <= j < i ==> shows(#[trigger] shots@[j], slots@[j]@),
            decreases slots@.len() - i,
        {
            let slot = &slots[i];
            shots.push(
                AssertionSlotSnapshot {
                    msg: slot.msg_str().to_owned(),
                    kind: slot.kind,
                    must_hit: slot.must_hit,
                    pass_count: slot.pass_count,
                    fail_count: slot.fail_count,
                    watermark: slot.watermark,
                    frontier: slot.frontier,
                },
            );
            i += 1;
        }
    }
    shots
}

/// Between seeds, a slot asks for a split on its first success and never again.
/// Watermarks only get better and frontiers only grow.
pub proof fn lemma_progress_is_monotone(
    s: SlotView,
    kind: AssertKind,
    condition: bool,
    maximize: bool,
    passes: bool,
    left: i64,
    holding: u8,
)
    ensures
        bool_counted(s, kind, condition).1 ==> s.fork_triggered == 0 && bool_counted(
            s,
            kind,
            condition,
        ).0.fork_triggered == 1,
        s.fork_triggered != 0 ==> bool_counted(s, kind, condition).0.fork_triggered != 0,
        ({
            let after = number_counted(s, kind, maximize, passes, left).0;
            &&& !better(maximize, s.watermark, after.watermark)
            &&& !better(maximize, s.fork_watermark, after.fork_watermark)
            &&& number_counted(s, kind, maximize, passes, left).1 ==> better(
                maximize,
                after.fork_watermark,
                s.fork_watermark,
            )
        }),
        all_counted(s, holding).0.frontier >= s.frontier,
        all_counted(s, holding).1 <==> all_counted(s, holding).0.frontier > s.frontier,
{
}

/// Only discoveries ask for a split: assertions that should always hold, and places that
/// should not be reached, never do.
pub proof fn lemma_only_discoveries_split(
    e: ExplorerView,
    kind: AssertKind,
    must_hit: bool,
    condition: bool,
    how: AssertCmp,
    maximize: bool,
    left: i64,
    right: i64,
    msg: Seq<char>,
)
    ensures
        kind != AssertKind::Sometimes && kind != AssertKind::Reachable ==> bool_asserted(
            e,
            kind,
            must_hit,
            condition,
            msg,
        ).1.split is None,
        !condition ==> bool_asserted(e, kind, must_hit, condition, msg).1.split is None,
        kind != AssertKind::NumericSometimes ==> number_asserted(
            e,
            kind,
            how,
            maximize,
            left,
            right,
            msg,
        ).1.split is None,
{
}

/// A boolean assertion asks for a split on its first success, and not again before the
/// next seed.
pub proof fn lemma_first_success_splits_once(
    e: ExplorerView,
    kind: AssertKind,
    must_hit: bool,
    condition: bool,
    again: bool,
    msg: Seq<char>,
)
    requires
        e.assertions matches Some(slots) ==> hashes_unique(slots) && slots.len()
            <= MAX_ASSERTION_SLOTS,
        bool_asserted(e, kind, must_hit, condition, msg).1.split is Some,
    ensures
        bool_asserted(
            bool_asserted(e, kind, must_hit, condition, msg).0,
            kind,
            must_hit,
            again,
            msg,
        ).1.split is None,
{
    if let Some(table) = e.assertions {
        let fresh = fresh_slot(
            hash_of(msg),
            kind,
            if must_hit {
                1
            } else {
                0
            },
            0,
            msg,
        );
        lemma_slot_found_again(table, fresh);
        let (slots, found) = slot_for(table, fresh);
        let i = found->0;
        let after = bool_asserted(e, kind, must_hit, condition, msg).0;
        let slot = bool_counted(slots[i], kind, condition).0;
        assert(after.assertions == Some(slots.update(i, slot)));
        let updated = slots.update(i, slot);
        lemma_slot_from(updated, fresh.msg_hash, 0);
        assert(updated[i].msg_hash == fresh.msg_hash);
        let j = slot_from(updated, fresh.msg_hash, 0)->0;
        assert(j == i) by {
            if j < i {
                assert(slots[j].msg_hash != slots[i].msg_hash);
            } else if i < j {
                assert(slots[i].msg_hash != slots[j].msg_hash);
            }
        }
    }
}

/// The state after a numeric assertion was met with one pair of numbers after the other.
pub open spec fn numbers_asserted(
    e: ExplorerView,
    kind: AssertKind,
    how: AssertCmp,
    maximize: bool,
    numbers: Seq<(i64, i64)>,
    msg: Seq<char>,
) -> ExplorerView
    decreases numbers.len(),
{
    if numbers.len() == 0 {
        e
    } else {
        let (left, right) = numbers.last();
        number_asserted(
            numbers_asserted(e, kind, how, maximize, numbers.drop_last(), msg),
            kind,
            how,
            maximize,
            left,
            right,
            msg,
        ).0
    }
}

/// How many pairs of numbers compare as they should.
pub open spec fn passing(how: AssertCmp, numbers: Seq<(i64, i64)>) -> nat
    decreases numbers.len(),
{
    if numbers.len() == 0 {
        0
    } else {
        passing(how, numbers.drop_last()) + if compares(
            how,
            numbers.last().0,
            numbers.last().1,
        ) {
            1nat
        } else {
            0nat
        }
    }
}

/// Whether a number is the best of the left ones.
pub open spec fn is_best(maximize: bool, best: i64, numbers: Seq<(i64, i64)>) -> bool {
    &&& exists|i: int| 0 <= i < numbers.len() && (#[trigger] numbers[i]).0 == best
    &&& forall|i: int| 0 <= i < numbers.len() ==> !better(maximize, (#[trigger] numbers[i]).0, best)
}

/// What is known of an assertion that was met with the given numbers.
pub open spec fn knows_numbers(
    slot: SlotView,
    kind: AssertKind,
    how: AssertCmp,
    maximize: bool,
    numbers: Seq<(i64, i64)>,
) -> bool {
    &&& slot.pass_count == passing(how, numbers)
    &&& slot.pass_count + slot.fail_count == numbers.len()
    &&& is_best(maximize, slot.watermark, numbers)
    &&& kind == AssertKind::NumericSometimes ==> slot.fork_watermark == slot.watermark
}

proof fn lemma_best_extended(maximize: bool, best: i64, numbers: Seq<(i64, i64)>)
    requires
        numbers.len() > 0,
        numbers.len() > 1 ==> is_best(maximize, best, numbers.drop_last()),
        numbers.len() == 1 ==> best == (if maximize {
            i64::MIN
        } else {
            i64::MAX
        }),
    ensures
        is_best(
            maximize,
            if better(maximize, numbers.last().0, best) {
                numbers.last().0
            } else {
                best
            },
            numbers,
        ),
{
    let n = numbers.len() - 1;
    let before = numbers.drop_last();
    let now = if better(maximize, numbers.last().0, best) {
        numbers.last().0
    } else {
        best
    };
    assert(numbers[n] == numbers.last());
    if numbers.len() > 1 && now == best {
        let i = choose|i: int| 0 <= i < before.len() && (#[trigger] before[i]).0 == best;
        assert(numbers[i].0 == best);
    } else {
        assert(numbers[n].0 == now);
    }
    assert forall|i: int| 0 <= i < numbers.len() implies !better(
        maximize,
        (#[trigger] numbers[i]).0,
        now,
    ) by {
        if i < n {
            assert(before[i] == numbers[i]);
        }
    }
}

/// However often a numeric assertion is met, its slot counts each time as a pass or as a
/// failure, and its watermark is the best of all numbers so far. It asks for a split if
/// and only if it is one that should hold sometimes and the number is better than all
/// before.
pub proof fn lemma_numbers_are_tracked(
    e: ExplorerView,
    kind: AssertKind,
    how: AssertCmp,
    maximize: bool,
    numbers: Seq<(i64, i64)>,
    left: i64,
    right: i64,
    msg: Seq<char>,
)
    requires
        e.assertions is Some,
        e.assertions->0.len() < MAX_ASSERTION_SLOTS,
        slot_from(e.assertions->0, hash_of(msg), 0) is None,
        1 <= numbers.len() <= u64::MAX,
    ensures
        ({
            let table = e.assertions->0;
            let after = numbers_asserted(e, kind, how, maximize, numbers, msg);
            let slot = after.assertions->0.last();
            &&& after.assertions is Some
            &&& after.assertions->0 == table.push(slot)
            &&& slot.msg_hash == hash_of(msg)
            &&& knows_numbers(slot, kind, how, maximize, numbers)
            &&& number_asserted(after, kind, how, maximize, left, right, msg).1.split is Some == (
            e.ctx.active && kind == AssertKind::NumericSometimes && better(
                maximize,
                left,
                slot.fork_watermark,
            ))
        }),
    decreases numbers.len(),
{
    let table = e.assertions->0;
    let hash = hash_of(msg);
    let fresh = fresh_slot(
        hash,
        kind,
        1,
        if maximize {
            1
        } else {
            0
        },
        msg,
    );
    lemma_slot_from(table, hash, 0);
    let before = numbers.drop_last();
    let e1 = numbers_asserted(e, kind, how, maximize, before, msg);
    let (l, r) = numbers.last();
    let known = if before.len() == 0 {
        fresh
    } else {
        lemma_numbers_are_tracked(e, kind, how, maximize, before, left, right, msg);
        e1.assertions->0.last()
    };
    lemma_ctx_stays(e, kind, how, maximize, numbers, msg);
    if before.len() > 0 {
        lemma_slot_at_end(table, known, fresh);
    }
    let (slots, found) = slot_for(e1.assertions->0, fresh);
    assert(found == Some(table.len() as int));
    assert(slots == table.push(known));
    let slot = number_counted(known, kind, maximize, compares(how, l, r), l).0;
    let after = numbers_asserted(e, kind, how, maximize, numbers, msg);
    assert(slots.update(table.len() as int, slot) =~= table.push(slot));
    assert(after.assertions == Some(table.push(slot)));
    lemma_best_extended(maximize, known.watermark, numbers);
    assert(known.pass_count == passing(how, before));
    assert(known.pass_count + known.fail_count == before.len());
    assert(knows_numbers(slot, kind, how, maximize, numbers));
    lemma_slot_at_end(table, slot, fresh);
}

proof fn lemma_slot_at_end(table: Seq<SlotView>, slot: SlotView, fresh: SlotView)
    requires
        slot_from(table, fresh.msg_hash, 0) is None,
        slot.msg_hash == fresh.msg_hash,
    ensures
        slot_for(table.push(slot), fresh) == (table.push(slot), Some(table.len() as int)),
{
    let longer = table.push(slot);
    lemma_slot_from(table, fresh.msg_hash, 0);
    lemma_slot_from(longer, fresh.msg_hash, 0);
    assert(longer[table.len() as int] == slot);
    if let Some(i) = slot_from(longer, fresh.msg_hash, 0) {
        if i < table.len() {
            assert(longer[i] == table[i]);
        }
    }
}

proof fn lemma_ctx_stays(
    e: ExplorerView,
    kind: AssertKind,
    how: AssertCmp,
    maximize: bool,
    numbers: Seq<(i64, i64)>,
    msg: Seq<char>,
)
    ensures
        numbers_asserted(e, kind, how, maximize, numbers, msg).ctx == e.ctx,
    decreases numbers.len(),
{
    if numbers.len() > 0 {
        lemma_ctx_stays(e, kind, how, maximize, numbers.drop_last(), msg);
    }
}

} // verus!
