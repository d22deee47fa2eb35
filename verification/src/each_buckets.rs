//! Assertions that hold once for each value of some keys.

use crate::bytes::{le_bytes, push_le};
use crate::context::{ExplorerState, ExplorerView};
use crate::counts::next_count32;
use crate::hash::{fnv32, hash32, hash_of, msg_hash, padded, truncate_to_buf};
use crate::slot_table::try_bump_alloc;
use crate::utf8::{buffer_text, read_buffer_text};
use vstd::prelude::*;

verus! {

/// The most buckets that are tracked.
pub const MAX_EACH_BUCKETS: usize = 256;

/// The most keys of a bucket that are kept.
pub const MAX_EACH_KEYS: usize = 6;

/// How many bytes of a message are kept, with the zero at the end.
pub const EACH_MSG_LEN: usize = 32;

/// What is known of one value of the keys.
#[derive(Debug, Clone, Copy)]
pub struct EachBucket {
    /// The hash of the message.
    pub site_hash: u32,
    /// The hash of the message and the values of the keys.
    pub bucket_hash: u32,
    /// Whether the first visit asked for a split.
    pub fork_triggered: u8,
    /// How many keys are kept.
    pub num_keys: u8,
    /// How many measures of quality there are.
    pub has_quality: u8,
    /// Fills up the bucket.
    pub _pad: u8,
    /// How often it was visited.
    pub pass_count: u32,
    /// The best quality.
    pub best_score: i64,
    /// The values of the keys.
    pub key_values: [i64; 6],
    /// The message, cut and filled up with zeros.
    pub msg: [u8; 32],
}

/// What an [`EachBucket`] says.
#[verifier::ext_equal]
pub ghost struct BucketView {
    pub site_hash: u32,
    pub bucket_hash: u32,
    pub fork_triggered: u8,
    pub num_keys: u8,
    pub has_quality: u8,
    pub pass_count: u32,
    pub best_score: i64,
    pub key_values: Seq<i64>,
    pub msg: Seq<u8>,
}

impl View for EachBucket {
    type V = BucketView;

    open spec fn view(&self) -> BucketView {
        BucketView {
            site_hash: self.site_hash,
            bucket_hash: self.bucket_hash,
            fork_triggered: self.fork_triggered,
            num_keys: self.num_keys,
            has_quality: self.has_quality,
            pass_count: self.pass_count,
            best_score: self.best_score,
            key_values: self.key_values@,
            msg: self.msg@,
        }
    }
}

impl EachBucket {
    /// The message.
    pub fn msg_str(&self) -> (s: &str)
        ensures
            s@ == buffer_text(self@.msg),
    {
        read_buffer_text(self.msg.as_slice())
    }
}

/// The bits of a number as one without a sign.
pub open spec fn unsigned(v: i64) -> u64 {
    if v >= 0 {
        v as u64
    } else {
        (v + 0x1_0000_0000_0000_0000) as u64
    }
}

/// The bits of a number as one without a sign.
pub fn to_unsigned(v: i64) -> (r: u64)
    ensures
        r == unsigned(v),
{
    if v >= 0 {
        v as u64
    } else {
        // The distance to the smallest number, on top of the largest one with a sign.
        ((v + 0x7fff_ffff_ffff_ffff) + 1) as u64 + 0x8000_0000_0000_0000
    }
}

/// The number at the place of `word` in the order of all numbers with a sign.
pub open spec fn ranked(word: u64) -> i64 {
    (word - 0x8000_0000_0000_0000) as i64
}

/// The place of a number in the order of all numbers with a sign.
pub open spec fn rank(v: i64) -> u64 {
    (v + 0x8000_0000_0000_0000) as u64
}

/// Computes [`ranked`].
fn number_at(word: u64) -> (v: i64)
    ensures
        v == ranked(word),
{
    if word < 0x8000_0000_0000_0000 {
        word as i64 + i64::MIN
    } else {
        (word - 0x8000_0000_0000_0000) as i64
    }
}

/// Computes [`rank`].
fn rank_of(v: i64) -> (word: u64)
    ensures
        word == rank(v),
{
    if v >= 0 {
        v as u64 + 0x8000_0000_0000_0000
    } else {
        ((v + 0x7fff_ffff_ffff_ffff) + 1) as u64
    }
}

/// The weight of the measure at position `i`.
pub open spec fn quality_weight(i: int) -> int {
    if i == 0 {
        0x1_0000_0000_0000
    } else if i == 1 {
        0x1_0000_0000
    } else if i == 2 {
        0x1_0000
    } else {
        1
    }
}

/// The weight of the measure at position `i`.
fn weight(i: usize) -> (w: u64)
    ensures
        w == quality_weight(i as int),
{
    if i == 0 {
        0x1_0000_0000_0000
    } else if i == 1 {
        0x1_0000_0000
    } else if i == 2 {
        0x1_0000
    } else {
        1
    }
}

/// The low 16 bits of the measure at position `i`; zero beyond the last.
pub open spec fn quality_part(quality: Seq<(&str, i64)>, i: int) -> int {
    if i < quality.len() {
        (quality[i].1 as u16) as int
    } else {
        0
    }
}

/// Up to four measures in one number, 16 bits each, the first the most significant.
/// Numbers are ordered as the measures are, from the smallest number on.
pub open spec fn packed_quality(quality: Seq<(&str, i64)>) -> i64 {
    ranked(
        (quality_part(quality, 0) * 0x1_0000_0000_0000 + quality_part(quality, 1) * 0x1_0000_0000
            + quality_part(quality, 2) * 0x1_0000 + quality_part(quality, 3)) as u64,
    )
}

/// Packs up to four measures of quality into one number. Measures that come first
/// weigh more.
pub fn pack_quality(quality: &[(&str, i64)]) -> (packed: i64)
    ensures
        packed == packed_quality(quality@),
{
    let a: u64 = if quality.len() > 0 {
        (quality[0].1 as u16) as u64
    } else {
        0
    };
    let b: u64 = if quality.len() > 1 {
        (quality[1].1 as u16) as u64
    } else {
        0
    };
    let c: u64 = if quality.len() > 2 {
        (quality[2].1 as u16) as u64
    } else {
        0
    };
    let d: u64 = if quality.len() > 3 {
        (quality[3].1 as u16) as u64
    } else {
        0
    };
    number_at(a * 0x1_0000_0000_0000 + b * 0x1_0000_0000 + c * 0x1_0000 + d)
}

/// The measure at position `i` of a packed number.
pub open spec fn unpacked_at(packed: i64, i: int) -> i64 {
    (rank(packed) as int / quality_weight(i) % 0x1_0000) as i64
}

/// Unpacks the first `n` measures of a packed number.
pub fn unpack_quality(packed: i64, n: u8) -> (values: Vec<i64>)
    requires
        n <= 4,
    ensures
        values@ == Seq::new(n as nat, |i: int| unpacked_at(packed, i)),
{
    let bits: u64 = rank_of(packed);
    let mut values: Vec<i64> = Vec::new();
    let mut i: usize = 0;
    while i < n as usize
        invariant
            i <= n,
            bits == rank(packed),
            values@.len() == i,
            forall|j: int| 0 <= j < i ==> #[trigger] values@[j] == unpacked_at(packed, j),
        decreases n - i,
    {
        values.push((bits / weight(i) % 0x1_0000) as i64);
        i += 1;
    }
    assert(values@ =~= Seq::new(n as nat, |i: int| unpacked_at(packed, i)));
    values
}

proof fn lemma_word_parts(a: int, b: int, c: int, d: int)
    requires
        0 <= a < 0x1_0000,
        0 <= b < 0x1_0000,
        0 <= c < 0x1_0000,
        0 <= d < 0x1_0000,
    ensures
        ({
            let word = a * 0x1_0000_0000_0000 + b * 0x1_0000_0000 + c * 0x1_0000 + d;
            &&& 0 <= word < 0x1_0000_0000_0000_0000
            &&& word / 0x1_0000_0000_0000 % 0x1_0000 == a
            &&& word / 0x1_0000_0000 % 0x1_0000 == b
            &&& word / 0x1_0000 % 0x1_0000 == c
            &&& word / 1 % 0x1_0000 == d
        }),
{
    let word = a * 0x1_0000_0000_0000 + b * 0x1_0000_0000 + c * 0x1_0000 + d;
    assert(word / 0x1_0000_0000_0000 == a);
    assert(word / 0x1_0000_0000 == a * 0x1_0000 + b);
    assert(word / 0x1_0000 == (a * 0x1_0000 + b) * 0x1_0000 + c);
}

/// Unpacking gives back the low 16 bits of each measure that was packed.
pub proof fn lemma_quality_round_trip(quality: Seq<(&str, i64)>, i: int)
    requires
        0 <= i < 4,
    ensures
        unpacked_at(packed_quality(quality), i) == quality_part(quality, i),
        0 <= quality_part(quality, i) < 0x1_0000,
        i < quality.len() && 0 <= quality[i].1 < 0x1_0000 ==> quality_part(quality, i)
            == quality[i].1,
{
    let a = quality_part(quality, 0);
    let b = quality_part(quality, 1);
    let c = quality_part(quality, 2);
    let d = quality_part(quality, 3);
    let word = a * 0x1_0000_0000_0000 + b * 0x1_0000_0000 + c * 0x1_0000 + d;
    lemma_word_parts(a, b, c, d);
    assert(rank(ranked(word as u64)) == word);
}

/// Whether some measures are less than others: they are at the first position at which
/// the two differ.
pub open spec fn measures_less(a: Seq<(&str, i64)>, b: Seq<(&str, i64)>) -> bool {
    exists|k: int|
        0 <= k < a.len() && k < b.len() && (#[trigger] a[k]).1 < b[k].1 && forall|j: int|
            0 <= j < k ==> (#[trigger] a[j]).1 == b[j].1
}

/// Measures of 16 bits are packed in their order: one packed number is less than
/// another if and only if the first measure that differs is.
pub proof fn lemma_packing_keeps_order(a: Seq<(&str, i64)>, b: Seq<(&str, i64)>)
    requires
        1 <= a.len() <= 4,
        a.len() == b.len(),
        forall|i: int| 0 <= i < a.len() ==> 0 <= (#[trigger] a[i]).1 <= 65535,
        forall|i: int| 0 <= i < b.len() ==> 0 <= (#[trigger] b[i]).1 <= 65535,
    ensures
        packed_quality(a) < packed_quality(b) <==> measures_less(a, b),
{
    lemma_quality_round_trip(a, 0);
    lemma_quality_round_trip(a, 1);
    lemma_quality_round_trip(a, 2);
    lemma_quality_round_trip(a, 3);
    lemma_quality_round_trip(b, 0);
    lemma_quality_round_trip(b, 1);
    lemma_quality_round_trip(b, 2);
    lemma_quality_round_trip(b, 3);
    let n = a.len();
    lemma_word_parts(
        quality_part(a, 0),
        quality_part(a, 1),
        quality_part(a, 2),
        quality_part(a, 3),
    );
    lemma_word_parts(
        quality_part(b, 0),
        quality_part(b, 1),
        quality_part(b, 2),
        quality_part(b, 3),
    );
    if packed_quality(a) < packed_quality(b) {
        let k: int = if a[0].1 != b[0].1 {
            0
        } else if n > 1 && a[1].1 != b[1].1 {
            1
        } else if n > 2 && a[2].1 != b[2].1 {
            2
        } else {
            3
        };
        assert(k < n && a[k].1 < b[k].1);
        assert(forall|j: int| 0 <= j < k ==> (#[trigger] a[j]).1 == b[j].1);
    }
    if measures_less(a, b) {
        let k = choose|k: int|
            0 <= k < a.len() && k < b.len() && (#[trigger] a[k]).1 < b[k].1 && forall|j: int|
                0 <= j < k ==> (#[trigger] a[j]).1 == b[j].1;
        if k > 0 {
            assert(a[0].1 == b[0].1);
        }
        if k > 1 {
            assert(a[1].1 == b[1].1);
        }
        if k > 2 {
            assert(a[2].1 == b[2].1);
        }
    }
}

/// The keys' values as bytes, one after the other.
pub open spec fn key_bytes(keys: Seq<(&str, i64)>) -> Seq<u8>
    decreases keys.len(),
{
    if keys.len() == 0 {
        Seq::empty()
    } else {
        key_bytes(keys.drop_last()) + le_bytes(unsigned(keys.last().1) as int, 8)
    }
}

/// The hash of a message and the values of its keys.
pub open spec fn bucket_hash_of(msg: Seq<char>, keys: Seq<(&str, i64)>) -> u32 {
    fnv32(hash_of(msg), key_bytes(keys))
}

/// A bucket for values that were not met before.
pub open spec fn fresh_bucket(
    msg: Seq<char>,
    keys: Seq<(&str, i64)>,
    has_quality: u8,
) -> BucketView {
    BucketView {
        site_hash: hash_of(msg),
        bucket_hash: bucket_hash_of(msg, keys),
        fork_triggered: 0,
        num_keys: if keys.len() < MAX_EACH_KEYS {
            keys.len() as u8
        } else {
            MAX_EACH_KEYS as u8
        },
        has_quality,
        pass_count: 0,
        best_score: i64::MIN,
        key_values: Seq::new(
            MAX_EACH_KEYS as nat,
            |i: int|
                if i < keys.len() {
                    keys[i].1
                } else {
                    0
                },
        ),
        msg: padded(vstd::utf8::encode_utf8(msg), EACH_MSG_LEN as nat),
    }
}

/// The buckets of the values that were met.
pub struct EachTable {
    count: u32,
    buckets: Vec<EachBucket>,
}

/// What is known of the values.
pub open spec fn bucket_views(s: Seq<EachBucket>) -> Seq<BucketView> {
    Seq::new(s.len(), |i: int| s[i]@)
}

impl View for EachTable {
    type V = Seq<BucketView>;

    closed spec fn view(&self) -> Seq<BucketView> {
        bucket_views(self.buckets@)
    }
}

/// The position of the bucket with the hashes of `b`, looked for from `from` on.
pub open spec fn bucket_from(buckets: Seq<BucketView>, b: BucketView, from: int) -> Option<int>
    decreases buckets.len() - from,
{
    if from < 0 || from >= buckets.len() {
        None
    } else if buckets[from].site_hash == b.site_hash && buckets[from].bucket_hash
        == b.bucket_hash {
        Some(from)
    } else {
        bucket_from(buckets, b, from + 1)
    }
}

/// The buckets with one for `fresh`, and its position: the one with its hashes, or
/// a new one where there is room.
pub open spec fn bucket_for(buckets: Seq<BucketView>, fresh: BucketView) -> (
    Seq<BucketView>,
    Option<int>,
) {
    match bucket_from(buckets, fresh, 0) {
        Some(i) => (buckets, Some(i)),
        None => if buckets.len() < MAX_EACH_BUCKETS {
            (buckets.push(fresh), Some(buckets.len() as int))
        } else {
            (buckets, None)
        },
    }
}

/// A bucket with a score. From its first score on it is known how many measures
/// the score holds.
pub open spec fn bucket_scored(b: BucketView, has_quality: u8, score: i64) -> BucketView {
    BucketView {
        best_score: score,
        has_quality: if b.has_quality == 0 {
            has_quality
        } else {
            b.has_quality
        },
        ..b
    }
}

/// What a bucket says after a visit, and whether there was progress: on the first
/// visit, where the quality is the first one, and where it is better than before.
pub open spec fn bucket_visited(b: BucketView, has_quality: u8, score: i64) -> (BucketView, bool) {
    let counted = BucketView { pass_count: next_count32(b.pass_count), ..b };
    if b.fork_triggered == 0 {
        let met = BucketView { fork_triggered: 1, ..counted };
        (
            if has_quality > 0 {
                bucket_scored(met, has_quality, score)
            } else {
                met
            },
            true,
        )
    } else if has_quality > 0 && (b.has_quality == 0 || score > b.best_score) {
        (bucket_scored(counted, has_quality, score), true)
    } else {
        (counted, false)
    }
}

/// How many measures of quality count.
pub open spec fn quality_count(quality: Seq<(&str, i64)>) -> u8 {
    if quality.len() < 4 {
        quality.len() as u8
    } else {
        4
    }
}

/// The state after an assertion for each value, and the mark at which the timeline
/// is to be split.
pub open spec fn each_asserted(
    e: ExplorerView,
    msg: Seq<char>,
    keys: Seq<(&str, i64)>,
    quality: Seq<(&str, i64)>,
) -> (ExplorerView, Option<usize>) {
    match e.each_buckets {
        None => (e, None),
        Some(table) => {
            let has_quality = quality_count(quality);
            let (buckets, found) = bucket_for(table, fresh_bucket(msg, keys, has_quality));
            match found {
                None => (e, None),
                Some(i) => {
                    let score = if has_quality > 0 {
                        packed_quality(quality)
                    } else {
                        0
                    };
                    let (bucket, progress) = bucket_visited(buckets[i], has_quality, score);
                    (
                        ExplorerView { each_buckets: Some(buckets.update(i, bucket)), ..e },
                        if progress {
                            Some(
                                (i % crate::assertion_slots::MAX_ASSERTION_SLOTS as int) as usize,
                            )
                        } else {
                            None
                        },
                    )
                },
            }
        },
    }
}

/// A bucket for the next seed.
pub open spec fn bucket_for_next_seed(b: BucketView) -> BucketView {
    BucketView { fork_triggered: 0, pass_count: 0, ..b }
}

/// The buckets for the next seed.
pub open spec fn buckets_for_next_seed(s: Seq<BucketView>) -> Seq<BucketView> {
    Seq::new(s.len(), |i: int| bucket_for_next_seed(s[i]))
}

impl EachTable {
    /// There is a bucket for each counted value, and no more than fit.
    pub closed spec fn wf(&self) -> bool {
        self.count == self.buckets@.len() && self.buckets@.len() <= MAX_EACH_BUCKETS
    }

    /// No value was met.
    pub fn new() -> (t: Self)
        ensures
            t.wf(),
            t@ == Seq::<BucketView>::empty(),
    {
        let t = EachTable { count: 0, buckets: Vec::new() };
        assert(t@ =~= Seq::<BucketView>::empty());
        t
    }

    /// The table with the given buckets, where they fit.
    pub fn from_buckets(buckets: Vec<EachBucket>) -> (r: Option<Self>)
        ensures
            r is Some == (buckets@.len() <= MAX_EACH_BUCKETS),
            r matches Some(t) ==> t.wf() && t@ == bucket_views(buckets@),
    {
        if buckets.len() > MAX_EACH_BUCKETS {
            None
        } else {
            Some(EachTable { count: buckets.len() as u32, buckets })
        }
    }

    /// The buckets.
    pub fn buckets(&self) -> (b: &Vec<EachBucket>)
        requires
            self.wf(),
        ensures
            bucket_views(b@) == self@,
    {
        &self.buckets
    }

    /// Finds the bucket for the values of the keys, or makes one where there is
    /// room.
    fn find_or_alloc_each_bucket(
        &mut self,
        site_hash: u32,
        bucket_hash: u32,
        keys: &[(&str, i64)],
        msg: &str,
        has_quality: u8,
    ) -> (r: Option<usize>)
        requires
            old(self).wf(),
            site_hash == hash_of(msg@),
            bucket_hash == bucket_hash_of(msg@, keys@),
        ensures
            final(self).wf(),
            ({
                let (after, index) = bucket_for(
                    old(self)@,
                    fresh_bucket(msg@, keys@, has_quality),
                );
                &&& final(self)@ == after
                &&& match r {
                    Some(i) => index == Some(i as int) && i < after.len(),
                    None => index is None,
                }
            }),
    {
        let ghost fresh = fresh_bucket(msg@, keys@, has_quality);
        let mut i: usize = 0;
        while i < self.buckets.len()
            invariant
                i <= self.buckets@.len(),
                self.wf(),
                self@ == old(self)@,
                fresh == fresh_bucket(msg@, keys@, has_quality),
                fresh.site_hash == site_hash,
                fresh.bucket_hash == bucket_hash,
                bucket_from(self@, fresh, 0) == bucket_from(self@, fresh, i as int),
            decreases self.buckets@.len() - i,
        {
            if self.buckets[i].site_hash == site_hash && self.buckets[i].bucket_hash
                == bucket_hash {
                return Some(i);
            }
            i += 1;
        }
        match try_bump_alloc(&mut self.count, 256) {
            Some(index) => {
                let mut key_values: [i64; 6] = [0i64; 6];
                let mut k: usize = 0;
                while k < 6 && k < keys.len()
                    invariant
                        k <= 6,
                        k <= keys@.len(),
                        forall|j: int| 0 <= j < k ==> #[trigger] key_values@[j] == keys@[j].1,
                        forall|j: int| k <= j < 6 ==> #[trigger] key_values@[j] == 0,
                    decreases 6 - k,
                {
                    key_values[k] = keys[k].1;
                    k += 1;
                }
                assert(key_values@ =~= fresh.key_values);
                let ghost before = self.buckets@;
                let bucket = EachBucket {
                    site_hash,
                    bucket_hash,
                    fork_triggered: 0,
                    num_keys: k as u8,
                    has_quality,
                    _pad: 0,
                    pass_count: 0,
                    best_score: i64::MIN,
                    key_values,
                    msg: truncate_to_buf(msg),
                };
                self.buckets.push(bucket);
                proof {
                    assert(bucket@ == fresh);
                    assert(self@ =~= bucket_views(before).push(fresh));
                }
                Some(index)
            },
            None => None,
        }
    }

    /// Forgets how often values were met and which of them asked for a split. The
    /// best qualities stay.
    pub fn start_next_seed(&mut self)
        requires
            old(self).wf(),
        ensures
            final(self).wf(),
            final(self)@ == buckets_for_next_seed(old(self)@),
    {
        let ghost before = self@;
        let n: usize = self.buckets.len();
        let mut i: usize = 0;
        while i < n
            invariant
                i <= n,
                n == before.len(),
                self.wf(),
                self@.len() == n,
                forall|j: int|
                    0 <= j < i ==> #[trigger] self@[j] == bucket_for_next_seed(before[j]),
                forall|j: int| i <= j < n ==> #[trigger] self@[j] == before[j],
            decreases n - i,
        {
            let mut bucket = self.buckets[i];
            assert(bucket@ == self@[i as int]);
            bucket.fork_triggered = 0;
            bucket.pass_count = 0;
            let ghost held = self@;
            self.buckets.set(i, bucket);
            assert(self@ =~= held.update(i as int, bucket@));
            i += 1;
        }
        assert(self@ =~= buckets_for_next_seed(before));
    }
}

/// The values of the keys as bytes, one after the other.
fn bytes_of_keys(keys: &[(&str, i64)]) -> (out: Vec<u8>)
    ensures
        out@ == key_bytes(keys@),
{
    let mut out: Vec<u8> = Vec::new();
    let mut i: usize = 0;
    while i < keys.len()
        invariant
            i <= keys@.len(),
            out@ == key_bytes(keys@.take(i as int)),
        decreases keys@.len() - i,
    {
        push_le(&mut out, to_unsigned(keys[i].1), 8);
        assert(keys@.take(i + 1).drop_last() =~= keys@.take(i as int));
        i += 1;
    }
    assert(keys@.take(i as int) =~= keys@);
    out
}

/// Tracks an assertion for each value of some keys. Returns the mark at which the
/// timeline is to be split.
pub fn assertion_sometimes_each(
    state: &mut ExplorerState,
    msg: &str,
    keys: &[(&str, i64)],
    quality: &[(&str, i64)],
) -> (split: Option<usize>)
    requires
        old(state).wf(),
    ensures
        final(state).wf(),
        (final(state)@, split) == each_asserted(old(state)@, msg@, keys@, quality@),
{
    let site_hash: u32 = msg_hash(msg);
    let bytes = bytes_of_keys(keys);
    let bucket_hash: u32 = hash32(site_hash, bytes.as_slice());
    let has_quality: u8 = if quality.len() < 4 {
        quality.len() as u8
    } else {
        4
    };
    let score: i64 = if has_quality > 0 {
        pack_quality(quality)
    } else {
        0
    };
    if let Some(table) = &mut state.each_buckets {
        match table.find_or_alloc_each_bucket(site_hash, bucket_hash, keys, msg, has_quality) {
            Some(i) => {
                let ghost buckets = table@;
                let mut bucket = table.buckets[i];
                let ghost found = bucket@;
                assert(found == buckets[i as int]);
                let mut progress: bool = false;
                bucket.pass_count = bucket.pass_count.wrapping_add(1);
                if bucket.fork_triggered == 0 {
                    bucket.fork_triggered = 1;
                    progress = true;
                } else if has_quality > 0 && (bucket.has_quality == 0 || score
                    > bucket.best_score) {
                    progress = true;
                }
                if progress && has_quality > 0 {
                    bucket.best_score = score;
                    if bucket.has_quality == 0 {
                        bucket.has_quality = has_quality;
                    }
                }
                assert((bucket@, progress) == bucket_visited(found, has_quality, score));
                table.buckets.set(i, bucket);
                assert(table@ =~= buckets.update(i as int, bucket@));
                if progress {
                    Some(i % 128)
                } else {
                    None
                }
            },
            None => None,
        }
    } else {
        None
    }
}

/// Reads what is known of all values; nothing where none are tracked.
pub fn each_bucket_read_all(state: &ExplorerState) -> (buckets: Vec<EachBucket>)
    requires
        state.wf(),
    ensures
        match state@.each_buckets {
            Some(b) => bucket_views(buckets@) == b,
            None => buckets@.len() == 0,
        },
{
    let mut all: Vec<EachBucket> = Vec::new();
    if let Some(table) = &state.each_buckets {
        let buckets = table.buckets();
        let mut i: usize = 0;
        while i < buckets.len()
            invariant
                i <= buckets@.len(),
                all@ == buckets@.take(i as int),
            decreases buckets@.len() - i,
        {
            all.push(buckets[i]);
            assert(buckets@.take(i + 1) =~= buckets@.take(i as int).push(buckets@[i as int]));
            i += 1;
        }
        assert(buckets@.take(i as int) =~= buckets@);
    }
    all
}

/// A bucket asks for a split on its first visit, on its first quality, and after that
/// only where the quality gets better. The best quality of a run never gets worse once
/// there is one.
pub proof fn lemma_best_score_grows(b: BucketView, has_quality: u8, score: i64)
    ensures
        ({
            let (after, split) = bucket_visited(b, has_quality, score);
            &&& after.fork_triggered != 0
            &&& b.fork_triggered == 0 ==> split
            &&& b.has_quality == 0 && has_quality > 0 ==> split && after.best_score == score
                && after.has_quality == has_quality
            &&& b.fork_triggered != 0 && has_quality == 0 ==> !split
            &&& b.fork_triggered != 0 && b.has_quality != 0 ==> {
                &&& split <==> has_quality > 0 && score > b.best_score
                &&& split <==> after.best_score > b.best_score
                &&& after.best_score >= b.best_score
            }
        }),
{
}

} // verus!
