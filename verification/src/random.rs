//! Random numbers for the simulation.

use vstd::prelude::*;

verus! {

/// The number of equally likely values of a random ratio: 2^53.
pub const RATIO_SCALE: u64 = 9_007_199_254_740_992;

/// The number of parts that a probability is counted in.
pub const PARTS_PER_MILLION: u32 = 1_000_000;

/// A source of random numbers that is determined by its state: from the same
/// state it gives the same numbers.
pub trait RandomProvider: Sized {
    /// The next number and the state after it.
    spec fn number_draw(self) -> (u64, Self);

    /// The next number of a half-open range and the state after it.
    spec fn range_draw(self, start: u64, end: u64) -> (u64, Self);

    /// The next ratio, in parts of [`RATIO_SCALE`], and the state after it.
    spec fn ratio_draw(self) -> (u64, Self);

    /// A number of a range lies in it, and a ratio is less than the whole.
    proof fn lemma_draws(self, start: u64, end: u64)
        ensures
            start < end ==> start <= self.range_draw(start, end).0 < end,
            self.ratio_draw().0 < RATIO_SCALE,
    ;

    /// Draws a number.
    fn random(&mut self) -> (r: u64)
        ensures
            (r, *final(self)) == old(self).number_draw(),
    ;

    /// Draws a number of the range from `start` up to, not including, `end`.
    fn random_range(&mut self, start: u64, end: u64) -> (r: u64)
        requires
            start < end,
        ensures
            start <= r < end,
            (r, *final(self)) == old(self).range_draw(start, end),
    ;

    /// Draws a ratio between 0 and 1, counted in parts of [`RATIO_SCALE`].
    fn random_ratio(&mut self) -> (r: u64)
        ensures
            r < RATIO_SCALE,
            (r, *final(self)) == old(self).ratio_draw(),
    ;

    /// Draws with the given probability of being true.
    fn random_bool(&mut self, ppm: u32) -> (b: bool)
        ensures
            b == ratio_below(old(self).ratio_draw().0, ppm),
            *final(self) == old(self).ratio_draw().1,
    {
        let ratio: u64 = self.random_ratio();
        is_ratio_below(ratio, ppm)
    }

    /// Chooses an element of a slice.
    fn choice<'a, T>(&mut self, items: &'a [T]) -> (item: &'a T)
        requires
            0 < items@.len() <= u64::MAX,
        ensures
            ({
                let draw = old(self).range_draw(0, items@.len() as u64);
                &&& 0 <= draw.0 < items@.len()
                &&& *item == items@[draw.0 as int]
                &&& *final(self) == draw.1
            }),
    {
        let index: u64 = self.random_range(0, items.len() as u64);
        &items[index as usize]
    }
}

/// Whether a drawn ratio lies below a probability in parts per million.
pub open spec fn ratio_below(ratio: u64, ppm: u32) -> bool {
    ratio * PARTS_PER_MILLION < ppm * RATIO_SCALE
}

/// Whether a drawn ratio lies above a probability in parts per million.
pub open spec fn ratio_above(ratio: u64, ppm: u32) -> bool {
    ratio * PARTS_PER_MILLION > ppm * RATIO_SCALE
}

/// Whether the drawn `ratio` lies below the probability `ppm`.
pub fn is_ratio_below(ratio: u64, ppm: u32) -> (b: bool)
    ensures
        b == ratio_below(ratio, ppm),
{
    (ratio as u128) * 1_000_000 < (ppm as u128) * 9_007_199_254_740_992
}

/// Whether the drawn `ratio` lies above the probability `ppm`.
pub fn is_ratio_above(ratio: u64, ppm: u32) -> (b: bool)
    ensures
        b == ratio_above(ratio, ppm),
{
    (ratio as u128) * 1_000_000 > (ppm as u128) * 9_007_199_254_740_992
}

/// The outcome of a draw from a range that may be empty: its start, without a
/// draw, where it is.
pub open spec fn range_or_start_draw<R: RandomProvider>(rng: R, start: u64, end: u64) -> (u64, R) {
    if start < end {
        rng.range_draw(start, end)
    } else {
        (start, rng)
    }
}

/// Draws from the range `start..end`, or returns `start` where it is empty.
pub fn random_range_or_start<R: RandomProvider>(rng: &mut R, start: u64, end: u64) -> (r: u64)
    ensures
        (r, *final(rng)) == range_or_start_draw(*old(rng), start, end),
        start < end ==> start <= r < end,
        start >= end ==> r == start,
{
    if start < end {
        rng.random_range(start, end)
    } else {
        start
    }
}

/// The outcomes of draws from a list of ranges, in order.
pub open spec fn range_draws<R: RandomProvider>(rng: R, ranges: Seq<(u64, u64)>) -> (Seq<u64>, R)
    decreases ranges.len(),
{
    if ranges.len() == 0 {
        (Seq::empty(), rng)
    } else {
        let (before, state) = range_draws(rng, ranges.drop_last());
        let (r, after) = state.range_draw(ranges.last().0, ranges.last().1);
        (before.push(r), after)
    }
}

/// Draws one number from each of the ranges, in order.
pub fn draw_ranges<R: RandomProvider>(rng: &mut R, ranges: &[(u64, u64)]) -> (draws: Vec<u64>)
    requires
        forall|i: int| 0 <= i < ranges@.len() ==> (#[trigger] ranges@[i]).0 < ranges@[i].1,
    ensures
        (draws@, *final(rng)) == range_draws(*old(rng), ranges@),
        draws@.len() == ranges@.len(),
        forall|i: int|
            0 <= i < ranges@.len() ==> ranges@[i].0 <= #[trigger] draws@[i] < ranges@[i].1,
{
    let mut draws: Vec<u64> = Vec::new();
    let mut i: usize = 0;
    let ghost first = *rng;
    while i < ranges.len()
        invariant
            i <= ranges@.len(),
            forall|j: int| 0 <= j < ranges@.len() ==> (#[trigger] ranges@[j]).0 < ranges@[j].1,
            (draws@, *rng) == range_draws(first, ranges@.take(i as int)),
            draws@.len() == i,
            forall|j: int| 0 <= j < i ==> ranges@[j].0 <= #[trigger] draws@[j] < ranges@[j].1,
        decreases ranges@.len() - i,
    {
        let (start, end) = ranges[i];
        assert(ranges@[i as int].0 < ranges@[i as int].1);
        let r: u64 = rng.random_range(start, end);
        draws.push(r);
        proof {
            assert(ranges@.take(i + 1).drop_last() =~= ranges@.take(i as int));
        }
        i += 1;
    }
    assert(ranges@.take(i as int) =~= ranges@);
    draws
}

} // verus!
