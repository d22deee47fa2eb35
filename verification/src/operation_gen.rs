//! Random sequences of operations.

use crate::random::{ratio_below, RandomProvider, RATIO_SCALE};
use vstd::prelude::*;

verus! {

/// Generates operations. Applications bring generators of their own, which may keep a
/// state.
pub trait OperationGenerator<R: RandomProvider>: Sized {
    /// The operations.
    type Operation: Clone;

    /// The operations that there are.
    spec fn operations(&self) -> Seq<Self::Operation>;

    /// Whether an operation can be generated.
    spec fn ready(&self) -> bool;

    /// Which operation is generated, with the generator and the randomness after it.
    spec fn drawn(self, rng: R) -> (int, Self, R);

    /// A generator stays ready, and generates operations that there are.
    proof fn lemma_stays_ready(self, rng: R)
        requires
            self.ready(),
        ensures
            self.drawn(rng).1.ready(),
            0 <= self.drawn(rng).0 < self.operations().len(),
            self.drawn(rng).1.operations() == self.operations(),
    ;

    /// Generates an operation.
    fn generate(&mut self, rng: &mut R) -> (op: Self::Operation)
        requires
            old(self).ready(),
        ensures
            ({
                let (i, state, after) = old(self).drawn(*old(rng));
                &&& cloned(old(self).operations()[i], op)
                &&& *final(self) == state
                &&& *final(rng) == after
            }),
    ;

    /// The operations and their weights, in parts per million.
    fn weight_distribution(&self) -> (w: Vec<(Self::Operation, u32)>)
        requires
            self.ready(),
        ensures
            w@.len() == self.operations().len(),
            forall|i: int|
                0 <= i < w@.len() ==> cloned(self.operations()[i], (#[trigger] w@[i]).0) && w@[i].1
                    == self.weight(i),
    ;

    /// The weight of an operation, in parts per million.
    spec fn weight(&self, i: int) -> u32;
}

/// Which operations are generated one after the other, with the generator and the
/// randomness after them.
pub open spec fn drawn_sequence<G: OperationGenerator<R>, R: RandomProvider>(
    g: G,
    rng: R,
    count: nat,
) -> (Seq<int>, G, R)
    decreases count,
{
    if count == 0 {
        (Seq::empty(), g, rng)
    } else {
        let (before, g1, rng1) = drawn_sequence(g, rng, (count - 1) as nat);
        let (i, g2, rng2) = g1.drawn(rng1);
        (before.push(i), g2, rng2)
    }
}

/// Generates a sequence of operations.
pub fn generate_sequence<G: OperationGenerator<R>, R: RandomProvider>(
    g: &mut G,
    rng: &mut R,
    count: usize,
) -> (ops: Vec<G::Operation>)
    requires
        old(g).ready(),
    ensures
        ({
            let (indices, state, after) = drawn_sequence(*old(g), *old(rng), count as nat);
            &&& ops@.len() == count
            &&& forall|i: int|
                0 <= i < count ==> cloned(old(g).operations()[indices[i]], #[trigger] ops@[i])
            &&& *final(g) == state
            &&& *final(rng) == after
            &&& final(g).ready()
        }),
{
    let mut ops: Vec<G::Operation> = Vec::new();
    let ghost g0 = *g;
    let ghost rng0 = *rng;
    let mut n: usize = 0;
    proof {
        lemma_sequence_len(g0, rng0, 0);
    }
    while n < count
        invariant
            n <= count,
            ops@.len() == n,
            g0 == *old(g),
            rng0 == *old(rng),
            g.ready(),
            g.operations() == g0.operations(),
            (*g, *rng) == (drawn_sequence(g0, rng0, n as nat).1, drawn_sequence(
                g0,
                rng0,
                n as nat,
            ).2),
            drawn_sequence(g0, rng0, n as nat).0.len() == n,
            forall|i: int|
                0 <= i < n ==> cloned(
                    g0.operations()[drawn_sequence(g0, rng0, n as nat).0[i]],
                    #[trigger] ops@[i],
                ),
        decreases count - n,
    {
        proof {
            g.lemma_stays_ready(*rng);
        }
        let op = g.generate(rng);
        ops.push(op);
        n += 1;
    }
    ops
}

proof fn lemma_sequence_len<G: OperationGenerator<R>, R: RandomProvider>(g: G, rng: R, count: nat)
    ensures
        drawn_sequence(g, rng, count).0.len() == count,
    decreases count,
{
    if count > 0 {
        lemma_sequence_len(g, rng, (count - 1) as nat);
    }
}

/// Generates all operations with the same probability.
pub struct UniformGenerator<T: Clone> {
    operations: Vec<T>,
}

impl<T: Clone> View for UniformGenerator<T> {
    type V = Seq<T>;

    closed spec fn view(&self) -> Seq<T> {
        self.operations@
    }
}

impl<T: Clone> UniformGenerator<T> {
    /// A generator of at least one operation.
    pub fn new(operations: Vec<T>) -> (g: Self)
        requires
            operations@.len() > 0,
        ensures
            g@ == operations@,
    {
        UniformGenerator { operations }
    }

    /// The generator with one more operation.
    pub fn with_operation(self, operation: T) -> (g: Self)
        ensures
            g@ == self@.push(operation),
    {
        let mut operations = self.operations;
        operations.push(operation);
        UniformGenerator { operations }
    }
}

impl<T: Clone, R: RandomProvider> OperationGenerator<R> for UniformGenerator<T> {
    type Operation = T;

    open spec fn operations(&self) -> Seq<T> {
        self@
    }

    open spec fn ready(&self) -> bool {
        0 < self@.len() <= usize::MAX
    }

    open spec fn drawn(self, rng: R) -> (int, Self, R) {
        let (i, after) = rng.range_draw(0, self@.len() as u64);
        (i as int, self, after)
    }

    proof fn lemma_stays_ready(self, rng: R) {
        rng.lemma_draws(0, self@.len() as u64);
    }

    fn generate(&mut self, rng: &mut R) -> (op: T) {
        let i: u64 = rng.random_range(0, self.operations.len() as u64);
        self.operations[i as usize].clone()
    }

    open spec fn weight(&self, i: int) -> u32 {
        (1_000_000nat / self@.len()) as u32
    }

    fn weight_distribution(&self) -> (w: Vec<(T, u32)>) {
        let share: u32 = (1_000_000u64 / (self.operations.len() as u64)) as u32;
        let mut w: Vec<(T, u32)> = Vec::new();
        let mut i: usize = 0;
        while i < self.operations.len()
            invariant
                i <= self.operations@.len(),
                share == (1_000_000nat / self@.len()) as u32,
                w@.len() == i,
                forall|j: int|
                    0 <= j < i ==> cloned(self.operations@[j], (#[trigger] w@[j]).0) && w@[j].1
                        == share,
            decreases self.operations@.len() - i,
        {
            w.push((self.operations[i].clone(), share));
            i += 1;
        }
        w
    }
}

/// The sum of the first weights.
pub open spec fn weight_sum(weights: Seq<u32>, n: int) -> int
    decreases n,
{
    if n <= 0 {
        0
    } else {
        weight_sum(weights, n - 1) + weights[n - 1]
    }
}

/// Whether a drawn ratio falls to one of the operations up to `i`.
pub open spec fn within(weights: Seq<u32>, ratio: u64, i: int) -> bool {
    ratio * weight_sum(weights, weights.len() as int) <= weight_sum(weights, i + 1) * RATIO_SCALE
}

/// The first operation from `from` on that a drawn ratio falls to; the last where it
/// falls to none.
pub open spec fn weighted_pick(weights: Seq<u32>, ratio: u64, from: int) -> int
    decreases weights.len() - from,
{
    if from < 0 || from >= weights.len() {
        weights.len() - 1
    } else if within(weights, ratio, from) {
        from
    } else {
        weighted_pick(weights, ratio, from + 1)
    }
}

/// Generates operations with probabilities in proportion to their weights.
pub struct WeightedGenerator<T: Clone> {
    operations: Vec<T>,
    weights: Vec<u32>,
    total: u64,
}

/// What a [`WeightedGenerator`] says.
#[verifier::ext_equal]
pub ghost struct WeightedView<T> {
    pub operations: Seq<T>,
    pub weights: Seq<u32>,
}

impl<T: Clone> View for WeightedGenerator<T> {
    type V = WeightedView<T>;

    closed spec fn view(&self) -> WeightedView<T> {
        WeightedView { operations: self.operations@, weights: self.weights@ }
    }
}

proof fn lemma_weight_sum_prefix(weights: Seq<u32>, more: u32, n: int)
    requires
        0 <= n <= weights.len(),
    ensures
        weight_sum(weights.push(more), n) == weight_sum(weights, n),
        weight_sum(weights, n) >= 0,
    decreases n,
{
    if n > 0 {
        lemma_weight_sum_prefix(weights, more, n - 1);
    }
}

proof fn lemma_weight_sum_grows(weights: Seq<u32>, n: int, m: int)
    requires
        0 <= n <= m,
    ensures
        0 <= weight_sum(weights, n) <= weight_sum(weights, m),
    decreases m,
{
    if n < m {
        lemma_weight_sum_grows(weights, n, m - 1);
    } else if n > 0 {
        lemma_weight_sum_grows(weights, n - 1, n - 1);
    }
}

proof fn lemma_pick_in_range(weights: Seq<u32>, ratio: u64, from: int)
    requires
        0 <= from,
        weights.len() > 0,
    ensures
        0 <= weighted_pick(weights, ratio, from) < weights.len(),
    decreases weights.len() - from,
{
    if from < weights.len() && !within(weights, ratio, from) {
        lemma_pick_in_range(weights, ratio, from + 1);
    }
}

impl<T: Clone> WeightedGenerator<T> {
    /// Every operation has a weight, and the sum of the weights fits.
    pub closed spec fn wf(&self) -> bool {
        &&& self.operations@.len() == self.weights@.len()
        &&& self.total == weight_sum(self.weights@, self.weights@.len() as int)
    }

    /// A generator of no operations.
    pub fn new() -> (g: Self)
        ensures
            g.wf(),
            g@ == (WeightedView { operations: Seq::<T>::empty(), weights: Seq::empty() }),
    {
        WeightedGenerator { operations: Vec::new(), weights: Vec::new(), total: 0 }
    }

    /// The generator with one more operation and its weight, in parts per million. Only
    /// the proportions of weights count.
    pub fn with_operation(self, operation: T, weight: u32) -> (g: Self)
        requires
            self.wf(),
            weight > 0,
            weight_sum(self@.weights, self@.weights.len() as int) + weight <= u64::MAX,
        ensures
            g.wf(),
            g@ == (WeightedView {
                operations: self@.operations.push(operation),
                weights: self@.weights.push(weight),
            }),
    {
        let mut operations = self.operations;
        let mut weights = self.weights;
        let total: u64 = self.total + weight as u64;
        proof {
            lemma_weight_sum_prefix(weights@, weight, weights@.len() as int);
        }
        operations.push(operation);
        weights.push(weight);
        WeightedGenerator { operations, weights, total }
    }
}

impl<T: Clone> Default for WeightedGenerator<T> {
    fn default() -> (g: Self)
        ensures
            g.wf(),
            g@ == (WeightedView { operations: Seq::<T>::empty(), weights: Seq::empty() }),
    {
        WeightedGenerator::new()
    }
}

impl<T: Clone, R: RandomProvider> OperationGenerator<R> for WeightedGenerator<T> {
    type Operation = T;

    open spec fn operations(&self) -> Seq<T> {
        self@.operations
    }

    open spec fn ready(&self) -> bool {
        self.wf() && self@.operations.len() > 0 && self@.weights.len() == self@.operations.len()
    }

    open spec fn drawn(self, rng: R) -> (int, Self, R) {
        let (ratio, after) = rng.ratio_draw();
        (weighted_pick(self@.weights, ratio, 0), self, after)
    }

    proof fn lemma_stays_ready(self, rng: R) {
        lemma_pick_in_range(self@.weights, rng.ratio_draw().0, 0);
    }

    fn generate(&mut self, rng: &mut R) -> (op: T) {
        let ratio: u64 = rng.random_ratio();
        let n: usize = self.weights.len();
        let ghost weights = self.weights@;
        let mut sum: u64 = 0;
        let mut i: usize = 0;
        while i < n
            invariant
                i <= n,
                n == weights.len(),
                n > 0,
                self.wf(),
                weights == self.weights@,
                *self == *old(self),
                *rng == old(rng).ratio_draw().1,
                ratio == old(rng).ratio_draw().0,
                ratio < RATIO_SCALE,
                sum == weight_sum(weights, i as int),
                weighted_pick(weights, ratio, 0) == weighted_pick(weights, ratio, i as int),
            decreases n - i,
        {
            proof {
                lemma_weight_sum_grows(weights, i + 1, n as int);
            }
            sum = sum + self.weights[i] as u64;
            let total: u64 = self.total;
            assert(ratio * total <= u64::MAX * u64::MAX) by (nonlinear_arith)
                requires
                    0 <= ratio <= u64::MAX,
                    0 <= total <= u64::MAX,
            ;
            let left: u128 = (ratio as u128) * (total as u128);
            let right: u128 = (sum as u128) * 9_007_199_254_740_992;
            assert(left == ratio * weight_sum(weights, n as int));
            if left <= right {
                return self.operations[i].clone();
            }
            i += 1;
        }
        self.operations[n - 1].clone()
    }

    open spec fn weight(&self, i: int) -> u32 {
        self@.weights[i]
    }

    fn weight_distribution(&self) -> (w: Vec<(T, u32)>) {
        let mut w: Vec<(T, u32)> = Vec::new();
        let mut i: usize = 0;
        while i < self.operations.len()
            invariant
                i <= self.operations@.len(),
                self.operations@.len() == self.weights@.len(),
                w@.len() == i,
                forall|j: int|
                    0 <= j < i ==> cloned(self.operations@[j], (#[trigger] w@[j]).0) && w@[j].1
                        == self.weights@[j],
            decreases self.operations@.len() - i,
        {
            w.push((self.operations[i].clone(), self.weights[i]));
            i += 1;
        }
        w
    }
}

/// Draws parameters of operations.
pub struct OperationBuilder<'a, R: RandomProvider> {
    /// Where the parameters are drawn from.
    pub rng: &'a mut R,
}

impl<'a, R: RandomProvider> OperationBuilder<'a, R> {
    /// The randomness.
    pub open spec fn randomness(&self) -> R {
        *self.rng
    }

    /// A builder that draws from `rng`. What it leaves of the randomness is what `rng`
    /// goes on with.
    pub fn new(rng: &'a mut R) -> (b: Self)
        ensures
            b.randomness() == *old(rng),
            *final(b.rng) == *final(rng),
    {
        OperationBuilder { rng }
    }

    /// A number from `start` up to, not including, `end`.
    pub fn random_range(&mut self, start: u64, end: u64) -> (v: u64)
        requires
            start < end,
        ensures
            (v, final(self).randomness()) == old(self).randomness().range_draw(start, end),
            *final(final(self).rng) == *final(old(self).rng),
    {
        self.rng.random_range(start, end)
    }

    /// A ratio.
    pub fn random_ratio(&mut self) -> (v: u64)
        ensures
            (v, final(self).randomness()) == old(self).randomness().ratio_draw(),
            *final(final(self).rng) == *final(old(self).rng),
    {
        self.rng.random_ratio()
    }

    /// Whether something with a probability, in parts per million, happens.
    pub fn random_bool(&mut self, ppm: u32) -> (b: bool)
        ensures
            b == ratio_below(old(self).randomness().ratio_draw().0, ppm),
            final(self).randomness() == old(self).randomness().ratio_draw().1,
            *final(final(self).rng) == *final(old(self).rng),
    {
        self.rng.random_bool(ppm)
    }

    /// One of some items, where there are any.
    pub fn choose_item<T: Clone>(&mut self, items: &[T]) -> (r: Option<T>)
        ensures
            match r {
                Some(item) => {
                    let (i, after) = old(self).randomness().range_draw(0, items@.len() as u64);
                    &&& items@.len() > 0
                    &&& cloned(items@[i as int], item)
                    &&& final(self).randomness() == after
                },
                None => items@.len() == 0 && final(self).randomness() == old(self).randomness(),
            },
            *final(final(self).rng) == *final(old(self).rng),
    {
        if items.len() == 0 {
            return None;
        }
        let i: u64 = self.rng.random_range(0, items.len() as u64);
        Some(items[i as usize].clone())
    }
}

} // verus!
