//! Coverage bitmaps.
//!
//! A run marks what it saw in a [`CoverageBitmap`]; an [`ExploredMap`] collects
//! what all runs saw.

use vstd::prelude::*;

verus! {

/// The size of a coverage map in bytes.
pub const COVERAGE_MAP_SIZE: usize = 1024;

/// The number of bits in a coverage map.
pub const COVERAGE_MAP_BITS: usize = 8192;

/// Whether bit `i` of `bytes` is set.
pub open spec fn bit_at(bytes: Seq<u8>, i: int) -> bool {
    (bytes[i / 8] >> ((i % 8) as u8)) & 1u8 == 1u8
}

/// The set bits of a map.
pub open spec fn bits_of(bytes: Seq<u8>) -> Set<int> {
    Set::new(|i: int| 0 <= i < COVERAGE_MAP_BITS && bit_at(bytes, i))
}

/// The bits that one run marked. The view is the set of marked bits.
#[derive(Debug, Clone)]
pub struct CoverageBitmap {
    bytes: Vec<u8>,
}

/// The bits that any run marked. The view is the set of marked bits.
#[derive(Debug, Clone)]
pub struct ExploredMap {
    bytes: Vec<u8>,
}

impl View for CoverageBitmap {
    type V = Set<int>;

    closed spec fn view(&self) -> Set<int> {
        bits_of(self.bytes@)
    }
}

impl View for ExploredMap {
    type V = Set<int>;

    closed spec fn view(&self) -> Set<int> {
        bits_of(self.bytes@)
    }
}

/// A map of `COVERAGE_MAP_SIZE` zero bytes.
fn zero_bytes() -> (bytes: Vec<u8>)
    ensures
        bytes@.len() == COVERAGE_MAP_SIZE,
        bits_of(bytes@) == Set::<int>::empty(),
{
    let mut bytes: Vec<u8> = Vec::new();
    while bytes.len() < COVERAGE_MAP_SIZE
        invariant
            bytes@.len() <= COVERAGE_MAP_SIZE,
            forall|j: int| 0 <= j < bytes@.len() ==> #[trigger] bytes@[j] == 0,
        decreases COVERAGE_MAP_SIZE - bytes@.len(),
    {
        bytes.push(0);
    }
    proof {
        assert forall|i: int| !bits_of(bytes@).contains(i) by {
            if 0 <= i < COVERAGE_MAP_BITS {
                let k = (i % 8) as u8;
                assert(bytes@[i / 8] == 0);
                assert((0u8 >> k) & 1u8 == 0u8) by (bit_vector);
            }
        }
        assert(bits_of(bytes@) =~= Set::<int>::empty());
    }
    bytes
}

/// Setting a bit of a byte sets that bit and no other.
proof fn lemma_set_in_byte(b: u8, k: u8, j: u8)
    requires
        k < 8,
        j < 8,
    ensures
        ((b | (1u8 << k)) >> j) & 1u8 == 1u8 <==> ((b >> j) & 1u8 == 1u8 || j == k),
{
    assert(((b | (1u8 << k)) >> j) & 1u8 == 1u8 <==> ((b >> j) & 1u8 == 1u8 || j == k)) by (bit_vector)
        requires
            k < 8,
            j < 8,
    ;
}

/// The bits of a disjunction are those of either side.
proof fn lemma_or_byte(a: u8, b: u8, j: u8)
    requires
        j < 8,
    ensures
        ((a | b) >> j) & 1u8 == 1u8 <==> ((a >> j) & 1u8 == 1u8 || (b >> j) & 1u8 == 1u8),
{
    assert(((a | b) >> j) & 1u8 == 1u8 <==> ((a >> j) & 1u8 == 1u8 || (b >> j) & 1u8 == 1u8))
        by (bit_vector)
        requires
            j < 8,
    ;
}

/// A byte has a bit that another lacks just where the one without the other's
/// bits is not zero.
proof fn lemma_new_in_byte(a: u8, b: u8)
    ensures
        a & !b != 0 <==> exists|j: u8| j < 8 && (a >> j) & 1u8 == 1u8 && (b >> j) & 1u8 != 1u8,
{
    if a & !b != 0 {
        assert(((a >> 0u8) & 1u8 == 1u8 && (b >> 0u8) & 1u8 != 1u8) || ((a >> 1u8) & 1u8 == 1u8 && (b
            >> 1u8) & 1u8 != 1u8) || ((a >> 2u8) & 1u8 == 1u8 && (b >> 2u8) & 1u8 != 1u8) || ((a
            >> 3u8) & 1u8 == 1u8 && (b >> 3u8) & 1u8 != 1u8) || ((a >> 4u8) & 1u8 == 1u8 && (b >> 4u8)
            & 1u8 != 1u8) || ((a >> 5u8) & 1u8 == 1u8 && (b >> 5u8) & 1u8 != 1u8) || ((a >> 6u8)
            & 1u8 == 1u8 && (b >> 6u8) & 1u8 != 1u8) || ((a >> 7u8) & 1u8 == 1u8 && (b >> 7u8) & 1u8
            != 1u8)) by (bit_vector)
            requires
                a & !b != 0,
        ;
    }
    assert forall|j: u8| j < 8 && (a >> j) & 1u8 == 1u8 && (b >> j) & 1u8 != 1u8 implies a & !b
        != 0 by {
        assert(a & !b != 0) by (bit_vector)
            requires
                j < 8,
                (a >> j) & 1u8 == 1u8,
                (b >> j) & 1u8 != 1u8,
        ;
    }
}

impl CoverageBitmap {
    /// The map has its size.
    pub closed spec fn wf(&self) -> bool {
        self.bytes@.len() == COVERAGE_MAP_SIZE
    }

    /// A map with no bit set.
    pub fn new() -> (m: Self)
        ensures
            m.wf(),
            m@ == Set::<int>::empty(),
    {
        CoverageBitmap { bytes: zero_bytes() }
    }

    /// Sets the bit at `index`, counted modulo the size of the map.
    pub fn set_bit(&mut self, index: usize)
        requires
            old(self).wf(),
        ensures
            final(self).wf(),
            final(self)@ == old(self)@.insert(index as int % COVERAGE_MAP_BITS as int),
    {
        let bit: usize = index % COVERAGE_MAP_BITS;
        let i: usize = bit / 8;
        let k: u8 = (bit % 8) as u8;
        let ghost before = self.bytes@;
        let b: u8 = self.bytes[i];
        self.bytes.set(i, b | (1u8 << k));
        proof {
            let after = self.bytes@;
            assert forall|x: int| bits_of(after).contains(x) == bits_of(before).insert(
                bit as int,
            ).contains(x) by {
                if 0 <= x < COVERAGE_MAP_BITS {
                    let j = (x % 8) as u8;
                    if x / 8 == i {
                        lemma_set_in_byte(b, k, j);
                    }
                }
            }
            assert(self@ =~= bits_of(before).insert(bit as int));
        }
    }

    /// Clears all bits.
    pub fn clear(&mut self)
        ensures
            final(self).wf(),
            final(self)@ == Set::<int>::empty(),
    {
        self.bytes = zero_bytes();
    }

    /// A map with the bits of `bytes`, where there are as many bytes as a map has.
    pub fn from_bytes(bytes: Vec<u8>) -> (r: Option<Self>)
        ensures
            match r {
                Some(m) => bytes@.len() == COVERAGE_MAP_SIZE && m.wf() && m@ == bits_of(bytes@),
                None => bytes@.len() != COVERAGE_MAP_SIZE,
            },
    {
        if bytes.len() == COVERAGE_MAP_SIZE {
            Some(CoverageBitmap { bytes })
        } else {
            None
        }
    }

    /// A map with the same bits.
    pub fn copy(&self) -> (m: Self)
        requires
            self.wf(),
        ensures
            m.wf(),
            m@ == self@,
    {
        let bytes = self.bytes.clone();
        assert(bytes@ =~= self.bytes@);
        CoverageBitmap { bytes }
    }

    /// The bytes of the map.
    pub fn as_ptr(&self) -> (bytes: &Vec<u8>)
        requires
            self.wf(),
        ensures
            bytes@.len() == COVERAGE_MAP_SIZE,
            bits_of(bytes@) == self@,
    {
        &self.bytes
    }
}

/// The bits below `n`.
pub open spec fn bits_below(s: Set<int>, n: int) -> Set<int> {
    s.filter(|i: int| i < n)
}

impl ExploredMap {
    /// The map has its size.
    pub closed spec fn wf(&self) -> bool {
        self.bytes@.len() == COVERAGE_MAP_SIZE
    }

    /// A map with no bit set.
    pub fn new() -> (m: Self)
        ensures
            m.wf(),
            m@ == Set::<int>::empty(),
    {
        ExploredMap { bytes: zero_bytes() }
    }

    /// A map with the bits of `bytes`, where there are as many bytes as a map has.
    pub fn from_bytes(bytes: Vec<u8>) -> (r: Option<Self>)
        ensures
            match r {
                Some(m) => bytes@.len() == COVERAGE_MAP_SIZE && m.wf() && m@ == bits_of(bytes@),
                None => bytes@.len() != COVERAGE_MAP_SIZE,
            },
    {
        if bytes.len() == COVERAGE_MAP_SIZE {
            Some(ExploredMap { bytes })
        } else {
            None
        }
    }

    /// The bytes of the map.
    pub fn as_ptr(&self) -> (bytes: &Vec<u8>)
        requires
            self.wf(),
        ensures
            bytes@.len() == COVERAGE_MAP_SIZE,
            bits_of(bytes@) == self@,
    {
        &self.bytes
    }

    /// Adds the bits that a run marked.
    pub fn merge_from(&mut self, other: &CoverageBitmap)
        requires
            old(self).wf(),
            other.wf(),
        ensures
            final(self).wf(),
            final(self)@ == old(self)@.union(other@),
    {
        let ghost before = self.bytes@;
        let mut i: usize = 0;
        while i < COVERAGE_MAP_SIZE
            invariant
                i <= COVERAGE_MAP_SIZE,
                self.bytes@.len() == COVERAGE_MAP_SIZE,
                before.len() == COVERAGE_MAP_SIZE,
                other.wf(),
                forall|j: int|
                    0 <= j < i ==> #[trigger] self.bytes@[j] == before[j] | other.bytes@[j],
                forall|j: int| i <= j < COVERAGE_MAP_SIZE ==> #[trigger] self.bytes@[j] == before[j],
            decreases COVERAGE_MAP_SIZE - i,
        {
            let b: u8 = self.bytes[i];
            self.bytes.set(i, b | other.bytes[i]);
            i += 1;
        }
        proof {
            let union = bits_of(before).union(other@);
            assert forall|x: int| self@.contains(x) == union.contains(x) by {
                if 0 <= x < COVERAGE_MAP_BITS {
                    lemma_or_byte(before[x / 8], other.bytes@[x / 8], (x % 8) as u8);
                }
            }
            assert(self@ =~= union);
        }
    }

    /// How many bits are set.
    pub fn count_bits_set(&self) -> (n: u32)
        requires
            self.wf(),
        ensures
            self@.finite(),
            n == self@.len(),
    {
        let mut n: u32 = 0;
        let mut i: usize = 0;
        proof {
            assert(bits_below(self@, 0) =~= Set::<int>::empty());
        }
        while i < COVERAGE_MAP_BITS
            invariant
                i <= COVERAGE_MAP_BITS,
                self.wf(),
                n <= i,
                bits_below(self@, i as int).finite(),
                n == bits_below(self@, i as int).len(),
            decreases COVERAGE_MAP_BITS - i,
        {
            let k: u8 = (i % 8) as u8;
            if (self.bytes[i / 8] >> k) & 1u8 == 1u8 {
                n += 1;
                assert(bits_below(self@, i + 1) =~= bits_below(self@, i as int).insert(i as int));
            } else {
                assert(bits_below(self@, i + 1) =~= bits_below(self@, i as int));
            }
            i += 1;
        }
        assert(bits_below(self@, COVERAGE_MAP_BITS as int) =~= self@);
        n
    }

    /// Whether a run marked a bit that no run before it did.
    pub fn has_new_bits(&self, other: &CoverageBitmap) -> (b: bool)
        requires
            self.wf(),
            other.wf(),
        ensures
            b == !other@.subset_of(self@),
    {
        let mut i: usize = 0;
        while i < COVERAGE_MAP_SIZE
            invariant
                i <= COVERAGE_MAP_SIZE,
                self.wf(),
                other.wf(),
                forall|x: int|
                    0 <= x < i * 8 && #[trigger] bit_at(other.bytes@, x) ==> bit_at(self.bytes@, x),
            decreases COVERAGE_MAP_SIZE - i,
        {
            let mine: u8 = self.bytes[i];
            let theirs: u8 = other.bytes[i];
            proof {
                lemma_new_in_byte(theirs, mine);
            }
            if theirs & !mine != 0 {
                proof {
                    let j = choose|j: u8|
                        j < 8 && (theirs >> j) & 1u8 == 1u8 && (mine >> j) & 1u8 != 1u8;
                    let x = i * 8 + j as int;
                    assert(x / 8 == i && x % 8 == j);
                    assert(other@.contains(x) && !self@.contains(x));
                }
                return true;
            }
            proof {
                assert forall|x: int|
                    0 <= x < (i + 1) * 8 && #[trigger] bit_at(other.bytes@, x) implies bit_at(
                    self.bytes@,
                    x,
                ) by {
                    if x >= i * 8 {
                        assert(x / 8 == i);
                        let j = (x % 8) as u8;
                        assert(!(j < 8 && (theirs >> j) & 1u8 == 1u8 && (mine >> j) & 1u8 != 1u8));
                    }
                }
            }
            i += 1;
        }
        assert forall|x: int| other@.contains(x) implies self@.contains(x) by {
            assert(bit_at(other.bytes@, x));
        }
        false
    }
}

/// After a run was merged it has no new bits, and merging it again changes
/// nothing. Merging never loses a bit.
pub proof fn lemma_merge_absorbs(explored: Set<int>, run: Set<int>)
    ensures
        run.subset_of(explored.union(run)),
        explored.subset_of(explored.union(run)),
        explored.union(run).union(run) == explored.union(run),
{
    assert(explored.union(run).union(run) =~= explored.union(run));
}

} // verus!
