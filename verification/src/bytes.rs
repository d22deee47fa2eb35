//! Numbers as bytes, the least significant first.

use vstd::prelude::*;

verus! {

/// The lowest `n` bytes of `v`, the least significant first.
pub open spec fn le_bytes(v: int, n: nat) -> Seq<u8>
    decreases n,
{
    if n == 0 {
        Seq::empty()
    } else {
        seq![(v % 256) as u8] + le_bytes(v / 256, (n - 1) as nat)
    }
}

/// The number that bytes spell, the least significant first.
pub open spec fn le_value(b: Seq<u8>) -> int
    decreases b.len(),
{
    if b.len() == 0 {
        0
    } else {
        b[0] + 256 * le_value(b.drop_first())
    }
}

/// How many numbers `n` bytes can spell.
pub open spec fn byte_range(n: nat) -> int
    decreases n,
{
    if n == 0 {
        1
    } else {
        256 * byte_range((n - 1) as nat)
    }
}

/// A number that fits into `n` bytes is spelled by its lowest `n` bytes.
pub proof fn lemma_le_bytes(v: int, n: nat)
    requires
        0 <= v < byte_range(n),
    ensures
        le_bytes(v, n).len() == n,
        le_value(le_bytes(v, n)) == v,
    decreases n,
{
    if n > 0 {
        lemma_le_bytes(v / 256, (n - 1) as nat);
        assert(le_bytes(v, n).drop_first() =~= le_bytes(v / 256, (n - 1) as nat));
    }
}

/// Bytes are the lowest bytes of the number that they spell.
pub proof fn lemma_le_value(b: Seq<u8>)
    ensures
        0 <= le_value(b) < byte_range(b.len()),
        le_bytes(le_value(b), b.len()) == b,
    decreases b.len(),
{
    if b.len() > 0 {
        let rest = b.drop_first();
        lemma_le_value(rest);
        let v = le_value(b);
        assert(v % 256 == b[0] && v / 256 == le_value(rest));
        assert(le_bytes(v, b.len()) =~= seq![b[0]] + rest);
        assert(seq![b[0]] + rest =~= b);
    }
}

pub proof fn lemma_byte_range()
    ensures
        byte_range(4) == 0x1_0000_0000,
        byte_range(8) == 0x1_0000_0000_0000_0000,
{
    reveal_with_fuel(byte_range, 9);
}

/// Appends the lowest `n` bytes of `v` to `out`.
pub fn push_le(out: &mut Vec<u8>, v: u64, n: usize)
    ensures
        final(out)@ == old(out)@ + le_bytes(v as int, n as nat),
{
    let ghost before = out@;
    let mut rest: u64 = v;
    let mut i: usize = 0;
    assert(out@ + le_bytes(rest as int, n as nat) =~= before + le_bytes(v as int, n as nat));
    while i < n
        invariant
            i <= n,
            out@ + le_bytes(rest as int, (n - i) as nat) == before + le_bytes(v as int, n as nat),
        decreases n - i,
    {
        let ghost out0 = out@;
        let ghost rest0 = rest as int;
        out.push((rest % 256) as u8);
        rest = rest / 256;
        proof {
            let tail = le_bytes(rest0 / 256, (n - i - 1) as nat);
            assert(out0 + (seq![(rest0 % 256) as u8] + tail) =~= out@ + tail);
        }
        i += 1;
    }
    assert(out@ + le_bytes(rest as int, 0) =~= out@);
}

/// The number that the `n` bytes of `data` at `from` spell.
pub fn read_le(data: &[u8], from: usize, n: usize) -> (v: u64)
    requires
        from + n <= data@.len(),
        n <= 8,
    ensures
        v == le_value(data@.subrange(from as int, from + n)),
{
    let len: usize = data.len();
    let mut v: u64 = 0;
    let mut i: usize = n;
    assert(data@.subrange(from + n, from + n) =~= Seq::<u8>::empty());
    proof {
        reveal_with_fuel(byte_range, 9);
    }
    while i > 0
        invariant
            i <= n <= 8,
            from + n <= len == data@.len(),
            v == le_value(data@.subrange(from + i, from + n)),
        decreases i,
    {
        proof {
            let tail = data@.subrange(from + i, from + n);
            let more = data@.subrange(from + i - 1, from + n);
            assert(more.drop_first() =~= tail);
            lemma_le_value(more);
            reveal_with_fuel(byte_range, 9);
            assert(byte_range(more.len()) <= byte_range(8));
        }
        v = (data[from + i - 1] as u64) + 256 * v;
        i -= 1;
    }
    v
}

} // verus!
