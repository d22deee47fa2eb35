//! Stable hashes of messages and seeds.

use vstd::prelude::*;

verus! {

/// The hash of the empty message.
pub const FNV32_OFFSET: u32 = 0x811c9dc5;

/// The multiplier of the 32-bit hash.
pub const FNV32_PRIME: u32 = 0x01000193;

/// The hash of the empty sequence of bytes.
pub const FNV64_OFFSET: u64 = 0xcbf29ce484222325;

/// The multiplier of the 64-bit hash.
pub const FNV64_PRIME: u64 = 0x100000001b3;

/// The 32-bit FNV-1a hash of `bytes`, continued from `h`.
pub open spec fn fnv32(h: u32, bytes: Seq<u8>) -> u32
    decreases bytes.len(),
{
    if bytes.len() == 0 {
        h
    } else {
        (fnv32(h, bytes.drop_last()) ^ (bytes.last() as u32)).wrapping_mul(FNV32_PRIME)
    }
}

/// The 64-bit FNV-1a hash of `bytes`, continued from `h`.
pub open spec fn fnv64(h: u64, bytes: Seq<u8>) -> u64
    decreases bytes.len(),
{
    if bytes.len() == 0 {
        h
    } else {
        (fnv64(h, bytes.drop_last()) ^ (bytes.last() as u64)).wrapping_mul(FNV64_PRIME)
    }
}

/// Continues the 32-bit hash `h` over `bytes`.
pub fn hash32(h: u32, bytes: &[u8]) -> (r: u32)
    ensures
        r == fnv32(h, bytes@),
{
    let mut r: u32 = h;
    let mut i: usize = 0;
    while i < bytes.len()
        invariant
            i <= bytes@.len(),
            r == fnv32(h, bytes@.take(i as int)),
        decreases bytes@.len() - i,
    {
        r = (r ^ (bytes[i] as u32)).wrapping_mul(FNV32_PRIME);
        assert(bytes@.take(i + 1).drop_last() =~= bytes@.take(i as int));
        i += 1;
    }
    assert(bytes@.take(i as int) =~= bytes@);
    r
}

/// Continues the 64-bit hash `h` over `bytes`.
pub fn hash64(h: u64, bytes: &[u8]) -> (r: u64)
    ensures
        r == fnv64(h, bytes@),
{
    let mut r: u64 = h;
    let mut i: usize = 0;
    while i < bytes.len()
        invariant
            i <= bytes@.len(),
            r == fnv64(h, bytes@.take(i as int)),
        decreases bytes@.len() - i,
    {
        r = (r ^ (bytes[i] as u64)).wrapping_mul(FNV64_PRIME);
        assert(bytes@.take(i + 1).drop_last() =~= bytes@.take(i as int));
        i += 1;
    }
    assert(bytes@.take(i as int) =~= bytes@);
    r
}

/// The hash of a message.
pub open spec fn hash_of(msg: Seq<char>) -> u32 {
    fnv32(FNV32_OFFSET, vstd::utf8::encode_utf8(msg))
}

/// A stable hash of a message.
pub fn msg_hash(msg: &str) -> (h: u32)
    ensures
        h == hash_of(msg@),
{
    hash32(FNV32_OFFSET, msg.as_bytes())
}

/// `bytes` cut to fewer than `n` bytes and filled up with zeros to `n`.
pub open spec fn padded(bytes: Seq<u8>, n: nat) -> Seq<u8> {
    Seq::new(
        n,
        |i: int|
            if i < bytes.len() && i < n - 1 {
                bytes[i]
            } else {
                0
            },
    )
}

/// Copies a message into a buffer of `N` bytes. The last byte stays zero.
pub fn truncate_to_buf<const N: usize>(s: &str) -> (buf: [u8; N])
    requires
        N > 0,
    ensures
        buf@ == padded(vstd::utf8::encode_utf8(s@), N as nat),
{
    let bytes = s.as_bytes();
    let mut buf: [u8; N] = [0u8; N];
    let mut i: usize = 0;
    while i < bytes.len() && i < N - 1
        invariant
            N > 0,
            i <= N - 1,
            i <= bytes@.len(),
            buf@.len() == N,
            forall|j: int| 0 <= j < i ==> #[trigger] buf@[j] == bytes@[j],
            forall|j: int| i <= j < N ==> #[trigger] buf@[j] == 0,
        decreases N - i,
    {
        buf[i] = bytes[i];
        i += 1;
    }
    assert(buf@ =~= padded(bytes@, N as nat));
    buf
}

/// Multiplying by the inverse of the multiplier gives back what was multiplied.
proof fn lemma_product_undone(a: u32)
    ensures
        (a.wrapping_mul(FNV32_PRIME) as int * 0x359c449b) % 0x1_0000_0000 == a,
{
    let m: int = 0x1_0000_0000;
    let p: int = FNV32_PRIME as int;
    let inv: int = 0x359c449b;
    let k: int = 0x359c99;
    assert(p * inv == 1 + k * m);
    assert(a.wrapping_mul(FNV32_PRIME) == (a * p) % m);
    vstd::arithmetic::div_mod::lemma_mul_mod_noop_left(a * p, inv, m);
    assert((a * p) * inv == a * (p * inv)) by (nonlinear_arith);
    assert(a * (1 + k * m) == m * (a * k) + a) by (nonlinear_arith);
    vstd::arithmetic::div_mod::lemma_mod_multiples_vanish(a * k, a as int, m);
}

/// Two hashes that differ still do after the same bytes.
proof fn lemma_hashes_stay_apart(a: u32, b: u32, bytes: Seq<u8>)
    requires
        a != b,
    ensures
        fnv32(a, bytes) != fnv32(b, bytes),
    decreases bytes.len(),
{
    if bytes.len() > 0 {
        lemma_hashes_stay_apart(a, b, bytes.drop_last());
        let x = fnv32(a, bytes.drop_last());
        let y = fnv32(b, bytes.drop_last());
        let c = bytes.last() as u32;
        assert(x ^ c != y ^ c) by (bit_vector)
            requires
                x != y,
        ;
        lemma_product_undone(x ^ c);
        lemma_product_undone(y ^ c);
    }
}

/// Another byte anywhere makes another hash.
pub proof fn lemma_one_byte_changes_the_hash(h: u32, bytes: Seq<u8>, i: int, byte: u8)
    requires
        0 <= i < bytes.len(),
        byte != bytes[i],
    ensures
        fnv32(h, bytes.update(i, byte)) != fnv32(h, bytes),
    decreases bytes.len(),
{
    let other = bytes.update(i, byte);
    if i == bytes.len() - 1 {
        assert(other.drop_last() =~= bytes.drop_last());
        let x = fnv32(h, bytes.drop_last());
        let a = bytes[i] as u32;
        let b = byte as u32;
        assert(x ^ a != x ^ b) by (bit_vector)
            requires
                a != b,
        ;
        lemma_product_undone(x ^ a);
        lemma_product_undone(x ^ b);
    } else {
        lemma_one_byte_changes_the_hash(h, bytes.drop_last(), i, byte);
        assert(other.drop_last() =~= bytes.drop_last().update(i, byte));
        let x = fnv32(h, other.drop_last());
        let y = fnv32(h, bytes.drop_last());
        let c = bytes.last();
        lemma_hashes_stay_apart(x, y, seq![c]);
        reveal_with_fuel(fnv32, 2);
        assert(seq![c].drop_last() =~= Seq::<u8>::empty());
    }
}

} // verus!
