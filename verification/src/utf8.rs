//! Text from bytes.

use vstd::prelude::*;

verus! {

/// Reads bytes as text by `std::str::from_utf8`. Trusted: it gives text just
/// where the bytes are valid UTF-8, and then the text that they encode.
#[verifier::external_body]
fn text_of_bytes(bytes: &[u8]) -> (r: Option<&str>)
    ensures
        match r {
            Some(s) => vstd::utf8::valid_utf8(bytes@) && s@ == vstd::utf8::decode_utf8(bytes@),
            None => !vstd::utf8::valid_utf8(bytes@),
        },
{
    std::str::from_utf8(bytes).ok()
}

/// The position of the first zero byte at or after `from`, or the length.
pub open spec fn zero_from(b: Seq<u8>, from: int) -> int
    decreases b.len() - from,
{
    if from < 0 || from >= b.len() {
        b.len() as int
    } else if b[from] == 0 {
        from
    } else {
        zero_from(b, from + 1)
    }
}

/// What stands before the first zero byte.
pub open spec fn before_zero(b: Seq<u8>) -> Seq<u8> {
    b.take(zero_from(b, 0))
}

/// The text that stands in a buffer before its first zero byte, or a mark where
/// that is no text.
pub open spec fn buffer_text(b: Seq<u8>) -> Seq<char> {
    if vstd::utf8::valid_utf8(before_zero(b)) {
        vstd::utf8::decode_utf8(before_zero(b))
    } else {
        "???"@
    }
}

/// Reads the text that stands in a buffer before its first zero byte.
pub fn read_buffer_text(b: &[u8]) -> (s: &str)
    ensures
        s@ == buffer_text(b@),
{
    let mut n: usize = 0;
    while n < b.len() && b[n] != 0
        invariant
            n <= b@.len(),
            zero_from(b@, 0) == zero_from(b@, n as int),
        decreases b@.len() - n,
    {
        n += 1;
    }
    let text = vstd::slice::slice_subrange(b, 0, n);
    assert(text@ =~= before_zero(b@));
    match text_of_bytes(text) {
        Some(s) => s,
        None => "???",
    }
}

} // verus!
