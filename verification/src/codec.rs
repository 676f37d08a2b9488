//! Little- and big-endian encodings of 32-bit words.

use vstd::prelude::*;

verus! {

/// The word stored little-endian in the four bytes of `b` that start at `i`.
pub open spec fn le_word(b: Seq<u8>, i: int) -> u32 {
    (b[i] as u32) | ((b[i + 1] as u32) << 8u32) | ((b[i + 2] as u32) << 16u32) | ((b[i + 3] as u32)
        << 24u32)
}

/// The four bytes of `v`, least significant first.
pub open spec fn word_le(v: u32) -> Seq<u8> {
    seq![(v & 0xff) as u8, ((v >> 8u32) & 0xff) as u8, ((v >> 16u32) & 0xff) as u8, (v >> 24u32) as u8]
}

/// The four bytes of `v`, most significant first.
pub open spec fn word_be(v: u32) -> Seq<u8> {
    seq![(v >> 24u32) as u8, ((v >> 16u32) & 0xff) as u8, ((v >> 8u32) & 0xff) as u8, (v & 0xff) as u8]
}

/// Writing a word little-endian and reading it back gives the word.
pub proof fn lemma_le_roundtrip(v: u32)
    ensures
        le_word(word_le(v), 0) == v,
{
    let b = word_le(v);
    let b0 = (v & 0xff) as u8;
    let b1 = ((v >> 8u32) & 0xff) as u8;
    let b2 = ((v >> 16u32) & 0xff) as u8;
    let b3 = (v >> 24u32) as u8;
    assert(b[0] == b0 && b[1] == b1 && b[2] == b2 && b[3] == b3);
    assert(((b0 as u32) | ((b1 as u32) << 8u32) | ((b2 as u32) << 16u32) | ((b3 as u32) << 24u32))
        == v) by (bit_vector)
        requires
            b0 == (v & 0xff) as u8,
            b1 == ((v >> 8u32) & 0xff) as u8,
            b2 == ((v >> 16u32) & 0xff) as u8,
            b3 == (v >> 24u32) as u8,
    ;
}

/// Reads the little-endian word at `i`.
pub fn read_le_word(b: &[u8], i: usize) -> (v: u32)
    requires
        i + 4 <= b@.len(),
    ensures
        v == le_word(b@, i as int),
{
    (b[i] as u32) | ((b[i + 1] as u32) << 8u32) | ((b[i + 2] as u32) << 16u32) | ((b[i + 3] as u32)
        << 24u32)
}

/// The little-endian bytes of `v`.
pub fn le_bytes(v: u32) -> (b: [u8; 4])
    ensures
        b@ == word_le(v),
{
    let b = [(v & 0xff) as u8, ((v >> 8u32) & 0xff) as u8, ((v >> 16u32) & 0xff) as u8, (v >> 24u32) as u8];
    assert(b@ =~= word_le(v));
    b
}

/// The big-endian bytes of `v`.
pub fn be_bytes(v: u32) -> (b: [u8; 4])
    ensures
        b@ == word_be(v),
{
    let b = [(v >> 24u32) as u8, ((v >> 16u32) & 0xff) as u8, ((v >> 8u32) & 0xff) as u8, (v & 0xff) as u8];
    assert(b@ =~= word_be(v));
    b
}

} // verus!
