//! Little-endian layout of fixed-width unsigned integers inside a byte string.
use vstd::prelude::*;

verus! {

/// The 16-bit value stored little-endian at `b[at]` and `b[at + 1]`.
pub open spec fn le16(b: Seq<u8>, at: int) -> int {
    b[at] as int + 256 * (b[at + 1] as int)
}

/// The 32-bit value stored little-endian at `b[at] .. b[at + 3]`.
pub open spec fn le32(b: Seq<u8>, at: int) -> int {
    b[at] as int + 256 * (b[at + 1] as int) + 65536 * (b[at + 2] as int) + 16777216 * (b[at
        + 3] as int)
}

/// The two bytes that store `x` little-endian.
pub open spec fn bytes16(x: u16) -> Seq<u8> {
    seq![(x % 256) as u8, (x / 256) as u8]
}

/// The four bytes that store `x` little-endian.
pub open spec fn bytes32(x: u32) -> Seq<u8> {
    seq![
        (x % 256) as u8,
        ((x / 256) % 256) as u8,
        ((x / 65536) % 256) as u8,
        (x / 16777216) as u8,
    ]
}

/// Reading back the two bytes written for `x` gives `x`, wherever they sit.
pub proof fn lemma_le16_of_bytes16(b: Seq<u8>, at: int, x: u16)
    requires
        0 <= at,
        at + 2 <= b.len(),
        b.subrange(at, at + 2) == bytes16(x),
    ensures
        le16(b, at) == x,
{
    let w = b.subrange(at, at + 2);
    assert(b[at] == w[0]);
    assert(b[at + 1] == w[1]);
}

/// Reading back the four bytes written for `x` gives `x`, wherever they sit.
pub proof fn lemma_le32_of_bytes32(b: Seq<u8>, at: int, x: u32)
    requires
        0 <= at,
        at + 4 <= b.len(),
        b.subrange(at, at + 4) == bytes32(x),
    ensures
        le32(b, at) == x,
{
    let w = b.subrange(at, at + 4);
    assert(b[at] == w[0]);
    assert(b[at + 1] == w[1]);
    assert(b[at + 2] == w[2]);
    assert(b[at + 3] == w[3]);
}

} // verus!
