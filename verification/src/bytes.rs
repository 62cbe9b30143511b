//! 32-bit numbers as bytes.

use vstd::prelude::*;

verus! {

/// The bytes of a number, the least significant one first.
pub open spec fn le32(v: u32) -> Seq<u8> {
    seq![
        (v % 256) as u8,
        (v / 0x100 % 256) as u8,
        (v / 0x1_0000 % 256) as u8,
        (v / 0x100_0000) as u8,
    ]
}

/// The bytes of a number, the most significant one first.
pub open spec fn be32(v: u32) -> Seq<u8> {
    seq![
        (v / 0x100_0000) as u8,
        (v / 0x1_0000 % 256) as u8,
        (v / 0x100 % 256) as u8,
        (v % 256) as u8,
    ]
}

/// The number whose bytes, least significant first, stand at `i`.
pub open spec fn le32_at(b: Seq<u8>, i: int) -> u32 {
    (b[i] + 0x100 * b[i + 1] + 0x1_0000 * b[i + 2] + 0x100_0000 * b[i + 3]) as u32
}

/// The number whose bytes, most significant first, stand at `i`.
pub open spec fn be32_at(b: Seq<u8>, i: int) -> u32 {
    (0x100_0000 * b[i] + 0x1_0000 * b[i + 1] + 0x100 * b[i + 2] + b[i + 3]) as u32
}

/// A number comes back from its bytes.
pub proof fn lemma_le32(v: u32, b: Seq<u8>, i: int)
    requires
        0 <= i,
        i + 4 <= b.len(),
        b.subrange(i, i + 4) == le32(v),
    ensures
        le32_at(b, i) == v,
{
    let s = b.subrange(i, i + 4);
    assert(s[0] == b[i] && s[1] == b[i + 1] && s[2] == b[i + 2] && s[3] == b[i + 3]);
}

/// A number comes back from its bytes.
pub proof fn lemma_be32(v: u32, b: Seq<u8>, i: int)
    requires
        0 <= i,
        i + 4 <= b.len(),
        b.subrange(i, i + 4) == be32(v),
    ensures
        be32_at(b, i) == v,
{
    let s = b.subrange(i, i + 4);
    assert(s[0] == b[i] && s[1] == b[i + 1] && s[2] == b[i + 2] && s[3] == b[i + 3]);
}

/// The number whose bytes, least significant first, stand at `i`.
pub fn read_le32(b: &[u8], i: usize) -> (v: u32)
    requires
        i + 4 <= b@.len(),
    ensures
        v == le32_at(b@, i as int),
{
    let n: u64 = b[i] as u64 + 0x100 * (b[i + 1] as u64) + 0x1_0000 * (b[i + 2] as u64)
        + 0x100_0000 * (b[i + 3] as u64);
    n as u32
}

/// The number whose bytes, most significant first, stand at `i`.
pub fn read_be32(b: &[u8], i: usize) -> (v: u32)
    requires
        i + 4 <= b@.len(),
    ensures
        v == be32_at(b@, i as int),
{
    let n: u64 = 0x100_0000 * (b[i] as u64) + 0x1_0000 * (b[i + 1] as u64) + 0x100 * (b[i
        + 2] as u64) + b[i + 3] as u64;
    n as u32
}

/// Append the bytes of a number, the least significant one first.
pub fn push_le32(out: &mut Vec<u8>, v: u32)
    ensures
        final(out)@ == old(out)@ + le32(v),
{
    out.push((v % 256) as u8);
    out.push((v / 0x100 % 256) as u8);
    out.push((v / 0x1_0000 % 256) as u8);
    out.push((v / 0x100_0000) as u8);
    assert(out@ =~= old(out)@ + le32(v));
}

} // verus!
