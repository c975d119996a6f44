//! Little-endian encoding of 32-bit words into byte sequences, and the
//! byte-splicing function used to describe writes into a block.

use vstd::prelude::*;

verus! {

/// The value of four little-endian bytes.
pub open spec fn u32_of_bytes(b0: u8, b1: u8, b2: u8, b3: u8) -> u32 {
    (b0 as int + b1 as int * 0x100 + b2 as int * 0x10000 + b3 as int * 0x1000000) as u32
}

/// The 32-bit word stored little-endian at byte offset `off` of `s`.
pub open spec fn u32_at(s: Seq<u8>, off: int) -> u32 {
    u32_of_bytes(s[off], s[off + 1], s[off + 2], s[off + 3])
}

/// Byte `k` (0 to 3) of the little-endian encoding of `v`.
pub open spec fn u32_byte(v: u32, k: int) -> u8 {
    if k == 0 {
        (v as int % 0x100) as u8
    } else if k == 1 {
        (v as int / 0x100 % 0x100) as u8
    } else if k == 2 {
        (v as int / 0x10000 % 0x100) as u8
    } else {
        (v as int / 0x1000000 % 0x100) as u8
    }
}

/// The four-byte little-endian encoding of `v`.
pub open spec fn u32_le(v: u32) -> Seq<u8> {
    seq![u32_byte(v, 0), u32_byte(v, 1), u32_byte(v, 2), u32_byte(v, 3)]
}

/// Decoding the four encoded bytes of `v` gives `v` back.
pub proof fn lemma_u32_le_roundtrip(v: u32)
    ensures
        u32_of_bytes(u32_byte(v, 0), u32_byte(v, 1), u32_byte(v, 2), u32_byte(v, 3)) == v,
{
    let n = v as int;
    assert(n % 0x100 + (n / 0x100 % 0x100) * 0x100 + (n / 0x10000 % 0x100) * 0x10000 + (n
        / 0x1000000 % 0x100) * 0x1000000 == n) by (nonlinear_arith)
        requires
            0 <= n < 0x100000000,
    ;
}

/// `b` with the range starting at `off` overwritten by `d`, elsewhere unchanged.
pub open spec fn splice(b: Seq<u8>, off: int, d: Seq<u8>) -> Seq<u8> {
    Seq::new(b.len(), |i: int| if off <= i < off + d.len() { d[i - off] } else { b[i] })
}

/// Splicing at the same offset twice keeps only the second write.
pub proof fn lemma_splice_splice(b: Seq<u8>, off: int, d1: Seq<u8>, d2: Seq<u8>)
    requires
        d1.len() == d2.len(),
    ensures
        splice(splice(b, off, d1), off, d2) =~= splice(b, off, d2),
{
}

/// Reads a 32-bit word from four consecutive bytes of `s`.
pub fn read_u32(s: &Vec<u8>, off: usize) -> (r: u32)
    requires
        off + 4 <= s@.len(),
    ensures
        r == u32_at(s@, off as int),
{
    let n: usize = s.len();
    let b0 = s[off];
    let b1 = s[off + 1];
    let b2 = s[off + 2];
    let b3 = s[off + 3];
    b0 as u32 + b1 as u32 * 0x100 + b2 as u32 * 0x10000 + b3 as u32 * 0x1000000
}

/// Appends the four little-endian bytes of `v` to `out`.
pub fn push_u32(out: &mut Vec<u8>, v: u32)
    ensures
        final(out)@ =~= old(out)@ + u32_le(v),
{
    out.push((v % 0x100) as u8);
    out.push((v / 0x100 % 0x100) as u8);
    out.push((v / 0x10000 % 0x100) as u8);
    out.push((v / 0x1000000 % 0x100) as u8);
}

} // verus!

verus! {

/// A splice leaves any range that avoids the written bytes unchanged.
pub proof fn lemma_splice_outside(b: Seq<u8>, off: int, d: Seq<u8>, lo: int, hi: int)
    requires
        0 <= lo <= hi <= b.len(),
        0 <= off,
        hi <= off || lo >= off + d.len(),
    ensures
        splice(b, off, d).subrange(lo, hi) =~= b.subrange(lo, hi),
{
}

/// A splice stores exactly the written bytes at the written range.
pub proof fn lemma_splice_inside(b: Seq<u8>, off: int, d: Seq<u8>)
    requires
        0 <= off,
        off + d.len() <= b.len(),
    ensures
        splice(b, off, d).subrange(off, off + d.len()) =~= d,
{
}

} // verus!
