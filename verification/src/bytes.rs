//! Little-endian byte encoding: the ELF image format and the relocation
//! engine read and write multi-byte words stored least-significant byte
//! first.

use vstd::prelude::*;

verus! {

/// Little-endian value of the two bytes of `s` starting at `off`.
pub open spec fn le16_at(s: Seq<u8>, off: int) -> int {
    s[off] + 0x100 * s[off + 1]
}

/// Little-endian value of the four bytes of `s` starting at `off`.
pub open spec fn le32_at(s: Seq<u8>, off: int) -> int {
    s[off] + 0x100 * s[off + 1] + 0x1_0000 * s[off + 2] + 0x100_0000 * s[off + 3]
}

/// Little-endian value of the eight bytes of `s` starting at `off`.
pub open spec fn le64_at(s: Seq<u8>, off: int) -> int {
    le32_at(s, off) + 0x1_0000_0000 * le32_at(s, off + 4)
}

/// Byte `i` (counting from the least significant) of the little-endian
/// encoding of `v`.
pub open spec fn le64_byte(v: u64, i: u64) -> u8 {
    if i == 0 {
        (v & 0xff) as u8
    } else if i == 1 {
        ((v >> 8) & 0xff) as u8
    } else if i == 2 {
        ((v >> 16) & 0xff) as u8
    } else if i == 3 {
        ((v >> 24) & 0xff) as u8
    } else if i == 4 {
        ((v >> 32) & 0xff) as u8
    } else if i == 5 {
        ((v >> 40) & 0xff) as u8
    } else if i == 6 {
        ((v >> 48) & 0xff) as u8
    } else {
        ((v >> 56) & 0xff) as u8
    }
}

/// Reads the little-endian 16-bit word of `b` at `off`.
pub fn read_u16_at(b: &[u8], off: usize) -> (r: u16)
    requires
        off + 2 <= b@.len(),
    ensures
        r as int == le16_at(b@, off as int),
{
    (b[off] as u16) + (b[off + 1] as u16) * 0x100
}

/// Reads the little-endian 32-bit word of `b` at `off`.
pub fn read_u32_at(b: &[u8], off: usize) -> (r: u32)
    requires
        off + 4 <= b@.len(),
    ensures
        r as int == le32_at(b@, off as int),
{
    (b[off] as u32) + (b[off + 1] as u32) * 0x100 + (b[off + 2] as u32) * 0x1_0000 + (b[off
        + 3] as u32) * 0x100_0000
}

/// Reads the little-endian 64-bit word of `b` at `off`.
pub fn read_u64_at(b: &[u8], off: usize) -> (r: u64)
    requires
        off + 8 <= b@.len(),
    ensures
        r as int == le64_at(b@, off as int),
{
    let n = b.len();
    let lo = read_u32_at(b, off);
    let hi = read_u32_at(b, off + 4);
    (lo as u64) + (hi as u64) * 0x1_0000_0000
}

/// Every little-endian word value is bounded by the width of its encoding.
pub proof fn lemma_le64_at_bound(s: Seq<u8>, off: int)
    requires
        0 <= off,
        off + 8 <= s.len(),
    ensures
        0 <= le64_at(s, off) < 0x1_0000_0000_0000_0000,
{
}

/// The eight little-endian bytes of `v`, read back as a word, give `v`.
pub proof fn lemma_le64_roundtrip(s: Seq<u8>, off: int, v: u64)
    requires
        0 <= off,
        off + 8 <= s.len(),
        forall|i: u64| i < 8 ==> s[off + i] == le64_byte(v, i),
    ensures
        le64_at(s, off) == v,
{
    assert(s[off + 0u64] == le64_byte(v, 0));
    assert(s[off + 1u64] == le64_byte(v, 1));
    assert(s[off + 2u64] == le64_byte(v, 2));
    assert(s[off + 3u64] == le64_byte(v, 3));
    assert(s[off + 4u64] == le64_byte(v, 4));
    assert(s[off + 5u64] == le64_byte(v, 5));
    assert(s[off + 6u64] == le64_byte(v, 6));
    assert(s[off + 7u64] == le64_byte(v, 7));
    let b0 = le64_byte(v, 0);
    let b1 = le64_byte(v, 1);
    let b2 = le64_byte(v, 2);
    let b3 = le64_byte(v, 3);
    let b4 = le64_byte(v, 4);
    let b5 = le64_byte(v, 5);
    let b6 = le64_byte(v, 6);
    let b7 = le64_byte(v, 7);
    assert(b0 + 0x100 * b1 + 0x1_0000 * b2 + 0x100_0000 * b3 + 0x1_0000_0000 * (b4 + 0x100 * b5
        + 0x1_0000 * b6 + 0x100_0000 * b7) == v) by (bit_vector)
        requires
            b0 == (v & 0xff) as u8,
            b1 == ((v >> 8) & 0xff) as u8,
            b2 == ((v >> 16) & 0xff) as u8,
            b3 == ((v >> 24) & 0xff) as u8,
            b4 == ((v >> 32) & 0xff) as u8,
            b5 == ((v >> 40) & 0xff) as u8,
            b6 == ((v >> 48) & 0xff) as u8,
            b7 == ((v >> 56) & 0xff) as u8,
    ;
    assert(s[off] == b0 && s[off + 1] == b1 && s[off + 2] == b2 && s[off + 3] == b3 && s[off + 4]
        == b4 && s[off + 5] == b5 && s[off + 6] == b6 && s[off + 7] == b7);
}

/// Writes `v` into `buf` at `off` as eight little-endian bytes; nothing
/// else changes.
pub fn write_u64_at(buf: &mut Vec<u8>, off: usize, v: u64)
    requires
        off + 8 <= old(buf)@.len(),
    ensures
        final(buf)@.len() == old(buf)@.len(),
        forall|i: u64| i < 8 ==> final(buf)@[off + i] == le64_byte(v, i),
        forall|j: int|
            0 <= j < old(buf)@.len() && !(off <= j < off + 8) ==> final(buf)@[j] == old(buf)@[j],
        le64_at(final(buf)@, off as int) == v,
{
    let n = buf.len();
    let b0 = (v & 0xff) as u8;
    let b1 = ((v >> 8) & 0xff) as u8;
    let b2 = ((v >> 16) & 0xff) as u8;
    let b3 = ((v >> 24) & 0xff) as u8;
    let b4 = ((v >> 32) & 0xff) as u8;
    let b5 = ((v >> 40) & 0xff) as u8;
    let b6 = ((v >> 48) & 0xff) as u8;
    let b7 = ((v >> 56) & 0xff) as u8;
    buf.set(off, b0);
    buf.set(off + 1, b1);
    buf.set(off + 2, b2);
    buf.set(off + 3, b3);
    buf.set(off + 4, b4);
    buf.set(off + 5, b5);
    buf.set(off + 6, b6);
    buf.set(off + 7, b7);
    proof {
        assert forall|i: u64| i < 8 implies final(buf)@[off + i] == le64_byte(v, i) by {
            assert(i == 0 || i == 1 || i == 2 || i == 3 || i == 4 || i == 5 || i == 6 || i == 7);
        }
        lemma_le64_roundtrip(final(buf)@, off as int, v);
    }
}

} // verus!
