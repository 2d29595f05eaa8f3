//! Little-endian integer fields inside a byte sequence.

use vstd::prelude::*;

verus! {

/// The unsigned 16-bit value stored little-endian at offset `at` of `s`.
pub open spec fn le16(s: Seq<u8>, at: int) -> int {
    s[at] as int + 256 * (s[at + 1] as int)
}

/// The unsigned 24-bit value stored little-endian at offset `at` of `s`.
pub open spec fn le24(s: Seq<u8>, at: int) -> int {
    s[at] as int + 256 * (s[at + 1] as int) + 65536 * (s[at + 2] as int)
}

/// The unsigned 32-bit value stored little-endian at offset `at` of `s`.
pub open spec fn le32(s: Seq<u8>, at: int) -> int {
    le16(s, at) + 65536 * le16(s, at + 2)
}

/// The unsigned 64-bit value stored little-endian at offset `at` of `s`.
pub open spec fn le64(s: Seq<u8>, at: int) -> int {
    le32(s, at) + 4294967296 * le32(s, at + 4)
}

/// The two bytes that store `v` little-endian.
pub open spec fn bytes16(v: int) -> Seq<u8> {
    seq![(v % 256) as u8, ((v / 256) % 256) as u8]
}

/// The four bytes that store `v` little-endian.
pub open spec fn bytes32(v: int) -> Seq<u8> {
    bytes16(v % 65536) + bytes16(v / 65536)
}

/// The eight bytes that store `v` little-endian.
pub open spec fn bytes64(v: int) -> Seq<u8> {
    bytes32(v % 4294967296) + bytes32(v / 4294967296)
}

/// Reading back the two bytes written for `v` gives `v`.
pub proof fn lemma_le16_of_bytes16(v: int)
    requires
        0 <= v < 65536,
    ensures
        bytes16(v).len() == 2,
        le16(bytes16(v), 0) == v,
{
}

/// Reading back the four bytes written for `v` gives `v`.
pub proof fn lemma_le32_of_bytes32(v: int)
    requires
        0 <= v < 4294967296,
    ensures
        bytes32(v).len() == 4,
        le32(bytes32(v), 0) == v,
{
    lemma_le16_of_bytes16(v % 65536);
    lemma_le16_of_bytes16(v / 65536);
    let s = bytes32(v);
    assert(s[0] == bytes16(v % 65536)[0]);
    assert(s[1] == bytes16(v % 65536)[1]);
    assert(s[2] == bytes16(v / 65536)[0]);
    assert(s[3] == bytes16(v / 65536)[1]);
}

/// Reading back the eight bytes written for `v` gives `v`.
pub proof fn lemma_le64_of_bytes64(v: int)
    requires
        0 <= v < 18446744073709551616,
    ensures
        bytes64(v).len() == 8,
        le64(bytes64(v), 0) == v,
{
    let lo = v % 4294967296;
    let hi = v / 4294967296;
    lemma_le32_of_bytes32(lo);
    lemma_le32_of_bytes32(hi);
    let s = bytes64(v);
    assert forall|i: int| 0 <= i < 4 implies s[i] == bytes32(lo)[i] && s[i + 4] == bytes32(hi)[i] by {}
    assert(le32(s, 0) == le32(bytes32(lo), 0));
    assert(le32(s, 4) == le32(bytes32(hi), 0));
}

/// A field read at `at` depends only on the bytes it covers.
pub proof fn lemma_le_window(s: Seq<u8>, at: int, t: Seq<u8>, n: int)
    requires
        0 <= at,
        0 <= n <= 8,
        at + n <= s.len(),
        t.len() == n,
        forall|i: int| 0 <= i < n ==> s[at + i] == t[i],
    ensures
        n >= 2 ==> le16(s, at) == le16(t, 0),
        n >= 3 ==> le24(s, at) == le24(t, 0),
        n >= 4 ==> le32(s, at) == le32(t, 0),
        n >= 8 ==> le64(s, at) == le64(t, 0),
{
    if n >= 2 {
        assert(s[at + 0] == t[0] && s[at + 1] == t[1]);
    }
    if n >= 3 {
        assert(s[at + 2] == t[2]);
    }
    if n >= 4 {
        assert(s[at + 3] == t[3]);
    }
    if n >= 8 {
        assert(s[at + 4] == t[4] && s[at + 5] == t[5] && s[at + 6] == t[6] && s[at + 7] == t[7]);
    }
}

/// Reads the 16-bit field at `at`.
pub fn read_u16(bytes: &Vec<u8>, at: usize) -> (v: u16)
    requires
        at + 2 <= bytes.len(),
    ensures
        v as int == le16(bytes@, at as int),
{
    let b0: u16 = bytes[at] as u16;
    let b1: u16 = bytes[at + 1] as u16;
    b0 + 256 * b1
}

/// Reads the 32-bit field at `at`.
pub fn read_u32(bytes: &Vec<u8>, at: usize) -> (v: u32)
    requires
        at + 4 <= bytes.len(),
    ensures
        v as int == le32(bytes@, at as int),
{
    let lo: u32 = read_u16(bytes, at) as u32;
    let hi: u32 = read_u16(bytes, at + 2) as u32;
    lo + 65536 * hi
}

/// Reads the 64-bit field at `at`.
pub fn read_u64(bytes: &Vec<u8>, at: usize) -> (v: u64)
    requires
        at + 8 <= bytes.len(),
    ensures
        v as int == le64(bytes@, at as int),
{
    let lo: u64 = read_u32(bytes, at) as u64;
    let hi: u64 = read_u32(bytes, at + 4) as u64;
    lo + 4294967296 * hi
}

/// Appends the two bytes of `v`.
pub fn write_u16(out: &mut Vec<u8>, v: u16)
    ensures
        final(out)@ == old(out)@ + bytes16(v as int),
{
    out.push((v % 256) as u8);
    out.push(((v / 256) % 256) as u8);
    assert(out@ =~= old(out)@ + bytes16(v as int));
}

/// Appends the four bytes of `v`.
pub fn write_u32(out: &mut Vec<u8>, v: u32)
    ensures
        final(out)@ == old(out)@ + bytes32(v as int),
{
    write_u16(out, (v % 65536) as u16);
    write_u16(out, (v / 65536) as u16);
    assert(out@ =~= old(out)@ + bytes32(v as int));
}

/// Appends the eight bytes of `v`.
pub fn write_u64(out: &mut Vec<u8>, v: u64)
    ensures
        final(out)@ == old(out)@ + bytes64(v as int),
{
    write_u32(out, (v % 4294967296) as u32);
    write_u32(out, (v / 4294967296) as u32);
    assert(out@ =~= old(out)@ + bytes64(v as int));
}

} // verus!
