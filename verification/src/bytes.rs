//! Little-endian integers in byte buffers.
use vstd::prelude::*;

verus! {

broadcast use vstd::seq_lib::group_seq_properties;

/// The 16-bit integer at offset `i`.
pub open spec fn le16(s: Seq<u8>, i: int) -> int {
    s[i] + 0x100 * s[i + 1]
}

/// The 32-bit integer at offset `i`.
pub open spec fn le32(s: Seq<u8>, i: int) -> int {
    le16(s, i) + 0x1_0000 * le16(s, i + 2)
}

/// The 64-bit integer at offset `i`.
pub open spec fn le64(s: Seq<u8>, i: int) -> int {
    le32(s, i) + 0x1_0000_0000 * le32(s, i + 4)
}

/// The two bytes of a 16-bit integer.
pub open spec fn le16_bytes(v: u16) -> Seq<u8> {
    seq![(v % 0x100) as u8, (v / 0x100) as u8]
}

/// The four bytes of a 32-bit integer.
pub open spec fn le32_bytes(v: u32) -> Seq<u8> {
    le16_bytes((v % 0x1_0000) as u16) + le16_bytes((v / 0x1_0000) as u16)
}

/// The eight bytes of a 64-bit integer.
pub open spec fn le64_bytes(v: u64) -> Seq<u8> {
    le32_bytes((v % 0x1_0000_0000) as u32) + le32_bytes((v / 0x1_0000_0000) as u32)
}

pub fn read_le16(s: &[u8], i: usize) -> (r: u16)
    requires
        i + 2 <= s.len(),
    ensures
        r == le16(s@, i as int),
{
    s[i] as u16 + 0x100 * (s[i + 1] as u16)
}

pub fn read_le32(s: &[u8], i: usize) -> (r: u32)
    requires
        i + 4 <= s.len(),
    ensures
        r == le32(s@, i as int),
{
    let lo: u16 = read_le16(s, i);
    let hi: u16 = read_le16(s, i + 2);
    lo as u32 + 0x1_0000 * (hi as u32)
}

pub fn read_le64(s: &[u8], i: usize) -> (r: u64)
    requires
        i + 8 <= s.len(),
    ensures
        r == le64(s@, i as int),
{
    let lo: u32 = read_le32(s, i);
    let hi: u32 = read_le32(s, i + 4);
    lo as u64 + 0x1_0000_0000 * (hi as u64)
}

pub fn push_le16(out: &mut Vec<u8>, v: u16)
    ensures
        final(out)@ == old(out)@ + le16_bytes(v),
{
    out.push((v % 0x100) as u8);
    out.push((v / 0x100) as u8);
    assert(out@ =~= old(out)@ + le16_bytes(v));
}

pub fn push_le32(out: &mut Vec<u8>, v: u32)
    ensures
        final(out)@ == old(out)@ + le32_bytes(v),
{
    push_le16(out, (v % 0x1_0000) as u16);
    push_le16(out, (v / 0x1_0000) as u16);
    assert(out@ =~= old(out)@ + le32_bytes(v));
}

pub fn push_le64(out: &mut Vec<u8>, v: u64)
    ensures
        final(out)@ == old(out)@ + le64_bytes(v),
{
    push_le32(out, (v % 0x1_0000_0000) as u32);
    push_le32(out, (v / 0x1_0000_0000) as u32);
    assert(out@ =~= old(out)@ + le64_bytes(v));
}

/// A written 32-bit integer reads back unchanged, wherever it stands.
pub proof fn le32_round_trip(s: Seq<u8>, i: int, v: u32)
    requires
        0 <= i,
        i + 4 <= s.len(),
        s.subrange(i, i + 4) == le32_bytes(v),
    ensures
        le32(s, i) == v,
{
    let w = s.subrange(i, i + 4);
    assert(w[0] == s[i] && w[1] == s[i + 1] && w[2] == s[i + 2] && w[3] == s[i + 3]);
}

/// A written 64-bit integer reads back unchanged, wherever it stands.
pub proof fn le64_round_trip(s: Seq<u8>, i: int, v: u64)
    requires
        0 <= i,
        i + 8 <= s.len(),
        s.subrange(i, i + 8) == le64_bytes(v),
    ensures
        le64(s, i) == v,
{
    let w = s.subrange(i, i + 8);
    assert(s.subrange(i, i + 4) =~= w.subrange(0, 4));
    assert(w.subrange(0, 4) =~= le32_bytes((v % 0x1_0000_0000) as u32));
    assert(s.subrange(i + 4, i + 8) =~= w.subrange(4, 8));
    assert(w.subrange(4, 8) =~= le32_bytes((v / 0x1_0000_0000) as u32));
    le32_round_trip(s, i, (v % 0x1_0000_0000) as u32);
    le32_round_trip(s, i + 4, (v / 0x1_0000_0000) as u32);
}

/// An integer that was read is written back as the same bytes.
pub proof fn le64_bytes_back(s: Seq<u8>, i: int)
    requires
        0 <= i,
        i + 8 <= s.len(),
    ensures
        0 <= le64(s, i) <= u64::MAX,
        le64_bytes(le64(s, i) as u64) == s.subrange(i, i + 8),
{
    let lo = le32(s, i);
    let hi = le32(s, i + 4);
    let v = le64(s, i) as u64;
    assert(0 <= lo < 0x1_0000_0000 && 0 <= hi < 0x1_0000_0000);
    assert(v % 0x1_0000_0000 == lo && v / 0x1_0000_0000 == hi);
    lemma_le32_bytes_back(s, i);
    lemma_le32_bytes_back(s, i + 4);
    assert(le64_bytes(v) =~= s.subrange(i, i + 8));
}

proof fn lemma_le32_bytes_back(s: Seq<u8>, i: int)
    requires
        0 <= i,
        i + 4 <= s.len(),
    ensures
        le32_bytes(le32(s, i) as u32) == seq![s[i], s[i + 1], s[i + 2], s[i + 3]],
{
    let a = le16(s, i);
    let b = le16(s, i + 2);
    let v = le32(s, i) as u32;
    assert(v % 0x1_0000 == a && v / 0x1_0000 == b);
    assert(le32_bytes(v) =~= seq![s[i], s[i + 1], s[i + 2], s[i + 3]]);
}

/// The lowest byte stands first.
pub proof fn integers_are_little_endian(s: Seq<u8>, i: int)
    ensures
        le16(s, i) == s[i] + 256 * s[i + 1],
        le32(s, i) == s[i] + 256 * s[i + 1] + 65_536 * s[i + 2] + 16_777_216 * s[i + 3],
        le64(s, i) == le32(s, i) + 4_294_967_296 * le32(s, i + 4),
{
}

/// A written 16-bit integer reads back unchanged, wherever it stands.
pub proof fn le16_round_trip(s: Seq<u8>, i: int, v: u16)
    requires
        0 <= i,
        i + 2 <= s.len(),
        s.subrange(i, i + 2) == le16_bytes(v),
    ensures
        le16(s, i) == v,
{
    let w = s.subrange(i, i + 2);
    assert(w[0] == s[i] && w[1] == s[i + 1]);
}

} // verus!
