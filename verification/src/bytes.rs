//! Fixed-width numbers and markers in byte buffers.
use vstd::prelude::*;

verus! {

/// The number in the two bytes at `o`, least significant first.
pub open spec fn le16(s: Seq<u8>, o: int) -> int {
    s[o] + 0x100 * s[o + 1]
}

/// The number in the four bytes at `o`, least significant first.
pub open spec fn le32(s: Seq<u8>, o: int) -> int {
    s[o] + 0x100 * s[o + 1] + 0x1_0000 * s[o + 2] + 0x100_0000 * s[o + 3]
}

/// The number in the eight bytes at `o`, least significant first.
pub open spec fn le64(s: Seq<u8>, o: int) -> int {
    le32(s, o) + 0x1_0000_0000 * le32(s, o + 4)
}

/// The number in the two bytes at `o`, most significant first.
pub open spec fn be16(s: Seq<u8>, o: int) -> int {
    0x100 * s[o] + s[o + 1]
}

/// The number in the four bytes at `o`, most significant first.
pub open spec fn be32(s: Seq<u8>, o: int) -> int {
    0x100_0000 * s[o] + 0x1_0000 * s[o + 1] + 0x100 * s[o + 2] + s[o + 3]
}

/// The number in the eight bytes at `o`, most significant first.
pub open spec fn be64(s: Seq<u8>, o: int) -> int {
    0x1_0000_0000 * be32(s, o) + be32(s, o + 4)
}

/// Reads two bytes at `offset`, least significant first.
pub fn read_u16_le(data: &[u8], offset: usize) -> (r: u16)
    requires
        offset + 2 <= data@.len(),
    ensures
        r == le16(data@, offset as int),
{
    data[offset] as u16 + 0x100 * data[offset + 1] as u16
}

/// Reads four bytes at `offset`, least significant first.
pub fn read_u32_le(data: &[u8], offset: usize) -> (r: u32)
    requires
        offset + 4 <= data@.len(),
    ensures
        r == le32(data@, offset as int),
{
    data[offset] as u32 + 0x100 * data[offset + 1] as u32 + 0x1_0000 * data[offset + 2] as u32
        + 0x100_0000 * data[offset + 3] as u32
}

/// Reads eight bytes at `offset`, least significant first.
pub fn read_u64_le(data: &[u8], offset: usize) -> (r: u64)
    requires
        offset + 8 <= data@.len(),
    ensures
        r == le64(data@, offset as int),
{
    assert(data@.len() == data.len());
    read_u32_le(data, offset) as u64 + 0x1_0000_0000 * read_u32_le(data, offset + 4) as u64
}

/// Reads two bytes at `offset`, most significant first.
pub fn read_u16_be(data: &[u8], offset: usize) -> (r: u16)
    requires
        offset + 2 <= data@.len(),
    ensures
        r == be16(data@, offset as int),
{
    0x100 * data[offset] as u16 + data[offset + 1] as u16
}

/// Reads four bytes at `offset`, most significant first.
pub fn read_u32_be(data: &[u8], offset: usize) -> (r: u32)
    requires
        offset + 4 <= data@.len(),
    ensures
        r == be32(data@, offset as int),
{
    0x100_0000 * data[offset] as u32 + 0x1_0000 * data[offset + 1] as u32 + 0x100 * data[offset
        + 2] as u32 + data[offset + 3] as u32
}

/// Reads eight bytes at `offset`, most significant first.
pub fn read_u64_be(data: &[u8], offset: usize) -> (r: u64)
    requires
        offset + 8 <= data@.len(),
    ensures
        r == be64(data@, offset as int),
{
    assert(data@.len() == data.len());
    0x1_0000_0000 * read_u32_be(data, offset) as u64 + read_u32_be(data, offset + 4) as u64
}

/// The bytes `p` stand in `s` at `at`.
pub open spec fn bytes_at(s: Seq<u8>, at: int, p: Seq<u8>) -> bool {
    at + p.len() <= s.len() && s.subrange(at, at + p.len()) == p
}

/// Whether the bytes `p` stand in `s` at `at`.
pub fn has_bytes(s: &[u8], at: usize, p: &[u8]) -> (r: bool)
    ensures
        r == bytes_at(s@, at as int, p@),
{
    let n: usize = s.len();
    if at > n || p.len() > n - at {
        return false;
    }
    let mut i: usize = 0;
    while i < p.len()
        invariant
            at + p@.len() <= n,
            n == s@.len(),
            i <= p@.len(),
            forall|k: int| 0 <= k < i ==> s@[at + k] == p@[k],
        decreases p@.len() - i,
    {
        if s[at + i] != p[i] {
            assert(s@.subrange(at as int, at + p@.len())[i as int] == s@[at + i]);
            return false;
        }
        i += 1;
    }
    assert(s@.subrange(at as int, at + p@.len()) =~= p@);
    true
}

/// A copy of `s[a..b]`.
pub fn copy_range(s: &[u8], a: usize, b: usize) -> (v: Vec<u8>)
    requires
        a <= b <= s@.len(),
    ensures
        v@ == s@.subrange(a as int, b as int),
{
    let mut v: Vec<u8> = Vec::with_capacity(b - a);
    let mut i: usize = a;
    while i < b
        invariant
            a <= i <= b <= s@.len(),
            v@ == s@.subrange(a as int, i as int),
        decreases b - i,
    {
        v.push(s[i]);
        i += 1;
        assert(s@.subrange(a as int, i as int) == s@.subrange(a as int, i - 1).push(s@[i - 1]));
    }
    v
}

/// The two bytes of a little-endian number.
pub open spec fn le16_bytes(v: u16) -> Seq<u8> {
    seq![(v % 256) as u8, (v / 256) as u8]
}

/// The four bytes of a little-endian number.
pub open spec fn le32_bytes(v: u32) -> Seq<u8> {
    seq![
        (v % 256) as u8,
        (v / 256 % 256) as u8,
        (v / 65536 % 256) as u8,
        (v / 16777216) as u8,
    ]
}

/// Appends a little-endian number of 16 bits.
pub fn push_u16_le(out: &mut Vec<u8>, v: u16)
    ensures
        final(out)@ == old(out)@ + le16_bytes(v),
{
    out.push((v % 256) as u8);
    out.push((v / 256) as u8);
    assert(out@ =~= old(out)@ + le16_bytes(v));
}

/// Appends a little-endian number of 32 bits.
pub fn push_u32_le(out: &mut Vec<u8>, v: u32)
    ensures
        final(out)@ == old(out)@ + le32_bytes(v),
{
    out.push((v % 256) as u8);
    out.push((v / 256 % 256) as u8);
    out.push((v / 65536 % 256) as u8);
    out.push((v / 16777216) as u8);
    assert(out@ =~= old(out)@ + le32_bytes(v));
}

/// Appends four bytes.
pub fn push_tag(out: &mut Vec<u8>, tag: [u8; 4])
    ensures
        final(out)@ == old(out)@ + tag@,
{
    out.push(tag[0]);
    out.push(tag[1]);
    out.push(tag[2]);
    out.push(tag[3]);
    assert(out@ =~= old(out)@ + tag@);
}

/// A number that is written as four bytes reads back as it was.
pub proof fn lemma_le32_reads_back(v: u32, before: Seq<u8>, after: Seq<u8>)
    ensures
        le32(before + le32_bytes(v) + after, before.len() as int) == v,
{
    let s = before + le32_bytes(v) + after;
    let n = before.len() as int;
    assert(s[n] == le32_bytes(v)[0] && s[n + 1] == le32_bytes(v)[1] && s[n + 2] == le32_bytes(v)[2]
        && s[n + 3] == le32_bytes(v)[3]);
}

} // verus!
