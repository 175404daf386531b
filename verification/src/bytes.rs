use vstd::prelude::*;

verus! {

/// The big-endian 16-bit number stored at `offset` in `s`.
pub open spec fn be16_at(s: Seq<u8>, offset: int) -> int {
    s[offset] * 0x100 + s[offset + 1]
}

/// The big-endian 32-bit number stored at `offset` in `s`.
pub open spec fn be32_at(s: Seq<u8>, offset: int) -> int {
    s[offset] * 0x100_0000 + s[offset + 1] * 0x1_0000 + s[offset + 2] * 0x100 + s[offset + 3]
}

/// Whether `len` bytes starting at `offset` lie inside `s`.
pub open spec fn in_bounds(s: Seq<u8>, offset: int, len: int) -> bool {
    0 <= offset && offset + len <= s.len()
}

/// What reading a big-endian `u16` at `offset` of `s` gives.
pub open spec fn spec_read_u16(s: Seq<u8>, offset: int) -> Option<u16> {
    if in_bounds(s, offset, 2) {
        Some(be16_at(s, offset) as u16)
    } else {
        None
    }
}

/// What reading a big-endian `u32` at `offset` of `s` gives.
pub open spec fn spec_read_u32(s: Seq<u8>, offset: int) -> Option<u32> {
    if in_bounds(s, offset, 4) {
        Some(be32_at(s, offset) as u32)
    } else {
        None
    }
}

/// The four bytes of `v` in big-endian order.
pub open spec fn be32_bytes(v: u32) -> Seq<u8> {
    seq![
        (v / 0x100_0000) as u8,
        ((v / 0x1_0000) % 0x100) as u8,
        ((v / 0x100) % 0x100) as u8,
        (v % 0x100) as u8,
    ]
}

/// Decoding the big-endian bytes of a number gives the number back.
pub proof fn lemma_be32_roundtrip(v: u32)
    ensures
        be32_at(be32_bytes(v), 0) == v,
{
    let s = be32_bytes(v);
    assert(s[0] == v / 0x100_0000);
    assert(s[1] == (v / 0x1_0000) % 0x100);
    assert(s[2] == (v / 0x100) % 0x100);
    assert(s[3] == v % 0x100);
    assert(be32_at(s, 0) == v) by (nonlinear_arith)
        requires
            s[0] == v / 0x100_0000,
            s[1] == (v / 0x1_0000) % 0x100,
            s[2] == (v / 0x100) % 0x100,
            s[3] == v % 0x100,
            0 <= v < 0x1_0000_0000,
    {
    }
}

/// Reads the big-endian `u16` at `offset`, or `None` where the two bytes do not lie in `data`.
pub fn read_u16(data: &[u8], offset: usize) -> (r: Option<u16>)
    ensures
        r == spec_read_u16(data@, offset as int),
{
    if offset > data.len() || data.len() - offset < 2 {
        return None;
    }
    let hi = data[offset] as u16;
    let lo = data[offset + 1] as u16;
    Some(hi * 0x100 + lo)
}

/// Reads the big-endian `u32` at `offset`, or `None` where the four bytes do not lie in `data`.
pub fn read_u32(data: &[u8], offset: usize) -> (r: Option<u32>)
    ensures
        r == spec_read_u32(data@, offset as int),
{
    if offset > data.len() || data.len() - offset < 4 {
        return None;
    }
    let b0 = data[offset] as u32;
    let b1 = data[offset + 1] as u32;
    let b2 = data[offset + 2] as u32;
    let b3 = data[offset + 3] as u32;
    Some(b0 * 0x100_0000 + b1 * 0x1_0000 + b2 * 0x100 + b3)
}

} // verus!
