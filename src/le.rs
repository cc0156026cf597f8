use vstd::prelude::*;

verus! {

/// The value of two bytes read as a little-endian unsigned integer.
pub open spec fn u16_le(s: Seq<u8>, at: int) -> int {
    s[at] as int + 256 * (s[at + 1] as int)
}

/// The value of four bytes read as a little-endian unsigned integer.
pub open spec fn u32_le(s: Seq<u8>, at: int) -> int {
    s[at] as int + 256 * (s[at + 1] as int) + 65536 * (s[at + 2] as int) + 16777216 * (
    s[at + 3] as int)
}

/// The two bytes that encode `v` in little-endian order.
pub open spec fn u16_le_bytes(v: u16) -> Seq<u8> {
    seq![(v % 256) as u8, (v / 256) as u8]
}

/// The four bytes that encode `v` in little-endian order.
pub open spec fn u32_le_bytes(v: u32) -> Seq<u8> {
    seq![
        (v % 256) as u8,
        ((v / 256) % 256) as u8,
        ((v / 65536) % 256) as u8,
        (v / 16777216) as u8,
    ]
}

pub fn read_u16_le(data: &[u8], at: usize) -> (r: u16)
    requires
        at + 2 <= data@.len(),
    ensures
        r as int == u16_le(data@, at as int),
{
    data[at] as u16 + 256 * (data[at + 1] as u16)
}

pub fn read_u32_le(data: &[u8], at: usize) -> (r: u32)
    requires
        at + 4 <= data@.len(),
    ensures
        r as int == u32_le(data@, at as int),
{
    data[at] as u32 + 256 * (data[at + 1] as u32) + 65536 * (data[at + 2] as u32) + 16777216 * (
    data[at + 3] as u32)
}

pub fn push_u16_le(out: &mut Vec<u8>, v: u16)
    ensures
        final(out)@ == old(out)@ + u16_le_bytes(v),
{
    out.push((v % 256) as u8);
    out.push((v / 256) as u8);
    assert(final(out)@ =~= old(out)@ + u16_le_bytes(v));
}

pub fn push_u32_le(out: &mut Vec<u8>, v: u32)
    ensures
        final(out)@ == old(out)@ + u32_le_bytes(v),
{
    out.push((v % 256) as u8);
    out.push(((v / 256) % 256) as u8);
    out.push(((v / 65536) % 256) as u8);
    out.push((v / 16777216) as u8);
    assert(final(out)@ =~= old(out)@ + u32_le_bytes(v));
}

/// Reading back the two bytes written for `v` gives `v`.
pub proof fn lemma_u16_le_round_trip(v: u16)
    ensures
        u16_le(u16_le_bytes(v), 0) == v as int,
{
}

/// Reading back the four bytes written for `v` gives `v`.
pub proof fn lemma_u32_le_round_trip(v: u32)
    ensures
        u32_le(u32_le_bytes(v), 0) == v as int,
{
}

/// Two bytes are the encoding of the value read from them.
pub proof fn lemma_u16_le_bytes_of_read(s: Seq<u8>, at: int)
    requires
        0 <= at,
        at + 2 <= s.len(),
    ensures
        u16_le_bytes(u16_le(s, at) as u16) == s.subrange(at, at + 2),
{
    assert(u16_le_bytes(u16_le(s, at) as u16) =~= s.subrange(at, at + 2));
}

/// Four bytes are the encoding of the value read from them.
pub proof fn lemma_u32_le_bytes_of_read(s: Seq<u8>, at: int)
    requires
        0 <= at,
        at + 4 <= s.len(),
    ensures
        u32_le_bytes(u32_le(s, at) as u32) == s.subrange(at, at + 4),
{
    let b0 = s[at] as int;
    let b1 = s[at + 1] as int;
    let b2 = s[at + 2] as int;
    let b3 = s[at + 3] as int;
    let x = u32_le(s, at);
    assert(x % 256 == b0 && (x / 256) % 256 == b1 && (x / 65536) % 256 == b2 && x / 16777216
        == b3) by (nonlinear_arith)
        requires
            x == b0 + 256 * b1 + 65536 * b2 + 16777216 * b3,
            0 <= b0 < 256,
            0 <= b1 < 256,
            0 <= b2 < 256,
            0 <= b3 < 256,
    ;
    assert(u32_le_bytes(x as u32) =~= s.subrange(at, at + 4));
}

} // verus!
