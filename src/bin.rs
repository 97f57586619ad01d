//! Little-endian scalars.
use vstd::prelude::*;

verus! {

/// The two bytes of `v`, low byte first.
pub open spec fn u16_le(v: u16) -> Seq<u8> {
    seq![(v & 0xff) as u8, (v >> 8) as u8]
}

/// The four bytes of `v`, low byte first.
pub open spec fn u32_le(v: u32) -> Seq<u8> {
    seq![(v & 0xff) as u8, ((v >> 8) & 0xff) as u8, ((v >> 16) & 0xff) as u8, (v >> 24) as u8]
}

/// The eight bytes of `v`, low byte first.
pub open spec fn u64_le(v: u64) -> Seq<u8> {
    u32_le(v as u32) + u32_le((v >> 32) as u32)
}

/// The `u16` whose little-endian bytes start at `i`.
pub open spec fn u16_at(b: Seq<u8>, i: int) -> u16 {
    (b[i] as u16) | ((b[i + 1] as u16) << 8)
}

/// The `u32` whose little-endian bytes start at `i`.
pub open spec fn u32_at(b: Seq<u8>, i: int) -> u32 {
    (b[i] as u32) | ((b[i + 1] as u32) << 8) | ((b[i + 2] as u32) << 16) | ((b[i + 3] as u32) << 24)
}

/// The `u64` whose little-endian bytes start at `i`.
pub open spec fn u64_at(b: Seq<u8>, i: int) -> u64 {
    (u32_at(b, i) as u64) | ((u32_at(b, i + 4) as u64) << 32)
}

/// A `u16` written little-endian reads back as itself.
pub proof fn lemma_u16_round_trip(v: u16)
    ensures
        u16_le(v).len() == 2,
        u16_at(u16_le(v), 0) == v,
{
    let b0 = (v & 0xff) as u8;
    let b1 = (v >> 8) as u8;
    assert(((b0 as u16) | ((b1 as u16) << 8)) == v) by (bit_vector)
        requires
            b0 == (v & 0xff) as u8,
            b1 == (v >> 8) as u8,
    ;
}

/// A `u32` written little-endian reads back as itself.
pub proof fn lemma_u32_round_trip(v: u32)
    ensures
        u32_le(v).len() == 4,
        u32_at(u32_le(v), 0) == v,
{
    let b0 = (v & 0xff) as u8;
    let b1 = ((v >> 8) & 0xff) as u8;
    let b2 = ((v >> 16) & 0xff) as u8;
    let b3 = (v >> 24) as u8;
    assert(((b0 as u32) | ((b1 as u32) << 8) | ((b2 as u32) << 16) | ((b3 as u32) << 24)) == v)
        by (bit_vector)
        requires
            b0 == (v & 0xff) as u8,
            b1 == ((v >> 8) & 0xff) as u8,
            b2 == ((v >> 16) & 0xff) as u8,
            b3 == (v >> 24) as u8,
    ;
}

/// A `u64` written little-endian reads back as itself.
pub proof fn lemma_u64_round_trip(v: u64)
    ensures
        u64_le(v).len() == 8,
        u64_at(u64_le(v), 0) == v,
{
    let lo = v as u32;
    let hi = (v >> 32) as u32;
    lemma_u32_round_trip(lo);
    lemma_u32_round_trip(hi);
    let s = u64_le(v);
    assert(s.subrange(0, 4) =~= u32_le(lo));
    assert(s.subrange(4, 8) =~= u32_le(hi));
    assert(u32_at(s, 0) == u32_at(u32_le(lo), 0));
    assert(u32_at(s, 4) == u32_at(u32_le(hi), 0));
    assert(((lo as u64) | ((hi as u64) << 32)) == v) by (bit_vector)
        requires
            lo == v as u32,
            hi == (v >> 32) as u32,
    ;
}

pub fn push_u16(out: &mut Vec<u8>, v: u16)
    ensures
        final(out)@ == old(out)@ + u16_le(v),
{
    out.push((v & 0xff) as u8);
    out.push((v >> 8) as u8);
    assert(final(out)@ =~= old(out)@ + u16_le(v));
}

pub fn push_u32(out: &mut Vec<u8>, v: u32)
    ensures
        final(out)@ == old(out)@ + u32_le(v),
{
    out.push((v & 0xff) as u8);
    out.push(((v >> 8) & 0xff) as u8);
    out.push(((v >> 16) & 0xff) as u8);
    out.push((v >> 24) as u8);
    assert(final(out)@ =~= old(out)@ + u32_le(v));
}

pub fn push_u64(out: &mut Vec<u8>, v: u64)
    ensures
        final(out)@ == old(out)@ + u64_le(v),
{
    push_u32(out, v as u32);
    push_u32(out, (v >> 32) as u32);
    assert(final(out)@ =~= old(out)@ + u64_le(v));
}

/// Appends `b` to `out`.
pub fn push_bytes(out: &mut Vec<u8>, b: &[u8])
    ensures
        final(out)@ == old(out)@ + b@,
{
    let mut i: usize = 0;
    while i < b.len()
        invariant
            i <= b@.len(),
            out@ == old(out)@ + b@.subrange(0, i as int),
        decreases b@.len() - i,
    {
        out.push(b[i]);
        i = i + 1;
        assert(out@ =~= old(out)@ + b@.subrange(0, i as int));
    }
    assert(b@.subrange(0, b@.len() as int) =~= b@);
}

pub fn read_u16(b: &[u8], pos: usize) -> (r: Option<u16>)
    ensures
        r == (if pos + 2 <= b@.len() { Some(u16_at(b@, pos as int)) } else { None::<u16> }),
{
    if pos > b.len() || b.len() - pos < 2 {
        return None;
    }
    Some((b[pos] as u16) | ((b[pos + 1] as u16) << 8))
}

pub fn read_u32(b: &[u8], pos: usize) -> (r: Option<u32>)
    ensures
        r == (if pos + 4 <= b@.len() { Some(u32_at(b@, pos as int)) } else { None::<u32> }),
{
    if pos > b.len() || b.len() - pos < 4 {
        return None;
    }
    Some((b[pos] as u32) | ((b[pos + 1] as u32) << 8) | ((b[pos + 2] as u32) << 16) | ((b[pos + 3] as u32) << 24))
}

pub fn read_u64(b: &[u8], pos: usize) -> (r: Option<u64>)
    ensures
        r == (if pos + 8 <= b@.len() { Some(u64_at(b@, pos as int)) } else { None::<u64> }),
{
    if pos > b.len() || b.len() - pos < 8 {
        return None;
    }
    let lo = read_u32(b, pos).unwrap();
    let hi = read_u32(b, pos + 4).unwrap();
    Some((lo as u64) | ((hi as u64) << 32))
}

} // verus!
