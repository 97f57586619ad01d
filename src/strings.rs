//! The three on-disk string forms.
use vstd::prelude::*;
use crate::error::BsaError;

verus! {

/// Length byte counting the trailing NUL, the bytes, then a NUL.
pub open spec fn bz_bytes(s: Seq<u8>) -> Seq<u8> {
    seq![(s.len() + 1) as u8] + s + seq![0u8]
}

/// Length byte, then the bytes.
pub open spec fn b_bytes(s: Seq<u8>) -> Seq<u8> {
    seq![s.len() as u8] + s
}

/// The bytes, then a NUL.
pub open spec fn z_bytes(s: Seq<u8>) -> Seq<u8> {
    s + seq![0u8]
}

pub open spec fn has_no_nul(s: Seq<u8>) -> bool {
    forall|i: int| 0 <= i < s.len() ==> s[i] != 0
}

/// The position of the first NUL at or after `pos`, if there is one.
pub open spec fn is_first_nul(b: Seq<u8>, pos: int, k: int) -> bool {
    pos <= k < b.len() && b[k] == 0 && has_no_nul(b.subrange(pos, k))
}

/// What reading a BZString at `pos` gives: the payload and the position after it.
pub open spec fn bz_parse(b: Seq<u8>, pos: int) -> Option<(Seq<u8>, int)> {
    if 0 <= pos < b.len() && b[pos] >= 1 && pos + 1 + b[pos] <= b.len()
        && b[pos + b[pos]] == 0 {
        Some((b.subrange(pos + 1, pos + b[pos]), pos + 1 + b[pos]))
    } else {
        None
    }
}

/// What reading a BString at `pos` gives: the payload and the position after it.
pub open spec fn b_parse(b: Seq<u8>, pos: int) -> Option<(Seq<u8>, int)> {
    if 0 <= pos < b.len() && pos + 1 + b[pos] <= b.len() {
        Some((b.subrange(pos + 1, pos + 1 + b[pos]), pos + 1 + b[pos]))
    } else {
        None
    }
}

/// A BZString written anywhere in a byte run reads back as its payload,
/// ending two bytes past the payload.
pub proof fn lemma_bz_round_trip(a: Seq<u8>, s: Seq<u8>, rest: Seq<u8>)
    requires
        s.len() <= 254,
    ensures
        bz_parse(a + bz_bytes(s) + rest, a.len() as int) == Some((s, (a.len() + s.len() + 2) as int)),
{
    let b = a + bz_bytes(s) + rest;
    let p = a.len() as int;
    assert(b[p] == (s.len() + 1) as u8);
    assert(b[p + b[p]] == 0);
    assert(b.subrange(p + 1, p + b[p]) =~= s);
}

/// A BString written anywhere in a byte run reads back as its payload,
/// ending one byte past the payload.
pub proof fn lemma_b_round_trip(a: Seq<u8>, s: Seq<u8>, rest: Seq<u8>)
    requires
        s.len() <= 255,
    ensures
        b_parse(a + b_bytes(s) + rest, a.len() as int) == Some((s, (a.len() + s.len() + 1) as int)),
{
    let b = a + b_bytes(s) + rest;
    let p = a.len() as int;
    assert(b[p] == s.len() as u8);
    assert(b.subrange(p + 1, p + 1 + b[p]) =~= s);
}

/// A NUL-free ZString written anywhere in a byte run reads back as its
/// bytes: its NUL is the first one after its start.
pub proof fn lemma_z_round_trip(a: Seq<u8>, s: Seq<u8>, rest: Seq<u8>)
    requires
        has_no_nul(s),
    ensures
        is_first_nul(a + z_bytes(s) + rest, a.len() as int, (a.len() + s.len()) as int),
        (a + z_bytes(s) + rest).subrange(a.len() as int, (a.len() + s.len()) as int) == s,
{
    let b = a + z_bytes(s) + rest;
    let p = a.len() as int;
    assert(b.subrange(p, p + s.len()) =~= s);
}

/// Writes `s` as a BZString; refuses a payload of more than 254 bytes.
pub fn push_bzstring(out: &mut Vec<u8>, s: &[u8]) -> (r: Result<(), BsaError>)
    ensures
        r is Ok <==> s@.len() <= 254,
        r is Ok ==> final(out)@ == old(out)@ + bz_bytes(s@),
        r is Err ==> r == Err::<(), BsaError>(BsaError::BadInput) && final(out)@ == old(out)@,
{
    if s.len() > 254 {
        return Err(BsaError::BadInput);
    }
    out.push((s.len() + 1) as u8);
    crate::bin::push_bytes(out, s);
    out.push(0u8);
    assert(final(out)@ =~= old(out)@ + bz_bytes(s@));
    Ok(())
}

/// Writes `s` as a BString; refuses a payload of more than 255 bytes.
pub fn push_bstring(out: &mut Vec<u8>, s: &[u8]) -> (r: Result<(), BsaError>)
    ensures
        r is Ok <==> s@.len() <= 255,
        r is Ok ==> final(out)@ == old(out)@ + b_bytes(s@),
        r is Err ==> r == Err::<(), BsaError>(BsaError::BadInput) && final(out)@ == old(out)@,
{
    if s.len() > 255 {
        return Err(BsaError::BadInput);
    }
    out.push(s.len() as u8);
    crate::bin::push_bytes(out, s);
    assert(final(out)@ =~= old(out)@ + b_bytes(s@));
    Ok(())
}

/// Writes `s` followed by a NUL.
pub fn push_zstring(out: &mut Vec<u8>, s: &[u8])
    ensures
        final(out)@ == old(out)@ + z_bytes(s@),
{
    crate::bin::push_bytes(out, s);
    out.push(0u8);
    assert(final(out)@ =~= old(out)@ + z_bytes(s@));
}

/// Copies `b[from..to]`.
pub fn copy_range(b: &[u8], from: usize, to: usize) -> (r: Vec<u8>)
    requires
        from <= to <= b@.len(),
    ensures
        r@ == b@.subrange(from as int, to as int),
{
    let mut r: Vec<u8> = Vec::new();
    let mut i: usize = from;
    while i < to
        invariant
            from <= i <= to <= b@.len(),
            r@ == b@.subrange(from as int, i as int),
        decreases to - i,
    {
        r.push(b[i]);
        i = i + 1;
        assert(r@ =~= b@.subrange(from as int, i as int));
    }
    r
}

/// Reads a BZString at `pos`: its payload without the NUL, and the position after it.
pub fn read_bzstring(b: &[u8], pos: usize) -> (r: Result<(Vec<u8>, usize), BsaError>)
    ensures
        match r {
            Ok((s, next)) => bz_parse(b@, pos as int) == Some((s@, next as int)),
            Err(e) => bz_parse(b@, pos as int) is None && e == BsaError::BadData,
        },
{
    if pos >= b.len() {
        return Err(BsaError::BadData);
    }
    let n = b[pos] as usize;
    if n < 1 || b.len() - pos - 1 < n || b[pos + n] != 0 {
        return Err(BsaError::BadData);
    }
    let s = copy_range(b, pos + 1, pos + n);
    Ok((s, pos + 1 + n))
}

/// Reads a BString at `pos`: its payload, and the position after it.
pub fn read_bstring(b: &[u8], pos: usize) -> (r: Result<(Vec<u8>, usize), BsaError>)
    ensures
        match r {
            Ok((s, next)) => b_parse(b@, pos as int) == Some((s@, next as int)),
            Err(e) => b_parse(b@, pos as int) is None && e == BsaError::BadData,
        },
{
    if pos >= b.len() {
        return Err(BsaError::BadData);
    }
    let n = b[pos] as usize;
    if b.len() - pos - 1 < n {
        return Err(BsaError::BadData);
    }
    let s = copy_range(b, pos + 1, pos + 1 + n);
    Ok((s, pos + 1 + n))
}

/// Reads a ZString at `pos`: the bytes before the first NUL, and the position after that NUL.
pub fn read_zstring(b: &[u8], pos: usize) -> (r: Result<(Vec<u8>, usize), BsaError>)
    ensures
        match r {
            Ok((s, next)) => is_first_nul(b@, pos as int, next - 1) && s@ == b@.subrange(
                pos as int,
                next - 1,
            ),
            Err(e) => e == BsaError::BadData && forall|k: int| !is_first_nul(b@, pos as int, k),
        },
{
    let mut k: usize = pos;
    while k < b.len()
        invariant
            pos <= k,
            k >= b@.len() ==> k == pos || k == b@.len(),
            k <= b@.len() || k == pos,
            forall|j: int| pos <= j < k ==> b@[j] != 0,
        decreases b@.len() - k,
    {
        if b[k] == 0 {
            let s = copy_range(b, pos, k);
            assert(has_no_nul(b@.subrange(pos as int, k as int)));
            return Ok((s, k + 1));
        }
        k = k + 1;
    }
    assert forall|j: int| !is_first_nul(b@, pos as int, j) by {
        if is_first_nul(b@, pos as int, j) {
            assert(b@[j] == 0);
        }
    }
    Err(BsaError::BadData)
}

} // verus!
