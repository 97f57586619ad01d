//! The magic number and version number at the head of an archive.
use vstd::prelude::*;
use crate::bin::{u32_le, u32_at, push_u32, read_u32, lemma_u32_round_trip};
use crate::error::{BsaError, Unknown};

verus! {

/// "BSA\0", the magic number of the v10X family.
pub const MAGIC_V10X: u32 = 0x0041_5342;

/// The magic number of v001 (Morrowind) archives.
pub const MAGIC_V001: u32 = 0x0000_0100;

/// "BTDX", the magic number of v200 (BA2) archives.
pub const MAGIC_BTDX: u32 = 0x5844_5442;

#[derive(Debug, Clone, Copy, PartialEq, Eq, Structural)]
pub enum Version10X {
    V103,
    V104,
    V105,
}

#[derive(Debug, Clone, Copy, PartialEq, Eq, Structural)]
pub enum Version {
    V001,
    V10X(Version10X),
    V200(u32),
}

pub open spec fn version10x_number(v: Version10X) -> u32 {
    match v {
        Version10X::V103 => 103,
        Version10X::V104 => 104,
        Version10X::V105 => 105,
    }
}

/// The v10X variant with the given number, if there is one.
pub open spec fn version10x_of(n: u32) -> Option<Version10X> {
    if n == 103 {
        Some(Version10X::V103)
    } else if n == 104 {
        Some(Version10X::V104)
    } else if n == 105 {
        Some(Version10X::V105)
    } else {
        None
    }
}

/// The bytes that announce `v`: the magic number, then the version number where there is one.
pub open spec fn version_bytes(v: Version) -> Seq<u8> {
    match v {
        Version::V001 => u32_le(MAGIC_V001),
        Version::V10X(x) => u32_le(MAGIC_V10X) + u32_le(version10x_number(x)),
        Version::V200(n) => u32_le(MAGIC_BTDX) + u32_le(n),
    }
}

/// What reading the head of `b` gives: a version and the length of its bytes.
pub open spec fn version_parse(b: Seq<u8>) -> Result<(Version, int), BsaError> {
    if b.len() < 4 {
        Err(BsaError::BadData)
    } else {
        let m = u32_at(b, 0);
        if m == MAGIC_V001 {
            Ok((Version::V001, 4))
        } else if m != MAGIC_V10X && m != MAGIC_BTDX {
            Err(BsaError::Unknown(Unknown::MagicNumber(m)))
        } else if b.len() < 8 {
            Err(BsaError::BadData)
        } else {
            let n = u32_at(b, 4);
            if m == MAGIC_BTDX {
                Ok((Version::V200(n), 8))
            } else {
                match version10x_of(n) {
                    Some(x) => Ok((Version::V10X(x), 8)),
                    None => Err(BsaError::Unknown(Unknown::Version(n))),
                }
            }
        }
    }
}

/// Reading back what `write_here` wrote gives the same version.
pub proof fn lemma_version_round_trip(v: Version, rest: Seq<u8>)
    ensures
        version_parse(version_bytes(v) + rest) == Ok::<(Version, int), BsaError>(
            (v, version_bytes(v).len() as int),
        ),
{
    let b = version_bytes(v) + rest;
    match v {
        Version::V001 => {
            lemma_u32_round_trip(MAGIC_V001);
            assert(b.subrange(0, 4) =~= u32_le(MAGIC_V001));
            assert(u32_at(b, 0) == u32_at(u32_le(MAGIC_V001), 0));
        },
        Version::V10X(x) => {
            lemma_u32_round_trip(MAGIC_V10X);
            lemma_u32_round_trip(version10x_number(x));
            assert(u32_at(b, 0) == u32_at(u32_le(MAGIC_V10X), 0));
            assert(u32_at(b, 4) == u32_at(u32_le(version10x_number(x)), 0));
        },
        Version::V200(n) => {
            lemma_u32_round_trip(MAGIC_BTDX);
            lemma_u32_round_trip(n);
            assert(u32_at(b, 0) == u32_at(u32_le(MAGIC_BTDX), 0));
            assert(u32_at(b, 4) == u32_at(u32_le(n), 0));
        },
    }
}

impl Version10X {
    pub fn number(&self) -> (r: u32)
        ensures
            r == version10x_number(*self),
    {
        match self {
            Version10X::V103 => 103,
            Version10X::V104 => 104,
            Version10X::V105 => 105,
        }
    }
}

impl Version {
    /// The number of bytes that announce this version.
    pub fn size(&self) -> (r: usize)
        ensures
            r == version_bytes(*self).len(),
    {
        match self {
            Version::V001 => 4,
            _ => 8,
        }
    }

    /// Appends the magic number and the version number.
    pub fn write_here(&self, out: &mut Vec<u8>)
        ensures
            final(out)@ == old(out)@ + version_bytes(*self),
    {
        match self {
            Version::V001 => push_u32(out, MAGIC_V001),
            Version::V10X(x) => {
                push_u32(out, MAGIC_V10X);
                push_u32(out, x.number());
            },
            Version::V200(n) => {
                push_u32(out, MAGIC_BTDX);
                push_u32(out, *n);
            },
        }
        assert(final(out)@ =~= old(out)@ + version_bytes(*self));
    }

    /// Reads the version at the head of `b`, with the number of bytes it took.
    pub fn read_here(b: &[u8]) -> (r: Result<(Version, usize), BsaError>)
        ensures
            match r {
                Ok((v, n)) => version_parse(b@) == Ok::<(Version, int), BsaError>((v, n as int)),
                Err(e) => version_parse(b@) == Err::<(Version, int), BsaError>(e),
            },
    {
        let m = match read_u32(b, 0) {
            Some(m) => m,
            None => return Err(BsaError::BadData),
        };
        if m == MAGIC_V001 {
            return Ok((Version::V001, 4));
        }
        if m != MAGIC_V10X && m != MAGIC_BTDX {
            return Err(BsaError::Unknown(Unknown::MagicNumber(m)));
        }
        let n = match read_u32(b, 4) {
            Some(n) => n,
            None => return Err(BsaError::BadData),
        };
        if m == MAGIC_BTDX {
            return Ok((Version::V200(n), 8));
        }
        if n == 103 {
            Ok((Version::V10X(Version10X::V103), 8))
        } else if n == 104 {
            Ok((Version::V10X(Version10X::V104), 8))
        } else if n == 105 {
            Ok((Version::V10X(Version10X::V105), 8))
        } else {
            Err(BsaError::Unknown(Unknown::Version(n)))
        }
    }
}

} // verus!
