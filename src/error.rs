//! What can go wrong when reading or writing an archive.
use vstd::prelude::*;

verus! {

/// An archive whose first bytes are not recognised.
#[derive(Debug, Clone, Copy, PartialEq, Eq, Structural)]
pub enum Unknown {
    /// The first four bytes are no known magic number.
    MagicNumber(u32),
    /// The magic number is known, the version number after it is not.
    Version(u32),
}

#[derive(Debug, Clone, Copy, PartialEq, Eq, Structural)]
pub enum BsaError {
    Unknown(Unknown),
    /// A known format that this library does not handle.
    UnsupportedVersion,
    /// Short input, a malformed string, an inconsistent offset or count,
    /// or a payload that does not decompress.
    BadData,
    /// A name too long for its on-disk string, or a directory without files.
    BadInput,
    /// The compression codec failed while writing.
    Io,
}

} // verus!
