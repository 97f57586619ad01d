//! Reading and writing Bethesda Softworks Archives (BSA): the v10X family
//! (v103, v104, v105) and the flat v001 format.
//!
//! Every value on disk is handled as a plain byte sequence: encoders append
//! to a `Vec<u8>`, decoders read from a byte slice at a position. The
//! contracts describe the on-disk form through spec functions over `Seq<u8>`,
//! and the writers' results are stated byte for byte.

pub mod bin;
pub mod error;
pub mod strings;
pub mod hash;
pub mod version;
pub mod v10x;
pub mod codec;
pub mod write;
pub mod read;
pub mod v001;
