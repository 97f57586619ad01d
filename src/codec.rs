//! The compression codecs of the v10X variants: zlib for v103 and v104, an
//! LZ4 frame for v105.
use vstd::prelude::*;
use std::io::Read;
use std::io::Write;
use crate::version::Version10X;

verus! {

/// What lz4's frame decoder makes of the given bytes; `None` where it refuses them.
pub uninterp spec fn lz4_decoded(data: Seq<u8>) -> Option<Seq<u8>>;

/// The zlib stream that flate2's encoder at the default level makes of the given bytes.
pub uninterp spec fn zlib_of(data: Seq<u8>) -> Seq<u8>;

/// What flate2's zlib decoder makes of the given bytes; `None` where it refuses them.
pub uninterp spec fn zlib_decoded(data: Seq<u8>) -> Option<Seq<u8>>;

/// Relies on lz4::EncoderBuilder::build, Encoder::write and Encoder::finish:
/// a frame that lz4's decoder turns back into `data`. Its exact bytes depend
/// on the machine's word size and byte order, so only that is stated.
/// Writing into a `Vec` they fail only when memory runs out.
#[verifier::external_body]
fn lz4_compress(data: &[u8]) -> (r: Vec<u8>)
    ensures
        lz4_decoded(r@) == Some(data@),
{
    let mut enc = lz4::EncoderBuilder::new().build(Vec::new()).expect("lz4 encoder");
    enc.write_all(data).expect("lz4 encoding into memory");
    let (out, res) = enc.finish();
    res.expect("lz4 frame end");
    out
}

/// Relies on lz4::Decoder: the bytes that the frame in `data` holds; it
/// refuses exactly the inputs that have no such bytes.
#[verifier::external_body]
fn lz4_uncompress(data: &[u8]) -> (r: Option<Vec<u8>>)
    ensures
        r matches Some(v) ==> lz4_decoded(data@) == Some(v@),
        r is None ==> lz4_decoded(data@) is None,
{
    let mut dec = match lz4::Decoder::new(data) {
        Ok(d) => d,
        Err(_) => return None,
    };
    let mut out = Vec::new();
    dec.read_to_end(&mut out).ok().map(|_| out)
}

/// Relies on flate2::write::ZlibEncoder at the default level: the zlib stream
/// of `data`. Writing into a `Vec` it fails only when memory runs out.
#[verifier::external_body]
fn zlib_compress(data: &[u8]) -> (r: Vec<u8>)
    ensures
        r@ == zlib_of(data@),
        zlib_decoded(r@) == Some(data@),
{
    let mut enc = flate2::write::ZlibEncoder::new(Vec::new(), flate2::Compression::default());
    enc.write_all(data).expect("zlib encoding into memory");
    enc.finish().expect("zlib stream end")
}

/// Relies on flate2::read::ZlibDecoder: the bytes that the zlib stream in
/// `data` holds; it refuses exactly the inputs that have no such bytes.
#[verifier::external_body]
fn zlib_uncompress(data: &[u8]) -> (r: Option<Vec<u8>>)
    ensures
        r matches Some(v) ==> zlib_decoded(data@) == Some(v@),
        r is None ==> zlib_decoded(data@) is None,
{
    let mut dec = flate2::read::ZlibDecoder::new(data);
    let mut out = Vec::new();
    dec.read_to_end(&mut out).ok().map(|_| out)
}

/// What variant `v`'s decoder makes of `data`.
pub open spec fn uncompressed_of(v: Version10X, data: Seq<u8>) -> Option<Seq<u8>> {
    match v {
        Version10X::V105 => lz4_decoded(data),
        _ => zlib_decoded(data),
    }
}

/// Compresses `data` with the codec of `v`: what that codec's decoder turns
/// back into `data`.
pub fn compress(v: Version10X, data: &[u8]) -> (r: Vec<u8>)
    ensures
        uncompressed_of(v, r@) == Some(data@),
{
    match v {
        Version10X::V105 => lz4_compress(data),
        _ => zlib_compress(data),
    }
}

/// Decompresses `data` with the codec of `v`; `None` where the codec refused it.
pub fn uncompress(v: Version10X, data: &[u8]) -> (r: Option<Vec<u8>>)
    ensures
        r matches Some(u) ==> uncompressed_of(v, data@) == Some(u@),
        r is None ==> uncompressed_of(v, data@) is None,
{
    match v {
        Version10X::V105 => lz4_uncompress(data),
        _ => zlib_uncompress(data),
    }
}

} // verus!
