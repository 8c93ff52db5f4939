//! The zlib codec (RFC 1950), used as a black box through flate2.

use vstd::prelude::*;

verus! {

/// The zlib stream that flate2 produces for `data` at the fastest level.
pub uninterp spec fn zlib_deflate(data: Seq<u8>) -> Seq<u8>;

/// What flate2 inflates from `data`, or `None` where the stream is malformed
/// or truncated.
pub uninterp spec fn zlib_inflate(data: Seq<u8>) -> Option<Seq<u8>>;

/// Relies on flate2's `ZlibEncoder` at `Compression::new(1)`, writing into a
/// `Vec`: the compressed stream of `data`. Writing into a `Vec` cannot fail,
/// and the miniz_oxide backend fails only on bad parameters or a failed
/// output callback, neither of which this call can meet; every zlib stream
/// starts with its two-byte header, so it is never empty.
#[verifier::external_body]
pub(crate) fn deflate_fast(data: &[u8]) -> (r: Option<Vec<u8>>)
    ensures
        r is Some,
        r matches Some(v) ==> v@ == zlib_deflate(data@) && v@.len() > 0,
{
    let mut encoder = flate2::write::ZlibEncoder::new(Vec::new(), flate2::Compression::new(1));
    std::io::Write::write_all(&mut encoder, data).ok()?;
    encoder.finish().ok()
}

/// Relies on flate2's `ZlibDecoder` read to the end: the inflated bytes, or
/// an error on a malformed or truncated stream; a stream that `ZlibEncoder`
/// made from some bytes inflates to exactly those bytes (zlib is lossless).
#[verifier::external_body]
pub(crate) fn inflate(data: &[u8]) -> (r: Option<Vec<u8>>)
    ensures
        r matches Some(v) ==> zlib_inflate(data@) == Some(v@),
        zlib_inflate(data@) is Some <==> r is Some,
        forall|x: Seq<u8>| #[trigger] zlib_deflate(x) == data@ ==> r is Some && r->0@ == x,
{
    let mut decoder = flate2::read::ZlibDecoder::new(data);
    let mut buf = Vec::new();
    std::io::Read::read_to_end(&mut decoder, &mut buf).ok()?;
    Some(buf)
}

} // verus!
