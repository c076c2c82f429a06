//! The gzip filter: chunks compressed as zlib streams.
use std::io::Read;
use vstd::prelude::*;

verus! {

/// The first `len` bytes that the zlib stream `src` decompresses to, where it is a stream that
/// has so many.
pub uninterp spec fn inflated(src: Seq<u8>, len: nat) -> Option<Seq<u8>>;

/// Decompresses the first `len` bytes of the zlib stream `src`, by `read_exact` of a
/// `flate2::read::ZlibDecoder`.
///
/// Not proved: that what comes out, and whether anything does, depends on the stream and on
/// `len` alone, and that as many bytes come out as were asked for. Which bytes a stream
/// decompresses to is not said.
#[verifier::external_body]
pub(crate) fn decompress(src: &[u8], len: usize) -> (r: Option<Vec<u8>>)
    requires
        len <= isize::MAX,
    ensures
        r matches Some(v) ==> inflated(src@, len as nat) == Some(v@) && v@.len() == len,
        r is None ==> inflated(src@, len as nat) is None,
{
    let mut out = vec![0u8; len];
    match flate2::read::ZlibDecoder::new(src).read_exact(&mut out) {
        Ok(()) => Some(out),
        Err(_) => None,
    }
}

} // verus!
