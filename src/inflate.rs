use vstd::prelude::*;

use std::io::Read;

verus! {

/// The bytes that inflating the zlib stream at the start of `data` yields,
/// or `None` where decoding fails.
pub uninterp spec fn zlib_inflate(data: Seq<u8>) -> Option<Seq<u8>>;

/// Relies on flate2::read::ZlibDecoder with `read_to_end`: the stream is
/// decoded from an in-memory slice, so the outcome depends on the bytes alone.
/// The error's message is handed back as text.
#[verifier::external_body]
pub(crate) fn inflate_zlib(data: &[u8]) -> (r: Result<Vec<u8>, String>)
    ensures
        match r {
            Ok(out) => zlib_inflate(data@) == Some(out@),
            Err(_) => zlib_inflate(data@) is None,
        },
{
    let mut out = Vec::new();
    match flate2::read::ZlibDecoder::new(data).read_to_end(&mut out) {
        Ok(_) => Ok(out),
        Err(e) => Err(e.to_string()),
    }
}

} // verus!
