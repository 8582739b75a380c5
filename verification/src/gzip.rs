use vstd::prelude::*;
use crate::types::Error;

verus! {

/// What gzip inflation yields for a byte sequence: the inflated bytes, or
/// nothing when the sequence is not a well-formed gzip stream.  The outcome
/// is a function of the input bytes alone.
pub uninterp spec fn gzip_inflate(s: Seq<u8>) -> Option<Seq<u8>>;

/// Relies on flate2's `GzDecoder` over a byte slice, drained with
/// `read_to_end`: it inflates the whole gzip stream into the buffer and
/// fails exactly on input it cannot inflate, deciding by the input bytes
/// alone.
#[verifier::external_body]
pub(crate) fn gunzip(data: &[u8]) -> (r: Result<Vec<u8>, Error>)
    ensures
        match r {
            Ok(out) => gzip_inflate(data@) == Some(out@),
            Err(e) => gzip_inflate(data@) == None::<Seq<u8>> && e == Error::DecompressionFailed,
        },
{
    let mut decoder = flate2::read::GzDecoder::new(data);
    let mut out = Vec::new();
    match std::io::Read::read_to_end(&mut decoder, &mut out) {
        Ok(_) => Ok(out),
        Err(_) => Err(Error::DecompressionFailed),
    }
}

} // verus!
