//! The one place where the library touches zlib: inflating an object file's
//! bytes into the decompressed text that the codecs parse.

use vstd::prelude::*;

verus! {

/// The text that a zlib byte stream inflates to, when it is a valid stream
/// whose decompressed bytes are valid UTF-8 text; `None` otherwise.
pub uninterp spec fn zlib_inflate(data: Seq<u8>) -> Option<Seq<char>>;

/// Relies on `flate2::bufread::ZlibDecoder` driven by std's
/// `Read::read_to_string`: inflating a zlib stream is a function of the input
/// bytes alone, and it fails exactly when the stream is not valid zlib data or
/// its decompressed bytes are not valid UTF-8.
#[verifier::external_body]
pub(crate) fn inflate_to_text(data: &[u8]) -> (r: Option<String>)
    ensures
        r is Some <==> zlib_inflate(data@) is Some,
        r matches Some(s) ==> Some(s@) == zlib_inflate(data@),
{
    let mut decoder = flate2::bufread::ZlibDecoder::new(data);
    let mut text = String::new();
    match std::io::Read::read_to_string(&mut decoder, &mut text) {
        Ok(_) => Some(text),
        Err(_) => None,
    }
}

} // verus!
