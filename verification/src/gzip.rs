//! Gzip compression of Live set files, done by the `flate2` crate.
use vstd::prelude::*;
use std::io::Read;
use std::io::Write;
use vstd::utf8::{decode_utf8, valid_utf8};

verus! {

/// The text that the gzip data `data` decompresses to, if it is valid gzip
/// holding UTF-8 text.
pub uninterp spec fn gunzip_text(data: Seq<u8>) -> Option<Seq<char>>;

/// The gzip data that `flate2` makes of `data` at the default compression
/// level, with no file name and a zero time stamp in the header.
pub uninterp spec fn gzip_bytes(data: Seq<u8>) -> Seq<u8>;

/// `flate2::read::GzDecoder` read to the end into a `String`.  The text,
/// when there is one, is named `gunzip_text(data)`; otherwise the decoder's
/// error message is returned, whose text is not stated.
#[verifier::external_body]
pub(crate) fn gunzip_to_string(data: &[u8]) -> (r: Result<String, String>)
    ensures
        r is Ok <==> gunzip_text(data@) is Some,
        r matches Ok(s) ==> gunzip_text(data@) == Some(s@),
{
    let mut text = String::new();
    match flate2::read::GzDecoder::new(data).read_to_string(&mut text) {
        Ok(_) => Ok(text),
        Err(e) => Err(e.to_string()),
    }
}

/// `flate2::write::GzEncoder` over a `Vec<u8>` at `Compression::default()`,
/// given all of `data` and finished.  The compressed bytes are named
/// `gzip_bytes(data)`.  Writing into a `Vec` cannot fail, and the deflate
/// compressor errs only when it is used after finishing or after an error,
/// which this call never does, so the result is always `Ok`.  Decoding the
/// result gives `data` back, which reads as text exactly when `data` is
/// valid UTF-8.
#[verifier::external_body]
pub(crate) fn gzip(data: &[u8]) -> (r: Result<Vec<u8>, String>)
    ensures
        r is Ok,
        r matches Ok(b) ==> b@ == gzip_bytes(data@),
        r matches Ok(b) ==> (gunzip_text(b@) is Some <==> valid_utf8(data@)),
        r matches Ok(b) ==> (valid_utf8(data@) ==> gunzip_text(b@) == Some(decode_utf8(data@))),
{
    let mut enc = flate2::write::GzEncoder::new(Vec::new(), flate2::Compression::default());
    match enc.write_all(data) {
        Ok(()) => {},
        Err(e) => return Err(e.to_string()),
    }
    match enc.finish() {
        Ok(b) => Ok(b),
        Err(e) => Err(e.to_string()),
    }
}

} // verus!
