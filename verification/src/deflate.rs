//! The compression service for scanline data.

use std::io::Write;
use vstd::prelude::*;

verus! {

/// The zlib stream that `libflate` produces for `raw` with its default
/// options, when all of `raw` is handed over in one write.
pub uninterp spec fn zlib_stream(raw: Seq<u8>) -> Seq<u8>;

/// Runs `libflate::zlib::Encoder` with its default options over `data`: the
/// encoder is made on an empty `Vec`, takes all of `data` in one `write_all`,
/// and is finished. The bytes that come out depend on `data` alone. With a
/// `Vec` as the sink no step reports an error, so none of the unwraps fails.
#[verifier::external_body]
pub(crate) fn compress_block(data: &[u8]) -> (stream: Vec<u8>)
    ensures
        stream@ == zlib_stream(data@),
{
    let mut encoder = libflate::zlib::Encoder::new(Vec::new()).unwrap();
    encoder.write_all(data).unwrap();
    encoder.finish().into_result().unwrap()
}

} // verus!
