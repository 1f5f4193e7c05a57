//! The LZ4 block compressor, as far as this library relies on it.

use vstd::prelude::*;

verus! {

/// What `lz4_flex::block::decompress_size_prepended` gives for `input`: the
/// decompressed bytes, or nothing where it returns an error.
pub uninterp spec fn lz4_decompressed(input: Seq<u8>) -> Option<Seq<u8>>;

/// Calls `lz4_flex::block::compress_prepend_size`. The result starts with the
/// four bytes of the input's length, and for an input whose length fits in
/// those four bytes `decompress_size_prepended` gives the input back from it.
/// Which bytes the compressor chooses is not stated: they differ between
/// machines.
#[verifier::external_body]
pub(crate) fn lz4_compress(input: &Vec<u8>) -> (r: Vec<u8>)
    ensures
        r@.len() >= 4,
        input@.len() <= u32::MAX ==> lz4_decompressed(r@) == Some(input@),
{
    lz4_flex::block::compress_prepend_size(input.as_slice())
}

/// Calls `lz4_flex::block::decompress_size_prepended`, whose result depends
/// on the input bytes alone. Its error comes back as the text that the error
/// displays, of which nothing is stated.
#[verifier::external_body]
pub(crate) fn lz4_decompress(input: &Vec<u8>) -> (r: Result<Vec<u8>, String>)
    ensures
        r is Ok <==> lz4_decompressed(input@) is Some,
        r is Ok ==> Some(r.unwrap()@) == lz4_decompressed(input@),
{
    match lz4_flex::block::decompress_size_prepended(input.as_slice()) {
        Ok(bytes) => Ok(bytes),
        Err(e) => Err(format!("{}", e)),
    }
}

} // verus!
