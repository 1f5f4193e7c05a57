//! Byte blobs: the bytes go through the LZ4 block compressor and stand, as
//! bits, behind a length prefix that counts the compressed bytes.

use vstd::prelude::*;
use crate::bits::{bits_to_bytes, bytes_to_bits, lemma_bytes_round_trip, lemma_bytes_to_bits_shape};
use crate::comprezable::{compress_metalength_v2, take_payload, Comprezable};
use crate::lz4::{lz4_compress, lz4_decompress, lz4_decompressed};
use crate::error::{CompressError, CompressErrorKind, DecompressError, DecompressErrorKind};
use crate::metalength::{
    lemma_metalength_len, lemma_metalength_round_trip, metalength, read_payload,
};
use crate::{pack_bits, BinaryChunk, Compressed};

verus! {

/// What reading a blob from the front of `bits` gives: the bytes and the
/// number of bits taken. A prefix that announces no byte stands for the empty
/// blob; any other is followed by the compressed bytes.
pub open spec fn read_blob(bits: Seq<u8>) -> Result<(Seq<u8>, nat), DecompressErrorKind> {
    match read_payload(bits) {
        Ok((payload, used)) => if payload.len() == 0 {
            Ok((Seq::empty(), used))
        } else {
            match lz4_decompressed(bits_to_bytes(payload)) {
                Some(bytes) => Ok((bytes, used)),
                None => Err(DecompressErrorKind::FromBytesErr),
            }
        },
        Err(kind) => Err(kind),
    }
}

/// The bits of a blob whose compressed bytes are `packed`.
pub open spec fn framed_bytes(packed: Seq<u8>) -> Seq<u8> {
    metalength(packed.len()) + bytes_to_bits(packed)
}

/// `bits` frame the bytes `packed`, and the decompressor makes `blob` of
/// them; of a blob too long for the four bytes that carry its length, only
/// the frame is asked.
pub open spec fn packs_blob(blob: Seq<u8>, packed: Seq<u8>, bits: Seq<u8>) -> bool {
    &&& bits == framed_bytes(packed)
    &&& 4 <= packed.len() <= usize::MAX
    &&& blob.len() <= u32::MAX ==> lz4_decompressed(packed) == Some(blob)
}

/// Framed compressed bytes are read back, whatever follows them, as what the
/// decompressor makes of those bytes.
pub proof fn lemma_read_framed_bytes(packed: Seq<u8>, rest: Seq<u8>)
    requires
        0 < packed.len() <= usize::MAX,
    ensures
        read_blob(framed_bytes(packed) + rest) == match lz4_decompressed(packed) {
            Some(bytes) => Ok::<(Seq<u8>, nat), DecompressErrorKind>(
                (bytes, framed_bytes(packed).len()),
            ),
            None => Err::<(Seq<u8>, nat), DecompressErrorKind>(DecompressErrorKind::FromBytesErr),
        },
{
    let n = packed.len();
    let prefix = metalength(n);
    let payload = bytes_to_bits(packed);
    let bits = framed_bytes(packed) + rest;
    lemma_metalength_round_trip(n, payload + rest);
    assert(bits =~= prefix + (payload + rest));
    lemma_bytes_to_bits_shape(packed);
    assert(bits.subrange(prefix.len() as int, (prefix.len() + 8 * n) as int) =~= payload);
    lemma_bytes_round_trip(packed);
}

impl Comprezable for Vec<u8> {
    open spec fn spec_bound_ok(max_num: Option<u128>) -> bool {
        true
    }

    open spec fn spec_width_ok(bit_size: Option<usize>) -> bool {
        true
    }

    open spec fn spec_bit_size(max_num: Option<u128>) -> Option<usize> {
        None
    }

    open spec fn spec_element_width(bit_size: Option<usize>) -> Option<usize> {
        None
    }

    open spec fn spec_compress_error(self, max_num: Option<u128>) -> Option<CompressErrorKind> {
        None
    }

    /// The bits frame some bytes from which the decompressor makes the blob.
    open spec fn spec_packed(self, max_num: Option<u128>, bits: Seq<u8>) -> bool {
        exists|packed: Seq<u8>| packs_blob(self@, packed, bits)
    }

    /// The blob's length fits in the four bytes that carry it.
    open spec fn spec_faithful(self, max_num: Option<u128>) -> bool {
        self@.len() <= u32::MAX
    }

    open spec fn spec_decompress_from(bits: Seq<u8>, bit_size: Option<usize>) -> Result<
        (Seq<u8>, nat),
        DecompressErrorKind,
    > {
        read_blob(bits)
    }

    /// A blob is packed as a field, behind its length prefix.
    open spec fn spec_whole_error(self) -> Option<CompressErrorKind> {
        Some(CompressErrorKind::DataNoSupported)
    }

    open spec fn spec_whole_packed(self, bits: Seq<u8>) -> bool {
        false
    }

    /// A blob is read as a field, behind its length prefix.
    open spec fn spec_decompress(bits: Seq<u8>) -> Result<Seq<u8>, DecompressErrorKind> {
        Err(DecompressErrorKind::PrimitiveDataErr)
    }

    proof fn lemma_shape(self, max_num: Option<u128>, bits: Seq<u8>) {
        let packed = choose|packed: Seq<u8>| packs_blob(self@, packed, bits);
        lemma_metalength_len(packed.len());
        lemma_bytes_to_bits_shape(packed);
    }

    proof fn lemma_read_back(self, max_num: Option<u128>, bits: Seq<u8>, rest: Seq<u8>) {
        let packed = choose|packed: Seq<u8>| packs_blob(self@, packed, bits);
        lemma_read_framed_bytes(packed, rest);
        assert(self.deep_view() =~= self@);
    }

    /// Always fails: a blob is packed as a field, behind its length prefix.
    fn compress(self) -> (r: Result<Compressed, CompressError>) {
        Err(CompressError::not_supported())
    }

    /// Packs the blob: the length prefix of the number of compressed bytes,
    /// then the bits of those bytes. No bound is used.
    fn compress_to_binaries(self, _max_num: Option<u128>) -> (r: Result<Compressed, CompressError>)
        ensures
            r is Ok,
            r.unwrap() is Binaries,
    {
        let bytes = lz4_compress(&self);
        let compressed_length = bytes.len();
        let compressed_metalength = Compressed::Binaries(compress_metalength_v2(compressed_length));
        let ghost packed = bytes@;
        let res = compressed_metalength.combine(Compressed::Bytes(bytes));
        assert(packs_blob(self@, packed, res.bits()));
        Ok(res)
    }

    /// The plan of a blob: a field that delimits itself.
    fn max_binaries(_max_num: Option<u128>) -> (r: BinaryChunk)
        ensures
            r is Delimeter,
    {
        BinaryChunk::Delimeter
    }

    /// Always fails: a blob is read as a field, behind its length prefix.
    fn decompress(_compressed: Compressed) -> (r: Result<Self, DecompressError>) {
        Err(DecompressError::not_supported())
    }

    fn decompress_from_slice(bits: &[u8], _bit_size: Option<usize>) -> (r: Result<
        (Self, usize),
        DecompressError,
    >) {
        match take_payload(bits) {
            Ok((payload, used)) => {
                if payload.len() == 0 {
                    let empty: Vec<u8> = Vec::new();
                    assert(empty.deep_view() =~= Seq::<u8>::empty());
                    return Ok((empty, used));
                }
                let bytes = pack_bits(payload);
                match lz4_decompress(&bytes) {
                    Ok(data) => {
                        assert(data.deep_view() =~= data@);
                        Ok((data, used))
                    },
                    Err(text) => Err(DecompressError::FromBytesErr(text)),
                }
            },
            Err(e) => Err(e),
        }
    }

    fn element_width(_bit_size: Option<usize>) -> (r: Option<usize>) {
        None
    }
}

} // verus!
