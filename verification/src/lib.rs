//! Bit-level packing of structured data: integers whose range is known take
//! only the bits that their bound needs, byte blobs and collections say by a
//! length prefix where they end, and all of them share one bit stream from
//! which they are read back in the order in which they were written.
//!
//! - [`Compressed`] holds a packed value, as bits or as bytes.
//! - [`comprezable::Comprezable`] is the contract of a packable type; it is
//!   met by the integer types ([`integers`]), by byte blobs ([`blob`]) and by
//!   collections of packable items ([`collection`]).
//! - [`BinaryChunk`] is the plan by which the fields of a composite value are
//!   found again in a bit stream.
//! - [`unsigned::Unsigned`] packs numbers below fixed caps into whole bytes.
//!
//! What the routines compute is stated over the mathematical models of
//! [`bits`], [`numeric`] and [`metalength`], and proved: among other laws,
//! that a packed value is read back as itself.

use vstd::prelude::*;
use vstd::slice::slice_to_vec;

pub mod bits;
pub mod blob;
pub mod collection;
pub mod comprezable;
pub mod error;
pub mod integers;
pub mod lz4;
pub mod metalength;
pub mod numeric;
pub mod text;
pub mod unsigned;

use crate::bits::{
    bits_to_bytes, byte_of, bytes_to_bits, is_bits, lemma_bits_round_trip,
    lemma_bytes_to_bits_shape, padding, zeros,
};
use crate::comprezable::{encode, Comprezable};
use crate::error::DecompressError;

verus! {

/// A packed value, held either bit by bit or as whole bytes.
#[derive(Debug, Clone, PartialEq, Eq, PartialOrd, Ord)]
pub enum Compressed {
    /// One element per bit, most significant first; each element is 0 or 1.
    Binaries(Vec<u8>),
    /// Eight bits per element, most significant bit first.
    Bytes(Vec<u8>),
}

impl Compressed {
    /// The bit sequence that this value stands for.
    pub open spec fn bits(self) -> Seq<u8> {
        match self {
            Compressed::Binaries(b) => b@,
            Compressed::Bytes(b) => bytes_to_bits(b@),
        }
    }

    /// The byte sequence that this value stands for: its bits, filled up with
    /// zero bits to whole bytes.
    pub open spec fn bytes(self) -> Seq<u8> {
        match self {
            Compressed::Binaries(b) => bits_to_bytes(b@),
            Compressed::Bytes(b) => b@,
        }
    }

    /// The empty bit stream.
    pub fn new() -> (r: Self)
        ensures
            r is Binaries,
            r.bits() == Seq::<u8>::empty(),
    {
        Compressed::Binaries(Vec::new())
    }

    /// The bytes of this value; bits are filled up with zero bits to the next
    /// whole byte, so that the bits of the bytes are the bits of this value
    /// followed by those zero bits.
    pub fn to_bytes(&self) -> (r: Vec<u8>)
        ensures
            r@ == self.bytes(),
            is_bits(self.bits()) ==> bytes_to_bits(r@) == self.bits() + zeros(
                padding(self.bits().len()),
            ),
    {
        proof {
            match self {
                Compressed::Binaries(binaries) => {
                    if is_bits(binaries@) {
                        lemma_bits_round_trip(binaries@);
                    }
                },
                Compressed::Bytes(bytes) => {
                    lemma_bytes_to_bits_shape(bytes@);
                    assert(bytes_to_bits(bytes@) + zeros(0) =~= bytes_to_bits(bytes@));
                },
            }
        }
        match self {
            Compressed::Binaries(binaries) => pack_bits(binaries.as_slice()),
            Compressed::Bytes(bytes) => slice_to_vec(bytes.as_slice()),
        }
    }

    /// The bits of this value; bytes give eight bits each, so that their
    /// number is a multiple of eight.
    pub fn to_binaries(&self) -> (r: Vec<u8>)
        ensures
            r@ == self.bits(),
            self is Bytes ==> r@.len() == 8 * self.bytes().len() && is_bits(r@),
    {
        proof {
            if let Compressed::Bytes(bytes) = self {
                lemma_bytes_to_bits_shape(bytes@);
            }
        }
        match self {
            Compressed::Binaries(binaries) => slice_to_vec(binaries.as_slice()),
            Compressed::Bytes(bytes) => to_binary(bytes.as_slice()),
        }
    }

    /// Appends the bits of this value to `res`.
    pub fn extend_to_res(self, res: &mut Vec<u8>)
        ensures
            final(res)@ == old(res)@ + self.bits(),
    {
        let mut binaries = self.to_binaries();
        res.append(&mut binaries);
    }

    /// The bits of this value followed by the bits of `other`.
    pub fn combine(self, other: Compressed) -> (r: Self)
        ensures
            r is Binaries,
            r.bits() == self.bits() + other.bits(),
    {
        let mut binaries = self.to_binaries();
        let mut other_binaries = other.to_binaries();
        binaries.append(&mut other_binaries);
        Compressed::Binaries(binaries)
    }

    /// A packed value held as these bytes.
    pub fn from_bytes(bytes: Vec<u8>) -> (r: Self)
        ensures
            r == Compressed::Bytes(bytes),
    {
        Compressed::Bytes(bytes)
    }

    /// A packed value held as these bits.
    pub fn from_binaries(binaries: &[u8]) -> (r: Self)
        ensures
            r is Binaries,
            r.bits() == binaries@,
    {
        Compressed::Binaries(slice_to_vec(binaries))
    }
}

/// A plan of how the bits of a composite value are divided among its fields.
#[derive(Debug)]
pub enum BinaryChunk {
    /// A field of this many bits.
    Single(usize),
    /// The fields of a nested composite, in order.
    Nested(Vec<BinaryChunk>),
    /// A field that says itself, by a length prefix, how long it is.
    Delimeter,
}

impl BinaryChunk {
    /// The widths of the fields of this plan, in order, with 0 for each field
    /// that delimits itself.
    pub open spec fn spec_flatten(self) -> Seq<usize>
        decreases self,
    {
        match self {
            BinaryChunk::Single(size) => seq![size],
            BinaryChunk::Nested(chunks) => Self::flatten_all(chunks@),
            BinaryChunk::Delimeter => seq![0usize],
        }
    }

    /// The widths of the fields of several plans, one plan after the other.
    pub open spec fn flatten_all(chunks: Seq<BinaryChunk>) -> Seq<usize>
        decreases chunks,
    {
        if chunks.len() == 0 {
            Seq::empty()
        } else {
            Self::flatten_all(chunks.drop_last()) + chunks.last().spec_flatten()
        }
    }

    /// The width that a field of this plan hands to its reader: the field's
    /// bits where they are fixed, nothing otherwise.
    pub open spec fn spec_bit_size(self) -> Option<usize> {
        match self {
            BinaryChunk::Single(size) => Some(size),
            _ => None,
        }
    }

    /// Reads the field that this plan describes, a value of `T`, from the
    /// front of `compressed`, and takes its bits off: a field of fixed width
    /// is read with that width, any other without one. On an error the bits
    /// stay as they were.
    pub fn decompress<T: Comprezable>(&self, compressed: &mut Vec<u8>) -> (r: Result<
        T,
        DecompressError,
    >)
        requires
            T::spec_width_ok(self.spec_bit_size()),
        ensures
            match T::spec_decompress_from(old(compressed)@, self.spec_bit_size()) {
                Ok((value, used)) => r is Ok && r.unwrap().deep_view() == value && used <= old(
                    compressed,
                )@.len() && final(compressed)@ == old(compressed)@.skip(used as int),
                Err(kind) => r matches Err(e) && e.kind() == kind && final(compressed)@ == old(
                    compressed,
                )@,
            },
    {
        match self {
            BinaryChunk::Single(size) => T::decompress_from_binaries(compressed, Some(*size)),
            BinaryChunk::Nested(_) => T::decompress_from_binaries(compressed, None),
            BinaryChunk::Delimeter => T::decompress_from_binaries(compressed, None),
        }
    }

    /// The widths of the fields of this plan, in order, with 0 for each field
    /// that delimits itself.
    pub fn flatten(&self) -> (r: Vec<usize>)
        ensures
            r@ == self.spec_flatten(),
        decreases self,
    {
        match self {
            BinaryChunk::Single(size) => {
                let mut res = Vec::new();
                res.push(*size);
                res
            },
            BinaryChunk::Nested(sizes) => {
                let mut acc: Vec<usize> = Vec::new();
                let mut i: usize = 0;
                while i < sizes.len()
                    invariant
                        i <= sizes.len(),
                        self == BinaryChunk::Nested(*sizes),
                        acc@ == Self::flatten_all(sizes@.take(i as int)),
                    decreases sizes.len() - i,
                {
                    proof {
                        vstd::std_specs::vec::axiom_vec_index_decreases(*sizes, i as int);
                        assert(decreases_to!(self => self->Nested_0));
                        assert(decreases_to!(self => sizes[i as int]));
                    }
                    let mut part = sizes[i].flatten();
                    proof {
                        assert(sizes@.take(i + 1).drop_last() =~= sizes@.take(i as int));
                    }
                    acc.append(&mut part);
                    i += 1;
                }
                proof {
                    assert(sizes@.take(sizes.len() as int) =~= sizes@);
                }
                acc
            },
            BinaryChunk::Delimeter => {
                let mut res = Vec::new();
                res.push(0usize);
                res
            },
        }
    }
}

impl Clone for BinaryChunk {
    /// A copy of this plan, with the same fields in the same order.
    fn clone(&self) -> (r: Self)
        ensures
            r.spec_flatten() == self.spec_flatten(),
            r.spec_bit_size() == self.spec_bit_size(),
        decreases self,
    {
        match self {
            BinaryChunk::Single(size) => BinaryChunk::Single(*size),
            BinaryChunk::Nested(sizes) => {
                let mut copies: Vec<BinaryChunk> = Vec::new();
                let mut i: usize = 0;
                while i < sizes.len()
                    invariant
                        i <= sizes.len(),
                        self == BinaryChunk::Nested(*sizes),
                        copies.len() == i,
                        BinaryChunk::flatten_all(copies@) == BinaryChunk::flatten_all(
                            sizes@.take(i as int),
                        ),
                    decreases sizes.len() - i,
                {
                    let ghost before = copies@;
                    proof {
                        vstd::std_specs::vec::axiom_vec_index_decreases(*sizes, i as int);
                        assert(decreases_to!(self => self->Nested_0));
                        assert(decreases_to!(self => sizes[i as int]));
                    }
                    let copy = sizes[i].clone();
                    copies.push(copy);
                    proof {
                        assert(sizes@.take(i + 1).drop_last() =~= sizes@.take(i as int));
                        assert(copies@.drop_last() =~= before);
                    }
                    i += 1;
                }
                proof {
                    assert(sizes@.take(sizes.len() as int) =~= sizes@);
                }
                BinaryChunk::Nested(copies)
            },
            BinaryChunk::Delimeter => BinaryChunk::Delimeter,
        }
    }
}

/// Packs bits into bytes, eight per byte, most significant bit first; the
/// last byte is filled up with zero bits.
pub fn pack_bits(bits: &[u8]) -> (r: Vec<u8>)
    ensures
        r@ == bits_to_bytes(bits@),
{
    let mut padded = slice_to_vec(bits);
    pad_to_byte(&mut padded);
    let mut bytes: Vec<u8> = Vec::new();
    let mut i: usize = 0;
    while i < padded.len() / 8
        invariant
            padded.len() % 8 == 0,
            padded.len() == bits.len() + padding(bits.len() as nat),
            padded@ == bits@ + zeros(padding(bits.len() as nat)),
            i <= padded.len() / 8,
            bytes.len() == i,
            forall|j: int|
                0 <= j < i ==> #[trigger] bytes[j] == byte_of(padded@.subrange(8 * j, 8 * j + 8)),
        decreases padded.len() / 8 - i,
    {
        let chunk = vstd::slice::slice_subrange(padded.as_slice(), 8 * i, 8 * i + 8);
        bytes.push(to_byte(chunk));
        i += 1;
    }
    assert(bytes@ =~= bits_to_bytes(bits@));
    bytes
}

/// Appends zero bits to `bits` up to the next whole byte.
pub fn pad_to_byte(bits: &mut Vec<u8>)
    ensures
        final(bits)@ == old(bits)@ + zeros(padding(old(bits)@.len())),
        final(bits)@.len() % 8 == 0,
{
    let missing: usize = (8 - bits.len() % 8) % 8;
    let mut i: usize = 0;
    while i < missing
        invariant
            i <= missing,
            bits@ == old(bits)@ + zeros(i as nat),
        decreases missing - i,
    {
        bits.push(0u8);
        i += 1;
        assert(bits@ =~= old(bits)@ + zeros(i as nat));
    }
}

/// Folds a run of bits into a byte, most significant bit first.
pub fn to_byte(bits: &[u8]) -> (r: u8)
    ensures
        r == byte_of(bits@),
{
    let mut result: u8 = 0;
    let mut i: usize = 0;
    while i < bits.len()
        invariant
            i <= bits.len(),
            result == byte_of(bits@.take(i as int)),
        decreases bits.len() - i,
    {
        proof {
            assert(bits@.take(i + 1).drop_last() =~= bits@.take(i as int));
        }
        result = (result << 1) ^ bits[i];
        i += 1;
    }
    proof {
        assert(bits@.take(bits.len() as int) =~= bits@);
    }
    result
}

/// Spreads bytes into bits, eight per byte, most significant bit first.
pub fn to_binary(bytes: &[u8]) -> (r: Vec<u8>)
    ensures
        r@ == bytes_to_bits(bytes@),
{
    let mut binaries: Vec<u8> = Vec::new();
    let mut i: usize = 0;
    while i < bytes.len()
        invariant
            i <= bytes.len(),
            binaries@ == bytes_to_bits(bytes@.take(i as int)),
        decreases bytes.len() - i,
    {
        let mut temp_binaries = encode(bytes[i] as u128, 8);
        proof {
            assert(bytes@.take(i + 1).drop_last() =~= bytes@.take(i as int));
            assert(crate::bits::bit_len(bytes[i as int] as nat) <= 8) by {
                vstd::arithmetic::power2::lemma2_to64();
                crate::bits::lemma_bit_len_bound(bytes[i as int] as nat, 8);
            }
        }
        binaries.append(&mut temp_binaries);
        i += 1;
    }
    proof {
        assert(bytes@.take(bytes.len() as int) =~= bytes@);
    }
    binaries
}

} // verus!
