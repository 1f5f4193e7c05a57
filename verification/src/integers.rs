//! The integer types as packable types: a number is packed under a bound on
//! its magnitude and read back with the width of that bound.

use vstd::prelude::*;
use crate::bits::{lemma_bit_len_monotonic, lemma_bit_len_u128};
use crate::comprezable::{compress_num, find_mult_8_bit_size, read_field, Comprezable};
use crate::error::{CompressError, CompressErrorKind, DecompressError, DecompressErrorKind};
use crate::numeric::{
    lemma_packed_shape, lemma_signed_round_trip, lemma_unsigned_round_trip, magnitude, packed,
    read_signed, read_unsigned, signed_packed, signed_width, unsigned_width,
};
use crate::text::{decimal, run, signed_decimal};
use crate::{BinaryChunk, Compressed};

verus! {

/// What reading a packed unsigned value from a packed value that holds
/// nothing else gives: all of its bits are the field.
pub open spec fn read_whole_unsigned(bits: Seq<u8>, max: nat) -> Result<nat, DecompressErrorKind> {
    if bits.len() < 3 {
        Err(DecompressErrorKind::WrongBytesLength)
    } else {
        match read_unsigned(bits, bits.len(), max) {
            Ok((value, _)) => Ok(value),
            Err(kind) => Err(kind),
        }
    }
}

/// Packs the unsigned `value` under the bound `max_num`; a value above the
/// bound is an overflow.
pub fn compress_unsigned(value: u128, max_num: u128) -> (r: Result<Compressed, CompressError>)
    ensures
        value > max_num ==> r is Err && r.unwrap_err().kind() == CompressErrorKind::Overflow,
        value <= max_num ==> r is Ok && r.unwrap() is Binaries && r.unwrap().bits() == packed(
            value as nat,
            max_num as nat,
        ),
{
    if value > max_num {
        return Err(CompressError::overflow(decimal(value).as_str(), decimal(max_num).as_str()));
    }
    let mult_8_bit_size = find_mult_8_bit_size(max_num);
    let compressed_binaries = compress_num(value, mult_8_bit_size);
    proof {
        lemma_bit_len_monotonic((value / 8) as nat, (max_num / 8) as nat);
    }
    Ok(Compressed::Binaries(compressed_binaries))
}

/// Reads an unsigned value of `bit_size` bits, at most `max`, from the front
/// of `bits`.
pub fn decompress_unsigned(bits: &[u8], bit_size: usize, max: u128) -> (r: Result<
    u128,
    DecompressError,
>)
    requires
        bit_size >= 3,
    ensures
        match read_unsigned(bits@, bit_size as nat, max as nat) {
            Ok((value, used)) => r == Ok::<u128, DecompressError>(value as u128) && value <= max
                && used == bit_size && used <= bits@.len(),
            Err(kind) => r is Err && r.unwrap_err().kind() == kind,
        },
{
    if bits.len() < bit_size {
        return Err(DecompressError::wrong_length("Not enough bytes"));
    }
    assert(bits@.take(bit_size as int) =~= bits@.subrange(0, 0 + bit_size));
    match read_field(bits, 0, bit_size, max) {
        Some(value) => Ok(value),
        None => Err(DecompressError::not_a_number(run(bits, 0, bit_size).as_str())),
    }
}

/// Reads an unsigned value, at most `max`, from a packed value that holds
/// nothing else.
pub fn decompress_whole_unsigned(compressed: Compressed, max: u128) -> (r: Result<
    u128,
    DecompressError,
>)
    ensures
        match read_whole_unsigned(compressed.bits(), max as nat) {
            Ok(value) => r == Ok::<u128, DecompressError>(value as u128) && value <= max,
            Err(kind) => r is Err && r.unwrap_err().kind() == kind,
        },
{
    let binaries = compressed.to_binaries();
    let bit_size = binaries.len();
    if bit_size < 3 {
        return Err(DecompressError::wrong_length("Not enough bytes"));
    }
    decompress_unsigned(binaries.as_slice(), bit_size, max)
}

/// What reading a packed signed value from a packed value that holds nothing
/// else gives: all of its bits are the sign and the field.
pub open spec fn read_whole_signed(bits: Seq<u8>, min: int, max: int) -> Result<
    int,
    DecompressErrorKind,
> {
    if bits.len() < 4 {
        Err(DecompressErrorKind::WrongBytesLength)
    } else {
        match read_signed(bits, bits.len(), min, max) {
            Ok((value, _)) => Ok(value),
            Err(kind) => Err(kind),
        }
    }
}

/// The absolute value of `value`.
pub fn magnitude_of(value: i128) -> (r: u128)
    ensures
        r == magnitude(value as int),
{
    if value >= 0 {
        value as u128
    } else if value == i128::MIN {
        0x8000_0000_0000_0000_0000_0000_0000_0000u128
    } else {
        (-value) as u128
    }
}

/// The negative number whose absolute value is `magnitude`.
pub fn negative_of(magnitude: u128) -> (r: i128)
    requires
        magnitude <= 0x8000_0000_0000_0000_0000_0000_0000_0000u128,
    ensures
        r == -(magnitude as int),
{
    if magnitude == 0x8000_0000_0000_0000_0000_0000_0000_0000u128 {
        i128::MIN
    } else {
        -(magnitude as i128)
    }
}

/// Packs the signed `value` under the bound `max_num` on its magnitude: the
/// sign bit, 1 unless the value is negative, then the packed magnitude. A
/// magnitude above the bound is an overflow.
pub fn compress_signed(value: i128, max_num: u128) -> (r: Result<Compressed, CompressError>)
    ensures
        magnitude(value as int) > max_num ==> r is Err && r.unwrap_err().kind()
            == CompressErrorKind::Overflow,
        magnitude(value as int) <= max_num ==> r is Ok && r.unwrap() is Binaries
            && r.unwrap().bits() == signed_packed(value as int, max_num as nat),
{
    let size = magnitude_of(value);
    if size > max_num {
        return Err(
            CompressError::overflow(
                signed_decimal(value < 0, size).as_str(),
                decimal(max_num).as_str(),
            ),
        );
    }
    let mult_8_bit_size = find_mult_8_bit_size(max_num);
    let mut compressed_binaries = compress_num(size, mult_8_bit_size);
    proof {
        lemma_bit_len_monotonic((size / 8) as nat, (max_num / 8) as nat);
    }
    let mut res: Vec<u8> = Vec::new();
    if value < 0 {
        res.push(0u8);
    } else {
        res.push(1u8);
    }
    res.append(&mut compressed_binaries);
    Ok(Compressed::Binaries(res))
}

/// Reads a signed value of `bit_size` bits, within `min ..= max`, from the
/// front of `bits`.
pub fn decompress_signed(bits: &[u8], bit_size: usize, min: i128, max: i128) -> (r: Result<
    i128,
    DecompressError,
>)
    requires
        bit_size >= 4,
        min <= 0 <= max,
    ensures
        match read_signed(bits@, bit_size as nat, min as int, max as int) {
            Ok((value, used)) => r == Ok::<i128, DecompressError>(value as i128) && min <= value
                <= max && used == bit_size && used <= bits@.len(),
            Err(kind) => r is Err && r.unwrap_err().kind() == kind,
        },
{
    if bits.len() < bit_size {
        return Err(DecompressError::wrong_length("Not enough bytes"));
    }
    let sign = bits[0];
    if sign > 1 {
        return Err(DecompressError::bad_marker());
    }
    let limit: u128 = if sign == 0 {
        magnitude_of(min)
    } else {
        max as u128
    };
    assert(bits@.subrange(1, bit_size as int) =~= bits@.subrange(1, 1 + (bit_size - 1)));
    match read_field(bits, 1, bit_size - 1, limit) {
        Some(size) => {
            if sign == 0 {
                Ok(negative_of(size))
            } else {
                Ok(size as i128)
            }
        },
        None => Err(DecompressError::not_a_number(run(bits, 1, bit_size).as_str())),
    }
}

/// Reads a signed value, within `min ..= max`, from a packed value that holds
/// nothing else.
pub fn decompress_whole_signed(compressed: Compressed, min: i128, max: i128) -> (r: Result<
    i128,
    DecompressError,
>)
    requires
        min <= 0 <= max,
    ensures
        match read_whole_signed(compressed.bits(), min as int, max as int) {
            Ok(value) => r == Ok::<i128, DecompressError>(value as i128) && min <= value <= max,
            Err(kind) => r is Err && r.unwrap_err().kind() == kind,
        },
{
    let binaries = compressed.to_binaries();
    let bit_size = binaries.len();
    if bit_size < 4 {
        return Err(DecompressError::wrong_length("Not enough bytes"));
    }
    decompress_signed(binaries.as_slice(), bit_size, min, max)
}

impl Comprezable for u16 {
    open spec fn spec_bound_ok(max_num: Option<u128>) -> bool {
        max_num is Some
    }

    open spec fn spec_width_ok(bit_size: Option<usize>) -> bool {
        bit_size is Some && bit_size.unwrap() >= 3
    }

    open spec fn spec_bit_size(max_num: Option<u128>) -> Option<usize> {
        Some(unsigned_width(max_num.unwrap() as nat) as usize)
    }

    open spec fn spec_element_width(bit_size: Option<usize>) -> Option<usize> {
        bit_size
    }

    open spec fn spec_compress_error(self, max_num: Option<u128>) -> Option<CompressErrorKind> {
        if self > max_num.unwrap() {
            Some(CompressErrorKind::Overflow)
        } else {
            None
        }
    }

    open spec fn spec_packed(self, max_num: Option<u128>, bits: Seq<u8>) -> bool {
        self <= max_num.unwrap() && bits == packed(self as nat, max_num.unwrap() as nat)
    }

    open spec fn spec_faithful(self, max_num: Option<u128>) -> bool {
        true
    }

    open spec fn spec_decompress_from(bits: Seq<u8>, bit_size: Option<usize>) -> Result<
        (u16, nat),
        DecompressErrorKind,
    > {
        match read_unsigned(bits, bit_size.unwrap() as nat, u16::MAX as nat) {
            Ok((value, used)) => Ok((value as u16, used)),
            Err(kind) => Err(kind),
        }
    }

    /// An integer has no packing without a bound.
    open spec fn spec_whole_error(self) -> Option<CompressErrorKind> {
        Some(CompressErrorKind::DataNoSupported)
    }

    open spec fn spec_whole_packed(self, bits: Seq<u8>) -> bool {
        false
    }

    /// All of the bits are the field.
    open spec fn spec_decompress(bits: Seq<u8>) -> Result<u16, DecompressErrorKind> {
        match read_whole_unsigned(bits, u16::MAX as nat) {
            Ok(value) => Ok(value as u16),
            Err(kind) => Err(kind),
        }
    }

    proof fn lemma_shape(self, max_num: Option<u128>, bits: Seq<u8>) {
        lemma_packed_shape(self as nat, max_num.unwrap() as nat);
        lemma_bit_len_u128((max_num.unwrap() / 8) as u128);
    }

    proof fn lemma_read_back(self, max_num: Option<u128>, bits: Seq<u8>, rest: Seq<u8>) {
        lemma_packed_shape(self as nat, max_num.unwrap() as nat);
        lemma_bit_len_u128((max_num.unwrap() / 8) as u128);
        lemma_unsigned_round_trip(self as nat, max_num.unwrap() as nat, u16::MAX as nat, rest);
    }

    /// Always fails: an integer has no packing without a bound.
    fn compress(self) -> (r: Result<Compressed, CompressError>) {
        Err(CompressError::not_supported())
    }

    /// Packs the number under the bound `max_num`: its quotient by 8 in the
    /// bits that the bound's quotient needs, then its remainder in three
    /// bits. A number above the bound is an overflow.
    fn compress_to_binaries(self, max_num: Option<u128>) -> (r: Result<Compressed, CompressError>)
        ensures
            r is Ok ==> r.unwrap() is Binaries,
    {
        compress_unsigned(self as u128, max_num.unwrap())
    }

    /// The plan of a number under the bound `max_num`: one field of the
    /// bound's width.
    fn max_binaries(max_num: Option<u128>) -> (r: BinaryChunk)
        ensures
            r == BinaryChunk::Single(unsigned_width(max_num.unwrap() as nat) as usize),
    {
        BinaryChunk::Single(find_mult_8_bit_size(max_num.unwrap()) + 3)
    }

    /// Reads a number from a packed value that holds nothing else: all of
    /// its bits are the field.
    fn decompress(compressed: Compressed) -> (r: Result<u16, DecompressError>) {
        match decompress_whole_unsigned(compressed, u16::MAX as u128) {
            Ok(value) => Ok(value as u16),
            Err(e) => Err(e),
        }
    }

    fn decompress_from_slice(bits: &[u8], bit_size: Option<usize>) -> (r: Result<
        (Self, usize),
        DecompressError,
    >) {
        match decompress_unsigned(bits, bit_size.unwrap(), u16::MAX as u128) {
            Ok(value) => Ok((value as u16, bit_size.unwrap())),
            Err(e) => Err(e),
        }
    }

    fn element_width(bit_size: Option<usize>) -> (r: Option<usize>) {
        bit_size
    }
}

impl Comprezable for u32 {
    open spec fn spec_bound_ok(max_num: Option<u128>) -> bool {
        max_num is Some
    }

    open spec fn spec_width_ok(bit_size: Option<usize>) -> bool {
        bit_size is Some && bit_size.unwrap() >= 3
    }

    open spec fn spec_bit_size(max_num: Option<u128>) -> Option<usize> {
        Some(unsigned_width(max_num.unwrap() as nat) as usize)
    }

    open spec fn spec_element_width(bit_size: Option<usize>) -> Option<usize> {
        bit_size
    }

    open spec fn spec_compress_error(self, max_num: Option<u128>) -> Option<CompressErrorKind> {
        if self > max_num.unwrap() {
            Some(CompressErrorKind::Overflow)
        } else {
            None
        }
    }

    open spec fn spec_packed(self, max_num: Option<u128>, bits: Seq<u8>) -> bool {
        self <= max_num.unwrap() && bits == packed(self as nat, max_num.unwrap() as nat)
    }

    open spec fn spec_faithful(self, max_num: Option<u128>) -> bool {
        true
    }

    open spec fn spec_decompress_from(bits: Seq<u8>, bit_size: Option<usize>) -> Result<
        (u32, nat),
        DecompressErrorKind,
    > {
        match read_unsigned(bits, bit_size.unwrap() as nat, u32::MAX as nat) {
            Ok((value, used)) => Ok((value as u32, used)),
            Err(kind) => Err(kind),
        }
    }

    /// An integer has no packing without a bound.
    open spec fn spec_whole_error(self) -> Option<CompressErrorKind> {
        Some(CompressErrorKind::DataNoSupported)
    }

    open spec fn spec_whole_packed(self, bits: Seq<u8>) -> bool {
        false
    }

    /// All of the bits are the field.
    open spec fn spec_decompress(bits: Seq<u8>) -> Result<u32, DecompressErrorKind> {
        match read_whole_unsigned(bits, u32::MAX as nat) {
            Ok(value) => Ok(value as u32),
            Err(kind) => Err(kind),
        }
    }

    proof fn lemma_shape(self, max_num: Option<u128>, bits: Seq<u8>) {
        lemma_packed_shape(self as nat, max_num.unwrap() as nat);
        lemma_bit_len_u128((max_num.unwrap() / 8) as u128);
    }

    proof fn lemma_read_back(self, max_num: Option<u128>, bits: Seq<u8>, rest: Seq<u8>) {
        lemma_packed_shape(self as nat, max_num.unwrap() as nat);
        lemma_bit_len_u128((max_num.unwrap() / 8) as u128);
        lemma_unsigned_round_trip(self as nat, max_num.unwrap() as nat, u32::MAX as nat, rest);
    }

    /// Always fails: an integer has no packing without a bound.
    fn compress(self) -> (r: Result<Compressed, CompressError>) {
        Err(CompressError::not_supported())
    }

    /// Packs the number under the bound `max_num`: its quotient by 8 in the
    /// bits that the bound's quotient needs, then its remainder in three
    /// bits. A number above the bound is an overflow.
    fn compress_to_binaries(self, max_num: Option<u128>) -> (r: Result<Compressed, CompressError>)
        ensures
            r is Ok ==> r.unwrap() is Binaries,
    {
        compress_unsigned(self as u128, max_num.unwrap())
    }

    /// The plan of a number under the bound `max_num`: one field of the
    /// bound's width.
    fn max_binaries(max_num: Option<u128>) -> (r: BinaryChunk)
        ensures
            r == BinaryChunk::Single(unsigned_width(max_num.unwrap() as nat) as usize),
    {
        BinaryChunk::Single(find_mult_8_bit_size(max_num.unwrap()) + 3)
    }

    /// Reads a number from a packed value that holds nothing else: all of
    /// its bits are the field.
    fn decompress(compressed: Compressed) -> (r: Result<u32, DecompressError>) {
        match decompress_whole_unsigned(compressed, u32::MAX as u128) {
            Ok(value) => Ok(value as u32),
            Err(e) => Err(e),
        }
    }

    fn decompress_from_slice(bits: &[u8], bit_size: Option<usize>) -> (r: Result<
        (Self, usize),
        DecompressError,
    >) {
        match decompress_unsigned(bits, bit_size.unwrap(), u32::MAX as u128) {
            Ok(value) => Ok((value as u32, bit_size.unwrap())),
            Err(e) => Err(e),
        }
    }

    fn element_width(bit_size: Option<usize>) -> (r: Option<usize>) {
        bit_size
    }
}

impl Comprezable for u64 {
    open spec fn spec_bound_ok(max_num: Option<u128>) -> bool {
        max_num is Some
    }

    open spec fn spec_width_ok(bit_size: Option<usize>) -> bool {
        bit_size is Some && bit_size.unwrap() >= 3
    }

    open spec fn spec_bit_size(max_num: Option<u128>) -> Option<usize> {
        Some(unsigned_width(max_num.unwrap() as nat) as usize)
    }

    open spec fn spec_element_width(bit_size: Option<usize>) -> Option<usize> {
        bit_size
    }

    open spec fn spec_compress_error(self, max_num: Option<u128>) -> Option<CompressErrorKind> {
        if self > max_num.unwrap() {
            Some(CompressErrorKind::Overflow)
        } else {
            None
        }
    }

    open spec fn spec_packed(self, max_num: Option<u128>, bits: Seq<u8>) -> bool {
        self <= max_num.unwrap() && bits == packed(self as nat, max_num.unwrap() as nat)
    }

    open spec fn spec_faithful(self, max_num: Option<u128>) -> bool {
        true
    }

    open spec fn spec_decompress_from(bits: Seq<u8>, bit_size: Option<usize>) -> Result<
        (u64, nat),
        DecompressErrorKind,
    > {
        match read_unsigned(bits, bit_size.unwrap() as nat, u64::MAX as nat) {
            Ok((value, used)) => Ok((value as u64, used)),
            Err(kind) => Err(kind),
        }
    }

    /// An integer has no packing without a bound.
    open spec fn spec_whole_error(self) -> Option<CompressErrorKind> {
        Some(CompressErrorKind::DataNoSupported)
    }

    open spec fn spec_whole_packed(self, bits: Seq<u8>) -> bool {
        false
    }

    /// All of the bits are the field.
    open spec fn spec_decompress(bits: Seq<u8>) -> Result<u64, DecompressErrorKind> {
        match read_whole_unsigned(bits, u64::MAX as nat) {
            Ok(value) => Ok(value as u64),
            Err(kind) => Err(kind),
        }
    }

    proof fn lemma_shape(self, max_num: Option<u128>, bits: Seq<u8>) {
        lemma_packed_shape(self as nat, max_num.unwrap() as nat);
        lemma_bit_len_u128((max_num.unwrap() / 8) as u128);
    }

    proof fn lemma_read_back(self, max_num: Option<u128>, bits: Seq<u8>, rest: Seq<u8>) {
        lemma_packed_shape(self as nat, max_num.unwrap() as nat);
        lemma_bit_len_u128((max_num.unwrap() / 8) as u128);
        lemma_unsigned_round_trip(self as nat, max_num.unwrap() as nat, u64::MAX as nat, rest);
    }

    /// Always fails: an integer has no packing without a bound.
    fn compress(self) -> (r: Result<Compressed, CompressError>) {
        Err(CompressError::not_supported())
    }

    /// Packs the number under the bound `max_num`: its quotient by 8 in the
    /// bits that the bound's quotient needs, then its remainder in three
    /// bits. A number above the bound is an overflow.
    fn compress_to_binaries(self, max_num: Option<u128>) -> (r: Result<Compressed, CompressError>)
        ensures
            r is Ok ==> r.unwrap() is Binaries,
    {
        compress_unsigned(self as u128, max_num.unwrap())
    }

    /// The plan of a number under the bound `max_num`: one field of the
    /// bound's width.
    fn max_binaries(max_num: Option<u128>) -> (r: BinaryChunk)
        ensures
            r == BinaryChunk::Single(unsigned_width(max_num.unwrap() as nat) as usize),
    {
        BinaryChunk::Single(find_mult_8_bit_size(max_num.unwrap()) + 3)
    }

    /// Reads a number from a packed value that holds nothing else: all of
    /// its bits are the field.
    fn decompress(compressed: Compressed) -> (r: Result<u64, DecompressError>) {
        match decompress_whole_unsigned(compressed, u64::MAX as u128) {
            Ok(value) => Ok(value as u64),
            Err(e) => Err(e),
        }
    }

    fn decompress_from_slice(bits: &[u8], bit_size: Option<usize>) -> (r: Result<
        (Self, usize),
        DecompressError,
    >) {
        match decompress_unsigned(bits, bit_size.unwrap(), u64::MAX as u128) {
            Ok(value) => Ok((value as u64, bit_size.unwrap())),
            Err(e) => Err(e),
        }
    }

    fn element_width(bit_size: Option<usize>) -> (r: Option<usize>) {
        bit_size
    }
}

impl Comprezable for u128 {
    open spec fn spec_bound_ok(max_num: Option<u128>) -> bool {
        max_num is Some
    }

    open spec fn spec_width_ok(bit_size: Option<usize>) -> bool {
        bit_size is Some && bit_size.unwrap() >= 3
    }

    open spec fn spec_bit_size(max_num: Option<u128>) -> Option<usize> {
        Some(unsigned_width(max_num.unwrap() as nat) as usize)
    }

    open spec fn spec_element_width(bit_size: Option<usize>) -> Option<usize> {
        bit_size
    }

    open spec fn spec_compress_error(self, max_num: Option<u128>) -> Option<CompressErrorKind> {
        if self > max_num.unwrap() {
            Some(CompressErrorKind::Overflow)
        } else {
            None
        }
    }

    open spec fn spec_packed(self, max_num: Option<u128>, bits: Seq<u8>) -> bool {
        self <= max_num.unwrap() && bits == packed(self as nat, max_num.unwrap() as nat)
    }

    open spec fn spec_faithful(self, max_num: Option<u128>) -> bool {
        true
    }

    open spec fn spec_decompress_from(bits: Seq<u8>, bit_size: Option<usize>) -> Result<
        (u128, nat),
        DecompressErrorKind,
    > {
        match read_unsigned(bits, bit_size.unwrap() as nat, u128::MAX as nat) {
            Ok((value, used)) => Ok((value as u128, used)),
            Err(kind) => Err(kind),
        }
    }

    /// An integer has no packing without a bound.
    open spec fn spec_whole_error(self) -> Option<CompressErrorKind> {
        Some(CompressErrorKind::DataNoSupported)
    }

    open spec fn spec_whole_packed(self, bits: Seq<u8>) -> bool {
        false
    }

    /// All of the bits are the field.
    open spec fn spec_decompress(bits: Seq<u8>) -> Result<u128, DecompressErrorKind> {
        match read_whole_unsigned(bits, u128::MAX as nat) {
            Ok(value) => Ok(value as u128),
            Err(kind) => Err(kind),
        }
    }

    proof fn lemma_shape(self, max_num: Option<u128>, bits: Seq<u8>) {
        lemma_packed_shape(self as nat, max_num.unwrap() as nat);
        lemma_bit_len_u128((max_num.unwrap() / 8) as u128);
    }

    proof fn lemma_read_back(self, max_num: Option<u128>, bits: Seq<u8>, rest: Seq<u8>) {
        lemma_packed_shape(self as nat, max_num.unwrap() as nat);
        lemma_bit_len_u128((max_num.unwrap() / 8) as u128);
        lemma_unsigned_round_trip(self as nat, max_num.unwrap() as nat, u128::MAX as nat, rest);
    }

    /// Always fails: an integer has no packing without a bound.
    fn compress(self) -> (r: Result<Compressed, CompressError>) {
        Err(CompressError::not_supported())
    }

    /// Packs the number under the bound `max_num`: its quotient by 8 in the
    /// bits that the bound's quotient needs, then its remainder in three
    /// bits. A number above the bound is an overflow.
    fn compress_to_binaries(self, max_num: Option<u128>) -> (r: Result<Compressed, CompressError>)
        ensures
            r is Ok ==> r.unwrap() is Binaries,
    {
        compress_unsigned(self, max_num.unwrap())
    }

    /// The plan of a number under the bound `max_num`: one field of the
    /// bound's width.
    fn max_binaries(max_num: Option<u128>) -> (r: BinaryChunk)
        ensures
            r == BinaryChunk::Single(unsigned_width(max_num.unwrap() as nat) as usize),
    {
        BinaryChunk::Single(find_mult_8_bit_size(max_num.unwrap()) + 3)
    }

    /// Reads a number from a packed value that holds nothing else: all of
    /// its bits are the field.
    fn decompress(compressed: Compressed) -> (r: Result<u128, DecompressError>) {
        match decompress_whole_unsigned(compressed, u128::MAX) {
            Ok(value) => Ok(value),
            Err(e) => Err(e),
        }
    }

    fn decompress_from_slice(bits: &[u8], bit_size: Option<usize>) -> (r: Result<
        (Self, usize),
        DecompressError,
    >) {
        match decompress_unsigned(bits, bit_size.unwrap(), u128::MAX) {
            Ok(value) => Ok((value, bit_size.unwrap())),
            Err(e) => Err(e),
        }
    }

    fn element_width(bit_size: Option<usize>) -> (r: Option<usize>) {
        bit_size
    }
}

impl Comprezable for i8 {
    open spec fn spec_bound_ok(max_num: Option<u128>) -> bool {
        max_num is Some
    }

    open spec fn spec_width_ok(bit_size: Option<usize>) -> bool {
        bit_size is Some && bit_size.unwrap() >= 4
    }

    open spec fn spec_bit_size(max_num: Option<u128>) -> Option<usize> {
        Some(signed_width(max_num.unwrap() as nat) as usize)
    }

    open spec fn spec_element_width(bit_size: Option<usize>) -> Option<usize> {
        bit_size
    }

    open spec fn spec_compress_error(self, max_num: Option<u128>) -> Option<CompressErrorKind> {
        if magnitude(self as int) > max_num.unwrap() {
            Some(CompressErrorKind::Overflow)
        } else {
            None
        }
    }

    open spec fn spec_packed(self, max_num: Option<u128>, bits: Seq<u8>) -> bool {
        magnitude(self as int) <= max_num.unwrap() && bits == signed_packed(
            self as int,
            max_num.unwrap() as nat,
        )
    }

    open spec fn spec_faithful(self, max_num: Option<u128>) -> bool {
        true
    }

    open spec fn spec_decompress_from(bits: Seq<u8>, bit_size: Option<usize>) -> Result<
        (i8, nat),
        DecompressErrorKind,
    > {
        match read_signed(bits, bit_size.unwrap() as nat, i8::MIN as int, i8::MAX as int) {
            Ok((value, used)) => Ok((value as i8, used)),
            Err(kind) => Err(kind),
        }
    }

    /// An integer has no packing without a bound.
    open spec fn spec_whole_error(self) -> Option<CompressErrorKind> {
        Some(CompressErrorKind::DataNoSupported)
    }

    open spec fn spec_whole_packed(self, bits: Seq<u8>) -> bool {
        false
    }

    /// All of the bits are the field.
    open spec fn spec_decompress(bits: Seq<u8>) -> Result<i8, DecompressErrorKind> {
        match read_whole_signed(bits, i8::MIN as int, i8::MAX as int) {
            Ok(value) => Ok(value as i8),
            Err(kind) => Err(kind),
        }
    }

    proof fn lemma_shape(self, max_num: Option<u128>, bits: Seq<u8>) {
        lemma_packed_shape(magnitude(self as int), max_num.unwrap() as nat);
        lemma_bit_len_u128((max_num.unwrap() / 8) as u128);
    }

    proof fn lemma_read_back(self, max_num: Option<u128>, bits: Seq<u8>, rest: Seq<u8>) {
        lemma_packed_shape(magnitude(self as int), max_num.unwrap() as nat);
        lemma_bit_len_u128((max_num.unwrap() / 8) as u128);
        lemma_signed_round_trip(
            self as int,
            max_num.unwrap() as nat,
            i8::MIN as int,
            i8::MAX as int,
            rest,
        );
    }

    /// Always fails: an integer has no packing without a bound.
    fn compress(self) -> (r: Result<Compressed, CompressError>) {
        Err(CompressError::not_supported())
    }

    /// Packs the number under the bound `max_num` on its magnitude: the sign
    /// bit, 1 unless the number is negative, then the packed magnitude. A
    /// magnitude above the bound is an overflow.
    fn compress_to_binaries(self, max_num: Option<u128>) -> (r: Result<Compressed, CompressError>)
        ensures
            r is Ok ==> r.unwrap() is Binaries,
    {
        compress_signed(self as i128, max_num.unwrap())
    }

    /// The plan of a number under the bound `max_num`: one field of the
    /// bound's width, sign bit included.
    fn max_binaries(max_num: Option<u128>) -> (r: BinaryChunk)
        ensures
            r == BinaryChunk::Single(signed_width(max_num.unwrap() as nat) as usize),
    {
        BinaryChunk::Single(find_mult_8_bit_size(max_num.unwrap()) + 4)
    }

    /// Reads a number from a packed value that holds nothing else: all of
    /// its bits are the sign and the field.
    fn decompress(compressed: Compressed) -> (r: Result<i8, DecompressError>) {
        match decompress_whole_signed(compressed, i8::MIN as i128, i8::MAX as i128) {
            Ok(value) => Ok(value as i8),
            Err(e) => Err(e),
        }
    }

    fn decompress_from_slice(bits: &[u8], bit_size: Option<usize>) -> (r: Result<
        (Self, usize),
        DecompressError,
    >) {
        match decompress_signed(bits, bit_size.unwrap(), i8::MIN as i128, i8::MAX as i128) {
            Ok(value) => Ok((value as i8, bit_size.unwrap())),
            Err(e) => Err(e),
        }
    }

    fn element_width(bit_size: Option<usize>) -> (r: Option<usize>) {
        bit_size
    }
}

impl Comprezable for i16 {
    open spec fn spec_bound_ok(max_num: Option<u128>) -> bool {
        max_num is Some
    }

    open spec fn spec_width_ok(bit_size: Option<usize>) -> bool {
        bit_size is Some && bit_size.unwrap() >= 4
    }

    open spec fn spec_bit_size(max_num: Option<u128>) -> Option<usize> {
        Some(signed_width(max_num.unwrap() as nat) as usize)
    }

    open spec fn spec_element_width(bit_size: Option<usize>) -> Option<usize> {
        bit_size
    }

    open spec fn spec_compress_error(self, max_num: Option<u128>) -> Option<CompressErrorKind> {
        if magnitude(self as int) > max_num.unwrap() {
            Some(CompressErrorKind::Overflow)
        } else {
            None
        }
    }

    open spec fn spec_packed(self, max_num: Option<u128>, bits: Seq<u8>) -> bool {
        magnitude(self as int) <= max_num.unwrap() && bits == signed_packed(
            self as int,
            max_num.unwrap() as nat,
        )
    }

    open spec fn spec_faithful(self, max_num: Option<u128>) -> bool {
        true
    }

    open spec fn spec_decompress_from(bits: Seq<u8>, bit_size: Option<usize>) -> Result<
        (i16, nat),
        DecompressErrorKind,
    > {
        match read_signed(bits, bit_size.unwrap() as nat, i16::MIN as int, i16::MAX as int) {
            Ok((value, used)) => Ok((value as i16, used)),
            Err(kind) => Err(kind),
        }
    }

    /// An integer has no packing without a bound.
    open spec fn spec_whole_error(self) -> Option<CompressErrorKind> {
        Some(CompressErrorKind::DataNoSupported)
    }

    open spec fn spec_whole_packed(self, bits: Seq<u8>) -> bool {
        false
    }

    /// All of the bits are the field.
    open spec fn spec_decompress(bits: Seq<u8>) -> Result<i16, DecompressErrorKind> {
        match read_whole_signed(bits, i16::MIN as int, i16::MAX as int) {
            Ok(value) => Ok(value as i16),
            Err(kind) => Err(kind),
        }
    }

    proof fn lemma_shape(self, max_num: Option<u128>, bits: Seq<u8>) {
        lemma_packed_shape(magnitude(self as int), max_num.unwrap() as nat);
        lemma_bit_len_u128((max_num.unwrap() / 8) as u128);
    }

    proof fn lemma_read_back(self, max_num: Option<u128>, bits: Seq<u8>, rest: Seq<u8>) {
        lemma_packed_shape(magnitude(self as int), max_num.unwrap() as nat);
        lemma_bit_len_u128((max_num.unwrap() / 8) as u128);
        lemma_signed_round_trip(
            self as int,
            max_num.unwrap() as nat,
            i16::MIN as int,
            i16::MAX as int,
            rest,
        );
    }

    /// Always fails: an integer has no packing without a bound.
    fn compress(self) -> (r: Result<Compressed, CompressError>) {
        Err(CompressError::not_supported())
    }

    /// Packs the number under the bound `max_num` on its magnitude: the sign
    /// bit, 1 unless the number is negative, then the packed magnitude. A
    /// magnitude above the bound is an overflow.
    fn compress_to_binaries(self, max_num: Option<u128>) -> (r: Result<Compressed, CompressError>)
        ensures
            r is Ok ==> r.unwrap() is Binaries,
    {
        compress_signed(self as i128, max_num.unwrap())
    }

    /// The plan of a number under the bound `max_num`: one field of the
    /// bound's width, sign bit included.
    fn max_binaries(max_num: Option<u128>) -> (r: BinaryChunk)
        ensures
            r == BinaryChunk::Single(signed_width(max_num.unwrap() as nat) as usize),
    {
        BinaryChunk::Single(find_mult_8_bit_size(max_num.unwrap()) + 4)
    }

    /// Reads a number from a packed value that holds nothing else: all of
    /// its bits are the sign and the field.
    fn decompress(compressed: Compressed) -> (r: Result<i16, DecompressError>) {
        match decompress_whole_signed(compressed, i16::MIN as i128, i16::MAX as i128) {
            Ok(value) => Ok(value as i16),
            Err(e) => Err(e),
        }
    }

    fn decompress_from_slice(bits: &[u8], bit_size: Option<usize>) -> (r: Result<
        (Self, usize),
        DecompressError,
    >) {
        match decompress_signed(bits, bit_size.unwrap(), i16::MIN as i128, i16::MAX as i128) {
            Ok(value) => Ok((value as i16, bit_size.unwrap())),
            Err(e) => Err(e),
        }
    }

    fn element_width(bit_size: Option<usize>) -> (r: Option<usize>) {
        bit_size
    }
}

impl Comprezable for i32 {
    open spec fn spec_bound_ok(max_num: Option<u128>) -> bool {
        max_num is Some
    }

    open spec fn spec_width_ok(bit_size: Option<usize>) -> bool {
        bit_size is Some && bit_size.unwrap() >= 4
    }

    open spec fn spec_bit_size(max_num: Option<u128>) -> Option<usize> {
        Some(signed_width(max_num.unwrap() as nat) as usize)
    }

    open spec fn spec_element_width(bit_size: Option<usize>) -> Option<usize> {
        bit_size
    }

    open spec fn spec_compress_error(self, max_num: Option<u128>) -> Option<CompressErrorKind> {
        if magnitude(self as int) > max_num.unwrap() {
            Some(CompressErrorKind::Overflow)
        } else {
            None
        }
    }

    open spec fn spec_packed(self, max_num: Option<u128>, bits: Seq<u8>) -> bool {
        magnitude(self as int) <= max_num.unwrap() && bits == signed_packed(
            self as int,
            max_num.unwrap() as nat,
        )
    }

    open spec fn spec_faithful(self, max_num: Option<u128>) -> bool {
        true
    }

    open spec fn spec_decompress_from(bits: Seq<u8>, bit_size: Option<usize>) -> Result<
        (i32, nat),
        DecompressErrorKind,
    > {
        match read_signed(bits, bit_size.unwrap() as nat, i32::MIN as int, i32::MAX as int) {
            Ok((value, used)) => Ok((value as i32, used)),
            Err(kind) => Err(kind),
        }
    }

    /// An integer has no packing without a bound.
    open spec fn spec_whole_error(self) -> Option<CompressErrorKind> {
        Some(CompressErrorKind::DataNoSupported)
    }

    open spec fn spec_whole_packed(self, bits: Seq<u8>) -> bool {
        false
    }

    /// All of the bits are the field.
    open spec fn spec_decompress(bits: Seq<u8>) -> Result<i32, DecompressErrorKind> {
        match read_whole_signed(bits, i32::MIN as int, i32::MAX as int) {
            Ok(value) => Ok(value as i32),
            Err(kind) => Err(kind),
        }
    }

    proof fn lemma_shape(self, max_num: Option<u128>, bits: Seq<u8>) {
        lemma_packed_shape(magnitude(self as int), max_num.unwrap() as nat);
        lemma_bit_len_u128((max_num.unwrap() / 8) as u128);
    }

    proof fn lemma_read_back(self, max_num: Option<u128>, bits: Seq<u8>, rest: Seq<u8>) {
        lemma_packed_shape(magnitude(self as int), max_num.unwrap() as nat);
        lemma_bit_len_u128((max_num.unwrap() / 8) as u128);
        lemma_signed_round_trip(
            self as int,
            max_num.unwrap() as nat,
            i32::MIN as int,
            i32::MAX as int,
            rest,
        );
    }

    /// Always fails: an integer has no packing without a bound.
    fn compress(self) -> (r: Result<Compressed, CompressError>) {
        Err(CompressError::not_supported())
    }

    /// Packs the number under the bound `max_num` on its magnitude: the sign
    /// bit, 1 unless the number is negative, then the packed magnitude. A
    /// magnitude above the bound is an overflow.
    fn compress_to_binaries(self, max_num: Option<u128>) -> (r: Result<Compressed, CompressError>)
        ensures
            r is Ok ==> r.unwrap() is Binaries,
    {
        compress_signed(self as i128, max_num.unwrap())
    }

    /// The plan of a number under the bound `max_num`: one field of the
    /// bound's width, sign bit included.
    fn max_binaries(max_num: Option<u128>) -> (r: BinaryChunk)
        ensures
            r == BinaryChunk::Single(signed_width(max_num.unwrap() as nat) as usize),
    {
        BinaryChunk::Single(find_mult_8_bit_size(max_num.unwrap()) + 4)
    }

    /// Reads a number from a packed value that holds nothing else: all of
    /// its bits are the sign and the field.
    fn decompress(compressed: Compressed) -> (r: Result<i32, DecompressError>) {
        match decompress_whole_signed(compressed, i32::MIN as i128, i32::MAX as i128) {
            Ok(value) => Ok(value as i32),
            Err(e) => Err(e),
        }
    }

    fn decompress_from_slice(bits: &[u8], bit_size: Option<usize>) -> (r: Result<
        (Self, usize),
        DecompressError,
    >) {
        match decompress_signed(bits, bit_size.unwrap(), i32::MIN as i128, i32::MAX as i128) {
            Ok(value) => Ok((value as i32, bit_size.unwrap())),
            Err(e) => Err(e),
        }
    }

    fn element_width(bit_size: Option<usize>) -> (r: Option<usize>) {
        bit_size
    }
}

impl Comprezable for i64 {
    open spec fn spec_bound_ok(max_num: Option<u128>) -> bool {
        max_num is Some
    }

    open spec fn spec_width_ok(bit_size: Option<usize>) -> bool {
        bit_size is Some && bit_size.unwrap() >= 4
    }

    open spec fn spec_bit_size(max_num: Option<u128>) -> Option<usize> {
        Some(signed_width(max_num.unwrap() as nat) as usize)
    }

    open spec fn spec_element_width(bit_size: Option<usize>) -> Option<usize> {
        bit_size
    }

    open spec fn spec_compress_error(self, max_num: Option<u128>) -> Option<CompressErrorKind> {
        if magnitude(self as int) > max_num.unwrap() {
            Some(CompressErrorKind::Overflow)
        } else {
            None
        }
    }

    open spec fn spec_packed(self, max_num: Option<u128>, bits: Seq<u8>) -> bool {
        magnitude(self as int) <= max_num.unwrap() && bits == signed_packed(
            self as int,
            max_num.unwrap() as nat,
        )
    }

    open spec fn spec_faithful(self, max_num: Option<u128>) -> bool {
        true
    }

    open spec fn spec_decompress_from(bits: Seq<u8>, bit_size: Option<usize>) -> Result<
        (i64, nat),
        DecompressErrorKind,
    > {
        match read_signed(bits, bit_size.unwrap() as nat, i64::MIN as int, i64::MAX as int) {
            Ok((value, used)) => Ok((value as i64, used)),
            Err(kind) => Err(kind),
        }
    }

    /// An integer has no packing without a bound.
    open spec fn spec_whole_error(self) -> Option<CompressErrorKind> {
        Some(CompressErrorKind::DataNoSupported)
    }

    open spec fn spec_whole_packed(self, bits: Seq<u8>) -> bool {
        false
    }

    /// All of the bits are the field.
    open spec fn spec_decompress(bits: Seq<u8>) -> Result<i64, DecompressErrorKind> {
        match read_whole_signed(bits, i64::MIN as int, i64::MAX as int) {
            Ok(value) => Ok(value as i64),
            Err(kind) => Err(kind),
        }
    }

    proof fn lemma_shape(self, max_num: Option<u128>, bits: Seq<u8>) {
        lemma_packed_shape(magnitude(self as int), max_num.unwrap() as nat);
        lemma_bit_len_u128((max_num.unwrap() / 8) as u128);
    }

    proof fn lemma_read_back(self, max_num: Option<u128>, bits: Seq<u8>, rest: Seq<u8>) {
        lemma_packed_shape(magnitude(self as int), max_num.unwrap() as nat);
        lemma_bit_len_u128((max_num.unwrap() / 8) as u128);
        lemma_signed_round_trip(
            self as int,
            max_num.unwrap() as nat,
            i64::MIN as int,
            i64::MAX as int,
            rest,
        );
    }

    /// Always fails: an integer has no packing without a bound.
    fn compress(self) -> (r: Result<Compressed, CompressError>) {
        Err(CompressError::not_supported())
    }

    /// Packs the number under the bound `max_num` on its magnitude: the sign
    /// bit, 1 unless the number is negative, then the packed magnitude. A
    /// magnitude above the bound is an overflow.
    fn compress_to_binaries(self, max_num: Option<u128>) -> (r: Result<Compressed, CompressError>)
        ensures
            r is Ok ==> r.unwrap() is Binaries,
    {
        compress_signed(self as i128, max_num.unwrap())
    }

    /// The plan of a number under the bound `max_num`: one field of the
    /// bound's width, sign bit included.
    fn max_binaries(max_num: Option<u128>) -> (r: BinaryChunk)
        ensures
            r == BinaryChunk::Single(signed_width(max_num.unwrap() as nat) as usize),
    {
        BinaryChunk::Single(find_mult_8_bit_size(max_num.unwrap()) + 4)
    }

    /// Reads a number from a packed value that holds nothing else: all of
    /// its bits are the sign and the field.
    fn decompress(compressed: Compressed) -> (r: Result<i64, DecompressError>) {
        match decompress_whole_signed(compressed, i64::MIN as i128, i64::MAX as i128) {
            Ok(value) => Ok(value as i64),
            Err(e) => Err(e),
        }
    }

    fn decompress_from_slice(bits: &[u8], bit_size: Option<usize>) -> (r: Result<
        (Self, usize),
        DecompressError,
    >) {
        match decompress_signed(bits, bit_size.unwrap(), i64::MIN as i128, i64::MAX as i128) {
            Ok(value) => Ok((value as i64, bit_size.unwrap())),
            Err(e) => Err(e),
        }
    }

    fn element_width(bit_size: Option<usize>) -> (r: Option<usize>) {
        bit_size
    }
}

impl Comprezable for i128 {
    open spec fn spec_bound_ok(max_num: Option<u128>) -> bool {
        max_num is Some
    }

    open spec fn spec_width_ok(bit_size: Option<usize>) -> bool {
        bit_size is Some && bit_size.unwrap() >= 4
    }

    open spec fn spec_bit_size(max_num: Option<u128>) -> Option<usize> {
        Some(signed_width(max_num.unwrap() as nat) as usize)
    }

    open spec fn spec_element_width(bit_size: Option<usize>) -> Option<usize> {
        bit_size
    }

    open spec fn spec_compress_error(self, max_num: Option<u128>) -> Option<CompressErrorKind> {
        if magnitude(self as int) > max_num.unwrap() {
            Some(CompressErrorKind::Overflow)
        } else {
            None
        }
    }

    open spec fn spec_packed(self, max_num: Option<u128>, bits: Seq<u8>) -> bool {
        magnitude(self as int) <= max_num.unwrap() && bits == signed_packed(
            self as int,
            max_num.unwrap() as nat,
        )
    }

    open spec fn spec_faithful(self, max_num: Option<u128>) -> bool {
        true
    }

    open spec fn spec_decompress_from(bits: Seq<u8>, bit_size: Option<usize>) -> Result<
        (i128, nat),
        DecompressErrorKind,
    > {
        match read_signed(bits, bit_size.unwrap() as nat, i128::MIN as int, i128::MAX as int) {
            Ok((value, used)) => Ok((value as i128, used)),
            Err(kind) => Err(kind),
        }
    }

    /// An integer has no packing without a bound.
    open spec fn spec_whole_error(self) -> Option<CompressErrorKind> {
        Some(CompressErrorKind::DataNoSupported)
    }

    open spec fn spec_whole_packed(self, bits: Seq<u8>) -> bool {
        false
    }

    /// All of the bits are the field.
    open spec fn spec_decompress(bits: Seq<u8>) -> Result<i128, DecompressErrorKind> {
        match read_whole_signed(bits, i128::MIN as int, i128::MAX as int) {
            Ok(value) => Ok(value as i128),
            Err(kind) => Err(kind),
        }
    }

    proof fn lemma_shape(self, max_num: Option<u128>, bits: Seq<u8>) {
        lemma_packed_shape(magnitude(self as int), max_num.unwrap() as nat);
        lemma_bit_len_u128((max_num.unwrap() / 8) as u128);
    }

    proof fn lemma_read_back(self, max_num: Option<u128>, bits: Seq<u8>, rest: Seq<u8>) {
        lemma_packed_shape(magnitude(self as int), max_num.unwrap() as nat);
        lemma_bit_len_u128((max_num.unwrap() / 8) as u128);
        lemma_signed_round_trip(
            self as int,
            max_num.unwrap() as nat,
            i128::MIN as int,
            i128::MAX as int,
            rest,
        );
    }

    /// Always fails: an integer has no packing without a bound.
    fn compress(self) -> (r: Result<Compressed, CompressError>) {
        Err(CompressError::not_supported())
    }

    /// Packs the number under the bound `max_num` on its magnitude: the sign
    /// bit, 1 unless the number is negative, then the packed magnitude. A
    /// magnitude above the bound is an overflow.
    fn compress_to_binaries(self, max_num: Option<u128>) -> (r: Result<Compressed, CompressError>)
        ensures
            r is Ok ==> r.unwrap() is Binaries,
    {
        compress_signed(self, max_num.unwrap())
    }

    /// The plan of a number under the bound `max_num`: one field of the
    /// bound's width, sign bit included.
    fn max_binaries(max_num: Option<u128>) -> (r: BinaryChunk)
        ensures
            r == BinaryChunk::Single(signed_width(max_num.unwrap() as nat) as usize),
    {
        BinaryChunk::Single(find_mult_8_bit_size(max_num.unwrap()) + 4)
    }

    /// Reads a number from a packed value that holds nothing else: all of
    /// its bits are the sign and the field.
    fn decompress(compressed: Compressed) -> (r: Result<i128, DecompressError>) {
        match decompress_whole_signed(compressed, i128::MIN, i128::MAX) {
            Ok(value) => Ok(value),
            Err(e) => Err(e),
        }
    }

    fn decompress_from_slice(bits: &[u8], bit_size: Option<usize>) -> (r: Result<
        (Self, usize),
        DecompressError,
    >) {
        match decompress_signed(bits, bit_size.unwrap(), i128::MIN, i128::MAX) {
            Ok(value) => Ok((value, bit_size.unwrap())),
            Err(e) => Err(e),
        }
    }

    fn element_width(bit_size: Option<usize>) -> (r: Option<usize>) {
        bit_size
    }
}

} // verus!
