//! Reading the numbers that the packers of fixed size wrote.

use vstd::prelude::*;
use vstd::string::StringExecFns;
use crate::bits::{bytes_to_bits, is_bits, lemma_bytes_to_bits_shape};
use crate::comprezable::number_of;
use crate::error::{DecompressError, DecompressErrorKind};
use crate::text::{decimal, decimal_text};
use crate::to_binary;
use crate::unsigned::{even_unpacked, lemma_value_below, marked_unpacked, Unsigned};

verus! {

/// The error of `given` bytes where `wanted` says how many there should be.
pub fn wrong_length(given: usize, wanted: &str) -> (e: DecompressError)
    ensures
        e.kind() == DecompressErrorKind::WrongBytesLength,
        e.spec_message() == DecompressError::full_message(
            DecompressErrorKind::WrongBytesLength,
            "given: "@ + decimal_text(given as nat) + "-length, shouldbe: "@ + wanted@
                + "-length"@,
        ),
{
    let mut detail = String::from_str("given: ");
    detail.append(decimal(given as u128).as_str());
    detail.append("-length, shouldbe: ");
    detail.append(wanted);
    detail.append("-length");
    DecompressError::wrong_length(detail.as_str())
}

/// The even number that `binaries` hold: the first `split_at` bits times 30,
/// plus twice the four bits after them.
pub fn decompress_num_even(binaries: &Vec<u8>, split_at: usize) -> (r: u64)
    requires
        is_bits(binaries@),
        binaries.len() == split_at + 4,
        split_at <= 28,
    ensures
        r == even_unpacked(binaries@, split_at as nat),
{
    proof {
        vstd::arithmetic::power2::lemma2_to64();
        assert(binaries@.take(split_at as int) =~= binaries@.subrange(0, split_at as int));
        assert(binaries@.skip(split_at as int) =~= binaries@.subrange(
            split_at as int,
            binaries.len() as int,
        ));
        lemma_value_below(binaries@.take(split_at as int));
        lemma_value_below(binaries@.skip(split_at as int));
        vstd::arithmetic::power2::lemma_pow2_strictly_increases(split_at as nat, 29);
    }
    let mult_25 = number_of(binaries.as_slice(), 0, split_at, u128::MAX);
    let remainder = number_of(binaries.as_slice(), split_at, binaries.len(), u128::MAX);
    match (mult_25, remainder) {
        (Some(mult_25), Some(remainder)) => (mult_25 as u64) * 30 + (remainder as u64) * 2,
        _ => 0,
    }
}

/// The number that `binaries` hold: the first `split_at` bits times 30, plus
/// the four bits after the marker, plus 15 where the marker is 1.
pub fn decompress_num(binaries: &Vec<u8>, split_at: usize) -> (r: u64)
    requires
        is_bits(binaries@),
        binaries.len() == split_at + 5,
        split_at <= 27,
    ensures
        r == marked_unpacked(binaries@, split_at as nat),
{
    proof {
        vstd::arithmetic::power2::lemma2_to64();
        assert(binaries@.take(split_at as int) =~= binaries@.subrange(0, split_at as int));
        assert(binaries@.skip(split_at as int + 1) =~= binaries@.subrange(
            split_at as int + 1,
            binaries.len() as int,
        ));
        lemma_value_below(binaries@.take(split_at as int));
        lemma_value_below(binaries@.skip(split_at as int + 1));
        vstd::arithmetic::power2::lemma_pow2_strictly_increases(split_at as nat, 28);
    }
    let mult_25 = number_of(binaries.as_slice(), 0, split_at, u128::MAX);
    let remainder = number_of(binaries.as_slice(), split_at + 1, binaries.len(), u128::MAX);
    let minus_15: u64 = if binaries[split_at] == 1 {
        15
    } else {
        0
    };
    match (mult_25, remainder) {
        (Some(mult_25), Some(remainder)) => (mult_25 as u64) * 30 + (remainder as u64) + minus_15,
        _ => 0,
    }
}

impl Unsigned {
    /// Reads the even number that one byte holds. Any other number of bytes
    /// is refused as a wrong length.
    pub fn decompress_478_even(bytes: Vec<u8>) -> (r: Result<u32, DecompressError>)
        ensures
            bytes.len() != 1 ==> r is Err && r.unwrap_err().kind()
                == DecompressErrorKind::WrongBytesLength,
            bytes.len() == 1 ==> r == Ok::<u32, DecompressError>(
                even_unpacked(bytes_to_bits(bytes@), 4) as u32,
            ) && even_unpacked(bytes_to_bits(bytes@), 4) <= 480,
    {
        if bytes.len() != 1 {
            return Err(wrong_length(bytes.len(), "1"));
        }
        proof {
            lemma_bytes_to_bits_shape(bytes@);
        }
        let binaries = to_binary(bytes.as_slice());
        let num = decompress_num_even(&binaries, 4);
        proof {
            vstd::arithmetic::power2::lemma2_to64();
            lemma_value_below(binaries@.take(4));
            lemma_value_below(binaries@.skip(4));
        }
        Ok(num as u32)
    }

    /// Reads the even number that two bytes hold. Any other number of bytes
    /// is refused as a wrong length.
    pub fn decompress_122_878_even(bytes: Vec<u8>) -> (r: Result<u32, DecompressError>)
        ensures
            bytes.len() != 2 ==> r is Err && r.unwrap_err().kind()
                == DecompressErrorKind::WrongBytesLength,
            bytes.len() == 2 ==> r == Ok::<u32, DecompressError>(
                even_unpacked(bytes_to_bits(bytes@), 12) as u32,
            ) && even_unpacked(bytes_to_bits(bytes@), 12) <= 122_880,
    {
        if bytes.len() != 2 {
            return Err(wrong_length(bytes.len(), "2"));
        }
        proof {
            lemma_bytes_to_bits_shape(bytes@);
        }
        let binaries = to_binary(bytes.as_slice());
        let num = decompress_num_even(&binaries, 12);
        proof {
            vstd::arithmetic::power2::lemma2_to64();
            lemma_value_below(binaries@.take(12));
            lemma_value_below(binaries@.skip(12));
        }
        Ok(num as u32)
    }

    /// Reads the number that two bytes hold. Any other number of bytes is
    /// refused as a wrong length.
    pub fn decompress_61_439(bytes: Vec<u8>) -> (r: Result<u32, DecompressError>)
        ensures
            bytes.len() != 2 ==> r is Err && r.unwrap_err().kind()
                == DecompressErrorKind::WrongBytesLength,
            bytes.len() == 2 ==> r == Ok::<u32, DecompressError>(
                marked_unpacked(bytes_to_bits(bytes@), 11) as u32,
            ) && marked_unpacked(bytes_to_bits(bytes@), 11) <= 61_440,
    {
        if bytes.len() != 2 {
            return Err(wrong_length(bytes.len(), "2"));
        }
        proof {
            lemma_bytes_to_bits_shape(bytes@);
        }
        let binaries = to_binary(bytes.as_slice());
        let num = decompress_num(&binaries, 11);
        proof {
            vstd::arithmetic::power2::lemma2_to64();
            lemma_value_below(binaries@.take(11));
            lemma_value_below(binaries@.skip(12));
        }
        Ok(num as u32)
    }

    /// Reads the even number that three bytes hold. Any other number of bytes
    /// is refused as a wrong length.
    pub fn decompress_31_457_278_even(bytes: Vec<u8>) -> (r: Result<u64, DecompressError>)
        ensures
            bytes.len() != 3 ==> r is Err && r.unwrap_err().kind()
                == DecompressErrorKind::WrongBytesLength,
            bytes.len() == 3 ==> r == Ok::<u64, DecompressError>(
                even_unpacked(bytes_to_bits(bytes@), 20) as u64,
            ),
    {
        if bytes.len() != 3 {
            return Err(wrong_length(bytes.len(), "3"));
        }
        proof {
            lemma_bytes_to_bits_shape(bytes@);
        }
        let binaries = to_binary(bytes.as_slice());
        Ok(decompress_num_even(&binaries, 20))
    }

    /// Reads the number that three bytes hold. Any other number of bytes is
    /// refused as a wrong length.
    pub fn decompress_15_728_639(bytes: Vec<u8>) -> (r: Result<u64, DecompressError>)
        ensures
            bytes.len() != 3 ==> r is Err && r.unwrap_err().kind()
                == DecompressErrorKind::WrongBytesLength,
            bytes.len() == 3 ==> r == Ok::<u64, DecompressError>(
                marked_unpacked(bytes_to_bits(bytes@), 19) as u64,
            ),
    {
        if bytes.len() != 3 {
            return Err(wrong_length(bytes.len(), "3"));
        }
        proof {
            lemma_bytes_to_bits_shape(bytes@);
        }
        let binaries = to_binary(bytes.as_slice());
        Ok(decompress_num(&binaries, 19))
    }

    /// Reads the even number that four bytes hold. Any other number of bytes
    /// is refused as a wrong length.
    pub fn decompress_8_053_063_678_even(bytes: Vec<u8>) -> (r: Result<u64, DecompressError>)
        ensures
            bytes.len() != 4 ==> r is Err && r.unwrap_err().kind()
                == DecompressErrorKind::WrongBytesLength,
            bytes.len() == 4 ==> r == Ok::<u64, DecompressError>(
                even_unpacked(bytes_to_bits(bytes@), 28) as u64,
            ),
    {
        if bytes.len() != 4 {
            return Err(wrong_length(bytes.len(), "4"));
        }
        proof {
            lemma_bytes_to_bits_shape(bytes@);
        }
        let binaries = to_binary(bytes.as_slice());
        Ok(decompress_num_even(&binaries, 28))
    }

    /// Reads the number that four bytes hold. Any other number of bytes is
    /// refused as a wrong length.
    pub fn decompress_4_026_531_839(bytes: Vec<u8>) -> (r: Result<u64, DecompressError>)
        ensures
            bytes.len() != 4 ==> r is Err && r.unwrap_err().kind()
                == DecompressErrorKind::WrongBytesLength,
            bytes.len() == 4 ==> r == Ok::<u64, DecompressError>(
                marked_unpacked(bytes_to_bits(bytes@), 27) as u64,
            ),
    {
        if bytes.len() != 4 {
            return Err(wrong_length(bytes.len(), "4"));
        }
        proof {
            lemma_bytes_to_bits_shape(bytes@);
        }
        let binaries = to_binary(bytes.as_slice());
        Ok(decompress_num(&binaries, 27))
    }
}

} // verus!
