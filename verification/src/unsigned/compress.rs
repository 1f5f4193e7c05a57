//! Packing numbers below a fixed cap into a fixed number of bytes.

use vstd::prelude::*;
use crate::bits::{bits_to_bytes, lemma_bit_len_bound, lemma_bits_of_shape};
use crate::comprezable::encode;
use crate::error::{CompressError, CompressErrorKind};
use crate::text::decimal;
use crate::unsigned::{even_packed, marked_packed, Unsigned};
use crate::Compressed;

verus! {

/// The bytes of an even number: its quotient by 30 in `width` bits, then half
/// its remainder in four bits.
pub fn pack_even(num: u64, width: usize) -> (r: Vec<u8>)
    requires
        num / 30 < vstd::arithmetic::power2::pow2(width as nat),
        (width + 4) % 8 == 0,
        width <= 60,
    ensures
        r@ == bits_to_bytes(even_packed(num as nat, width as nat)),
        r.len() == (width + 4) / 8,
{
    let mult_25 = num / 30;
    let remainder = num % 30;
    let mut mult_25_bit = encode(mult_25 as u128, width);
    let mut remainder_bit = encode((remainder / 2) as u128, 4);
    proof {
        vstd::arithmetic::power2::lemma2_to64();
        lemma_bit_len_bound(mult_25 as nat, width as nat);
        lemma_bit_len_bound((remainder / 2) as nat, 4);
        lemma_bits_of_shape(mult_25 as nat, width as nat);
        lemma_bits_of_shape((remainder / 2) as nat, 4);
    }
    mult_25_bit.append(&mut remainder_bit);
    Compressed::Binaries(mult_25_bit).to_bytes()
}

/// The bytes of any number: its quotient by 30 in `width` bits, then a
/// marker bit, then its remainder, lowered by 15 where the marker is 1, in
/// four bits.
pub fn pack_marked(num: u64, width: usize) -> (r: Vec<u8>)
    requires
        num / 30 < vstd::arithmetic::power2::pow2(width as nat),
        (width + 5) % 8 == 0,
        width <= 59,
    ensures
        r@ == bits_to_bytes(marked_packed(num as nat, width as nat)),
        r.len() == (width + 5) / 8,
{
    let mult_25 = num / 30;
    let mut remainder = num % 30;
    let mut mult_25_bit = encode(mult_25 as u128, width);
    let minus_12 = if remainder > 15 {
        remainder -= 15;
        1u8
    } else {
        0u8
    };
    let mut remainder_bit = encode(remainder as u128, 4);
    proof {
        vstd::arithmetic::power2::lemma2_to64();
        lemma_bit_len_bound(mult_25 as nat, width as nat);
        lemma_bit_len_bound(remainder as nat, 4);
        lemma_bits_of_shape(mult_25 as nat, width as nat);
        lemma_bits_of_shape(remainder as nat, 4);
    }
    mult_25_bit.push(minus_12);
    mult_25_bit.append(&mut remainder_bit);
    proof {
        assert(mult_25_bit@ =~= marked_packed(num as nat, width as nat));
    }
    Compressed::Binaries(mult_25_bit).to_bytes()
}

impl Unsigned {
    /// Packs an even number up to 478 into one byte. An odd number is
    /// refused as not even, an even number above the cap as an overflow.
    pub fn compress_478_even(num: u32) -> (r: Result<[u8; 1], CompressError>)
        ensures
            num % 2 != 0 ==> r is Err && r.unwrap_err().kind() == CompressErrorKind::NotEven,
            num % 2 == 0 && num > 478 ==> r is Err && r.unwrap_err().kind()
                == CompressErrorKind::Overflow,
            num % 2 == 0 && num <= 478 ==> r is Ok && r.unwrap()@ == bits_to_bytes(
                even_packed(num as nat, 4),
            ),
    {
        if num % 2 != 0 {
            return Err(CompressError::not_even(decimal(num as u128).as_str()));
        }
        if num > 479 {
            return Err(CompressError::overflow(decimal(num as u128).as_str(), "478"));
        }
        proof {
            vstd::arithmetic::power2::lemma2_to64();
        }
        let res = pack_even(num as u64, 4);
        let bytes = [res[0]];
        assert(bytes@ =~= res@);
        Ok(bytes)
    }

    /// Packs an even number up to 122 878 into two bytes. An odd number is
    /// refused as not even, an even number above the cap as an overflow.
    pub fn compress_122_878_even(num: u32) -> (r: Result<[u8; 2], CompressError>)
        ensures
            num % 2 != 0 ==> r is Err && r.unwrap_err().kind() == CompressErrorKind::NotEven,
            num % 2 == 0 && num > 122_878 ==> r is Err && r.unwrap_err().kind()
                == CompressErrorKind::Overflow,
            num % 2 == 0 && num <= 122_878 ==> r is Ok && r.unwrap()@ == bits_to_bytes(
                even_packed(num as nat, 12),
            ),
    {
        if num % 2 != 0 {
            return Err(CompressError::not_even(decimal(num as u128).as_str()));
        }
        if num > 122_878 {
            return Err(CompressError::overflow(decimal(num as u128).as_str(), "122_878"));
        }
        proof {
            vstd::arithmetic::power2::lemma2_to64();
        }
        let res = pack_even(num as u64, 12);
        let bytes = [res[0], res[1]];
        assert(bytes@ =~= res@);
        Ok(bytes)
    }

    /// Packs a number up to 61 439 into two bytes. A number above the cap is
    /// refused as an overflow.
    pub fn compress_61_439(num: u32) -> (r: Result<[u8; 2], CompressError>)
        ensures
            num > 61_439 ==> r is Err && r.unwrap_err().kind() == CompressErrorKind::Overflow,
            num <= 61_439 ==> r is Ok && r.unwrap()@ == bits_to_bytes(
                marked_packed(num as nat, 11),
            ),
    {
        if num > 61_439 {
            return Err(CompressError::overflow(decimal(num as u128).as_str(), "61_439"));
        }
        proof {
            vstd::arithmetic::power2::lemma2_to64();
        }
        let res = pack_marked(num as u64, 11);
        let bytes = [res[0], res[1]];
        assert(bytes@ =~= res@);
        Ok(bytes)
    }

    /// Packs an even number up to 31 457 278 into three bytes. An odd number
    /// is refused as not even, an even number above the cap as an overflow.
    pub fn compress_31_457_278_even(num: u64) -> (r: Result<[u8; 3], CompressError>)
        ensures
            num % 2 != 0 ==> r is Err && r.unwrap_err().kind() == CompressErrorKind::NotEven,
            num % 2 == 0 && num > 31_457_278 ==> r is Err && r.unwrap_err().kind()
                == CompressErrorKind::Overflow,
            num % 2 == 0 && num <= 31_457_278 ==> r is Ok && r.unwrap()@ == bits_to_bytes(
                even_packed(num as nat, 20),
            ),
    {
        if num % 2 != 0 {
            return Err(CompressError::not_even(decimal(num as u128).as_str()));
        }
        if num > 31_457_278 {
            return Err(CompressError::overflow(decimal(num as u128).as_str(), "31_457_278"));
        }
        proof {
            vstd::arithmetic::power2::lemma2_to64();
        }
        let res = pack_even(num, 20);
        let bytes = [res[0], res[1], res[2]];
        assert(bytes@ =~= res@);
        Ok(bytes)
    }

    /// Packs a number up to 15 728 639 into three bytes. A number above the
    /// cap is refused as an overflow.
    pub fn compress_15_728_639(num: u64) -> (r: Result<[u8; 3], CompressError>)
        ensures
            num > 15_728_639 ==> r is Err && r.unwrap_err().kind() == CompressErrorKind::Overflow,
            num <= 15_728_639 ==> r is Ok && r.unwrap()@ == bits_to_bytes(
                marked_packed(num as nat, 19),
            ),
    {
        if num > 15_728_639 {
            return Err(CompressError::overflow(decimal(num as u128).as_str(), "15_728_639"));
        }
        proof {
            vstd::arithmetic::power2::lemma2_to64();
        }
        let res = pack_marked(num, 19);
        let bytes = [res[0], res[1], res[2]];
        assert(bytes@ =~= res@);
        Ok(bytes)
    }

    /// Packs an even number up to 8 053 063 678 into four bytes. An odd
    /// number is refused as not even, an even number above the cap as an
    /// overflow.
    pub fn compress_8_053_063_678_even(num: u64) -> (r: Result<[u8; 4], CompressError>)
        ensures
            num % 2 != 0 ==> r is Err && r.unwrap_err().kind() == CompressErrorKind::NotEven,
            num % 2 == 0 && num > 8_053_063_678 ==> r is Err && r.unwrap_err().kind()
                == CompressErrorKind::Overflow,
            num % 2 == 0 && num <= 8_053_063_678 ==> r is Ok && r.unwrap()@ == bits_to_bytes(
                even_packed(num as nat, 28),
            ),
    {
        if num % 2 != 0 {
            return Err(CompressError::not_even(decimal(num as u128).as_str()));
        }
        if num > 8_053_063_678 {
            return Err(CompressError::overflow(decimal(num as u128).as_str(), "8_053_063_678"));
        }
        proof {
            vstd::arithmetic::power2::lemma2_to64();
        }
        let res = pack_even(num, 28);
        let bytes = [res[0], res[1], res[2], res[3]];
        assert(bytes@ =~= res@);
        Ok(bytes)
    }

    /// Packs a number up to 4 026 531 839 into four bytes. A number above the
    /// cap is refused as an overflow.
    pub fn compress_4_026_531_839(num: u64) -> (r: Result<[u8; 4], CompressError>)
        ensures
            num > 4_026_531_839 ==> r is Err && r.unwrap_err().kind()
                == CompressErrorKind::Overflow,
            num <= 4_026_531_839 ==> r is Ok && r.unwrap()@ == bits_to_bytes(
                marked_packed(num as nat, 27),
            ),
    {
        if num > 4_026_531_839 {
            return Err(CompressError::overflow(decimal(num as u128).as_str(), "4_026_531_839"));
        }
        proof {
            vstd::arithmetic::power2::lemma2_to64();
        }
        let res = pack_marked(num, 27);
        let bytes = [res[0], res[1], res[2], res[3]];
        assert(bytes@ =~= res@);
        Ok(bytes)
    }
}

} // verus!
