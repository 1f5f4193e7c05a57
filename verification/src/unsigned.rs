//! Packers of fixed size for numbers below fixed caps: the quotient by 30,
//! then the remainder in four bits, halved for even numbers or lowered by 15
//! behind a marker bit for any number.

use vstd::prelude::*;
use crate::bits::{
    bits_of, bits_to_bytes, bits_value, bytes_to_bits, is_bits, lemma_bit_len_below,
    lemma_bit_len_bound, lemma_bits_of_shape, lemma_bits_round_trip, lemma_value_bit_len,
    lemma_value_of_numeral, padding, zeros,
};

pub mod compress;
pub mod decompress;


verus! {

/// The home of the packers of fixed size.
pub struct Unsigned;

/// The bits of an even number: its quotient by 30 in `width` bits, then half
/// its remainder in four bits.
pub open spec fn even_packed(num: nat, width: nat) -> Seq<u8> {
    bits_of(num / 30, width) + bits_of((num % 30) / 2, 4)
}

/// The marker of a number: 1 where its remainder by 30 is above 15.
pub open spec fn marker(num: nat) -> u8 {
    if num % 30 > 15 {
        1
    } else {
        0
    }
}

/// The bits of any number: its quotient by 30 in `width` bits, then the
/// marker, then the remainder, lowered by 15 where the marker is 1, in four
/// bits.
pub open spec fn marked_packed(num: nat, width: nat) -> Seq<u8> {
    bits_of(num / 30, width) + seq![marker(num)] + bits_of(
        if num % 30 > 15 {
            (num % 30 - 15) as nat
        } else {
            num % 30
        },
        4,
    )
}

/// The even number that `bits` hold: the first `width` bits times 30, plus
/// twice the bits after them.
pub open spec fn even_unpacked(bits: Seq<u8>, width: nat) -> nat {
    bits_value(bits.take(width as int)) * 30 + bits_value(bits.skip(width as int)) * 2
}

/// The number that `bits` hold: the first `width` bits times 30, plus the
/// bits after the marker, plus 15 where the marker is 1.
pub open spec fn marked_unpacked(bits: Seq<u8>, width: nat) -> nat {
    let high = bits_value(bits.take(width as int));
    let low = bits_value(bits.skip(width as int + 1));
    high * 30 + low + if bits[width as int] == 1 {
        15nat
    } else {
        0nat
    }
}

/// A width holds every number below two to that width.
pub proof fn lemma_fits(n: nat, width: nat)
    requires
        n < vstd::arithmetic::power2::pow2(width),
    ensures
        bits_value(bits_of(n, width)) == n,
        bits_of(n, width).len() == width,
        is_bits(bits_of(n, width)),
{
    lemma_bit_len_bound(n, width);
    lemma_value_of_numeral(n, width);
    lemma_bits_of_shape(n, width);
}

/// The bits of an even number hold that number.
pub proof fn lemma_even_round_trip(num: nat, width: nat)
    requires
        num % 2 == 0,
        num / 30 < vstd::arithmetic::power2::pow2(width),
    ensures
        even_unpacked(even_packed(num, width), width) == num,
        even_packed(num, width).len() == width + 4,
        is_bits(even_packed(num, width)),
{
    let p = even_packed(num, width);
    vstd::arithmetic::power2::lemma2_to64();
    lemma_fits(num / 30, width);
    lemma_fits((num % 30) / 2, 4);
    assert(p.take(width as int) =~= bits_of(num / 30, width));
    assert(p.skip(width as int) =~= bits_of((num % 30) / 2, 4));
}

/// The bits of any number hold that number.
pub proof fn lemma_marked_round_trip(num: nat, width: nat)
    requires
        num / 30 < vstd::arithmetic::power2::pow2(width),
    ensures
        marked_unpacked(marked_packed(num, width), width) == num,
        marked_packed(num, width).len() == width + 5,
        is_bits(marked_packed(num, width)),
{
    let p = marked_packed(num, width);
    let low = if num % 30 > 15 {
        (num % 30 - 15) as nat
    } else {
        num % 30
    };
    vstd::arithmetic::power2::lemma2_to64();
    lemma_fits(num / 30, width);
    lemma_fits(low, 4);
    assert(p.take(width as int) =~= bits_of(num / 30, width));
    assert(p.skip(width as int + 1) =~= bits_of(low, 4));
    assert(p[width as int] == marker(num));
}

/// An even number whose bits fill whole bytes is read back from those bytes:
/// what the even packers write, the even readers read as the number packed.
pub proof fn lemma_even_bytes_round_trip(num: nat, width: nat)
    requires
        num % 2 == 0,
        num / 30 < vstd::arithmetic::power2::pow2(width),
        (width + 4) % 8 == 0,
    ensures
        even_unpacked(bytes_to_bits(bits_to_bytes(even_packed(num, width))), width) == num,
        bits_to_bytes(even_packed(num, width)).len() == (width + 4) / 8,
{
    let p = even_packed(num, width);
    lemma_even_round_trip(num, width);
    lemma_bits_round_trip(p);
    assert(padding(p.len()) == 0);
    assert(p + zeros(0) =~= p);
}

/// A number whose bits fill whole bytes is read back from those bytes: what
/// the packers of any number write, their readers read as the number packed.
pub proof fn lemma_marked_bytes_round_trip(num: nat, width: nat)
    requires
        num / 30 < vstd::arithmetic::power2::pow2(width),
        (width + 5) % 8 == 0,
    ensures
        marked_unpacked(bytes_to_bits(bits_to_bytes(marked_packed(num, width))), width) == num,
        bits_to_bytes(marked_packed(num, width)).len() == (width + 5) / 8,
{
    let p = marked_packed(num, width);
    lemma_marked_round_trip(num, width);
    lemma_bits_round_trip(p);
    assert(padding(p.len()) == 0);
    assert(p + zeros(0) =~= p);
}

/// Bits denote a number below two to their count.
pub proof fn lemma_value_below(s: Seq<u8>)
    requires
        is_bits(s),
    ensures
        bits_value(s) < vstd::arithmetic::power2::pow2(s.len()),
{
    lemma_value_bit_len(s);
    lemma_bit_len_below(bits_value(s), s.len());
}

} // verus!
