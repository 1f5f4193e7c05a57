//! The packing of a bounded integer: its quotient by 8 in as many bits as the
//! bound's quotient needs, then its remainder in three bits; for a signed
//! integer a sign bit goes first.

use vstd::prelude::*;
use crate::bits::{
    bit_len, bits_of, bits_value, is_bits, lemma_bit_len_bound, lemma_bit_len_monotonic,
    lemma_bits_of_shape, lemma_value_of_numeral,
};
use crate::error::DecompressErrorKind;

verus! {

/// The number of bits that hold the quotient by 8 of any value up to `bound`.
pub open spec fn quotient_width(bound: nat) -> nat {
    bit_len(bound / 8)
}

/// The number of bits of a packed unsigned value with this bound.
pub open spec fn unsigned_width(bound: nat) -> nat {
    quotient_width(bound) + 3
}

/// The number of bits of a packed signed value with this bound.
pub open spec fn signed_width(bound: nat) -> nat {
    quotient_width(bound) + 4
}

/// The packed form of `value` under `bound`: quotient, then remainder.
pub open spec fn packed(value: nat, bound: nat) -> Seq<u8> {
    bits_of(value / 8, quotient_width(bound)) + bits_of(value % 8, 3)
}

/// The absolute value.
pub open spec fn magnitude(value: int) -> nat {
    if value < 0 {
        (-value) as nat
    } else {
        value as nat
    }
}

/// The sign bit: 0 for a negative value, 1 for any other.
pub open spec fn sign_bit(value: int) -> u8 {
    if value < 0 {
        0
    } else {
        1
    }
}

/// The packed form of a signed `value` under `bound`: the sign bit, then the
/// packed magnitude.
pub open spec fn signed_packed(value: int, bound: nat) -> Seq<u8> {
    seq![sign_bit(value)] + packed(magnitude(value), bound)
}

/// The number that a field of quotient bits and three remainder bits holds.
pub open spec fn field_value(field: Seq<u8>) -> nat
    recommends
        field.len() >= 3,
{
    8 * bits_value(field.take(field.len() - 3)) + bits_value(field.skip(field.len() - 3))
}

/// Reads an unsigned value of `width` bits from the front of `bits`: the
/// value and the bits used. Fails where fewer than `width` bits are there,
/// where the field holds something else than bits, and where the value is
/// above `max`.
pub open spec fn read_unsigned(bits: Seq<u8>, width: nat, max: nat) -> Result<
    (nat, nat),
    DecompressErrorKind,
>
    recommends
        width >= 3,
{
    if bits.len() < width {
        Err(DecompressErrorKind::WrongBytesLength)
    } else if !is_bits(bits.take(width as int)) {
        Err(DecompressErrorKind::BinariesToIntErr)
    } else if field_value(bits.take(width as int)) > max {
        Err(DecompressErrorKind::BinariesToIntErr)
    } else {
        Ok((field_value(bits.take(width as int)), width))
    }
}

/// Reads a signed value of `width` bits from the front of `bits`: the value
/// and the bits used. Fails where fewer than `width` bits are there, where
/// the sign marker is neither 0 nor 1, where the field after it holds
/// something else than bits, and where the value is outside `min ..= max`.
pub open spec fn read_signed(bits: Seq<u8>, width: nat, min: int, max: int) -> Result<
    (int, nat),
    DecompressErrorKind,
>
    recommends
        width >= 4,
{
    if bits.len() < width {
        Err(DecompressErrorKind::WrongBytesLength)
    } else if bits[0] > 1 {
        Err(DecompressErrorKind::FromBinariesErr)
    } else if !is_bits(bits.subrange(1, width as int)) {
        Err(DecompressErrorKind::BinariesToIntErr)
    } else {
        let m = field_value(bits.subrange(1, width as int));
        let v = if bits[0] == 0 {
            -m
        } else {
            m as int
        };
        if v < min || v > max {
            Err(DecompressErrorKind::BinariesToIntErr)
        } else {
            Ok((v, width))
        }
    }
}

/// Three bits denote a number below 8.
pub proof fn lemma_three_bits(s: Seq<u8>)
    requires
        s.len() == 3,
        is_bits(s),
    ensures
        bits_value(s) == 4 * s[0] + 2 * s[1] + s[2],
        bits_value(s) < 8,
{
    let a = s.drop_last();
    let b = a.drop_last();
    let c = b.drop_last();
    assert(bits_value(c) == 0);
    assert(bits_value(b) == s[0] as nat);
    assert(bits_value(a) == 2 * s[0] + s[1]);
}

/// A packed value has the width of its bound and holds bits only.
pub proof fn lemma_packed_shape(value: nat, bound: nat)
    ensures
        packed(value, bound).len() == unsigned_width(bound),
        is_bits(packed(value, bound)),
{
    lemma_bits_of_shape(value / 8, quotient_width(bound));
    lemma_bits_of_shape(value % 8, 3);
}

/// The field of a packed value holds that value, if the value is within
/// the bound.
pub proof fn lemma_packed_value(value: nat, bound: nat)
    requires
        value <= bound,
    ensures
        field_value(packed(value, bound)) == value,
{
    let w = quotient_width(bound);
    let p = packed(value, bound);
    lemma_bits_of_shape(value / 8, w);
    lemma_bits_of_shape(value % 8, 3);
    assert(p.take(p.len() - 3) =~= bits_of(value / 8, w));
    assert(p.skip(p.len() - 3) =~= bits_of(value % 8, 3));
    lemma_bit_len_monotonic(value / 8, bound / 8);
    lemma_value_of_numeral(value / 8, w);
    assert(bit_len(value % 8) <= 3) by {
        vstd::arithmetic::power2::lemma2_to64();
        lemma_bit_len_bound(value % 8, 3);
    }
    lemma_value_of_numeral(value % 8, 3);
}

/// A larger bound never gives a narrower field: the width is monotonic in
/// the bound, for unsigned and for signed values.
pub proof fn lemma_width_monotonic(bound: nat, larger: nat)
    requires
        bound <= larger,
    ensures
        unsigned_width(bound) <= unsigned_width(larger),
        signed_width(bound) <= signed_width(larger),
{
    lemma_bit_len_monotonic(bound / 8, larger / 8);
}

/// Reading a packed unsigned value, whatever follows it, with the width of
/// its bound, gives the value back and takes exactly its bits.
pub proof fn lemma_unsigned_round_trip(value: nat, bound: nat, max: nat, rest: Seq<u8>)
    requires
        value <= bound,
        value <= max,
    ensures
        read_unsigned(packed(value, bound) + rest, unsigned_width(bound), max) == Ok::<
            (nat, nat),
            DecompressErrorKind,
        >((value, unsigned_width(bound))),
{
    let p = packed(value, bound);
    lemma_packed_shape(value, bound);
    lemma_packed_value(value, bound);
    assert((p + rest).take(unsigned_width(bound) as int) =~= p);
}

/// Reading a packed signed value, whatever follows it, with the width of its
/// bound, gives the value back, sign included, and takes exactly its bits.
pub proof fn lemma_signed_round_trip(value: int, bound: nat, min: int, max: int, rest: Seq<u8>)
    requires
        magnitude(value) <= bound,
        min <= value <= max,
    ensures
        read_signed(signed_packed(value, bound) + rest, signed_width(bound), min, max) == Ok::<
            (int, nat),
            DecompressErrorKind,
        >((value, signed_width(bound))),
{
    let m = magnitude(value);
    let p = packed(m, bound);
    let s = signed_packed(value, bound) + rest;
    lemma_packed_shape(m, bound);
    lemma_packed_value(m, bound);
    assert(s.subrange(1, signed_width(bound) as int) =~= p);
    assert(s[0] == sign_bit(value));
}

} // verus!
