//! The packing contract that every packable type meets, and the routines
//! that its instances share: numerals, fields and length prefixes.

use vstd::prelude::*;
use crate::bits::{
    bit_len, bits_of, bits_value, is_bits, lemma_bit_len_u128, lemma_value_prefix,
    lemma_value_push, numeral,
};
use crate::error::{CompressError, CompressErrorKind, DecompressError, DecompressErrorKind};
use crate::{BinaryChunk, Compressed};
use crate::metalength::{
    advanced, metalength, metalength_head, read_delimeter, read_groups, read_metalength,
    read_payload,
};
use crate::numeric::{field_value, lemma_three_bits, quotient_width};
use crate::text::{decimal, decimal_text, run};
use vstd::slice::slice_subrange;
use vstd::string::StringExecFns;

verus! {

/// `bits`, whatever follows them, are read with the width `bit_size` as the
/// value whose view is `value`, and no bit after them is taken.
pub open spec fn reads_back<T: Comprezable>(
    bits: Seq<u8>,
    bit_size: Option<usize>,
    value: T::V,
) -> bool {
    forall|rest: Seq<u8>| #[trigger]
        T::spec_decompress_from(bits + rest, bit_size) == Ok::<(T::V, nat), DecompressErrorKind>(
            (value, bits.len()),
        )
}

/// A type whose values can be packed into bits and read back from the front
/// of a bit stream.
pub trait Comprezable: Sized + DeepView {
    /// Whether values of this type can be packed under `max_num`: a type that
    /// is packed by its bound needs one.
    spec fn spec_bound_ok(max_num: Option<u128>) -> bool;

    /// Whether values of this type can be read with `bit_size`: a type that
    /// is read by its width needs one that holds its fixed part.
    spec fn spec_width_ok(bit_size: Option<usize>) -> bool;

    /// The width that the plan of this type under `max_num` hands to the
    /// reader.
    spec fn spec_bit_size(max_num: Option<u128>) -> Option<usize>;

    /// The number of bits of every packed value of this type that is read
    /// with `bit_size`, where all of them have the same; nothing for a type
    /// that says by a length prefix how long a packed value is.
    spec fn spec_element_width(bit_size: Option<usize>) -> Option<usize>;

    /// The kind of error that packing this value under `max_num` ends with,
    /// if it ends with one.
    spec fn spec_compress_error(self, max_num: Option<u128>) -> Option<CompressErrorKind>;

    /// Whether `bits` are a packed form of this value under `max_num`.
    spec fn spec_packed(self, max_num: Option<u128>, bits: Seq<u8>) -> bool;

    /// Whether this value, packed under `max_num`, is read back as itself.
    spec fn spec_faithful(self, max_num: Option<u128>) -> bool;

    /// What reading a value of this type from the front of `bits` with
    /// `bit_size` gives: the view of the value and the number of bits taken,
    /// or the kind of the error.
    spec fn spec_decompress_from(bits: Seq<u8>, bit_size: Option<usize>) -> Result<
        (Self::V, nat),
        DecompressErrorKind,
    >;

    /// The kind of error that packing this value whole ends with, if it ends
    /// with one.
    spec fn spec_whole_error(self) -> Option<CompressErrorKind>;

    /// Whether `bits` are a packed form of this value whole.
    spec fn spec_whole_packed(self, bits: Seq<u8>) -> bool;

    /// What reading a value of this type from bits that hold nothing else
    /// gives: the view of the value, or the kind of the error.
    spec fn spec_decompress(bits: Seq<u8>) -> Result<Self::V, DecompressErrorKind>;

    /// A packed form holds bits only and at least one; it has the width of
    /// its type where the type has a fixed one, and is made of whole bytes
    /// where the type delimits itself.
    proof fn lemma_shape(self, max_num: Option<u128>, bits: Seq<u8>)
        requires
            Self::spec_bound_ok(max_num),
            self.spec_packed(max_num, bits),
        ensures
            is_bits(bits),
            bits.len() > 0,
            match Self::spec_element_width(Self::spec_bit_size(max_num)) {
                Some(width) => bits.len() == width,
                None => bits.len() % 8 == 0,
            },
    ;

    /// Round trip: a packed form of a faithful value, whatever follows it, is
    /// read with the width of its bound as that value, and no bit after it is
    /// taken.
    proof fn lemma_read_back(self, max_num: Option<u128>, bits: Seq<u8>, rest: Seq<u8>)
        requires
            Self::spec_bound_ok(max_num),
            self.spec_packed(max_num, bits),
            self.spec_faithful(max_num),
        ensures
            Self::spec_decompress_from(bits + rest, Self::spec_bit_size(max_num)) == Ok::<
                (Self::V, nat),
                DecompressErrorKind,
            >((self.deep_view(), bits.len())),
    ;

    /// Packs this value whole, as composite values are packed: a packed form
    /// of it, or the error that `spec_whole_error` names.
    fn compress(self) -> (r: Result<Compressed, CompressError>)
        ensures
            match self.spec_whole_error() {
                Some(kind) => r is Err && r.unwrap_err().kind() == kind,
                None => r is Ok && self.spec_whole_packed(r.unwrap().bits()),
            },
    ;

    /// Packs this value under the bound `max_num`: a packed form of it, or
    /// the error that `spec_compress_error` names.
    fn compress_to_binaries(self, max_num: Option<u128>) -> (r: Result<Compressed, CompressError>)
        requires
            Self::spec_bound_ok(max_num),
        ensures
            match self.spec_compress_error(max_num) {
                Some(kind) => r is Err && r.unwrap_err().kind() == kind,
                None => r is Ok && self.spec_packed(max_num, r.unwrap().bits()),
            },
    ;

    /// The plan by which a value of this type, packed under `max_num`, is
    /// found again in a bit stream: it hands the reader the width of the
    /// bound, and values of this type can be read with that width.
    fn max_binaries(max_num: Option<u128>) -> (r: BinaryChunk)
        requires
            Self::spec_bound_ok(max_num),
        ensures
            r.spec_bit_size() == Self::spec_bit_size(max_num),
            Self::spec_width_ok(r.spec_bit_size()),
    ;

    /// Reads a value from a packed value that holds nothing else.
    fn decompress(compressed: Compressed) -> (r: Result<Self, DecompressError>)
        ensures
            match Self::spec_decompress(compressed.bits()) {
                Ok(value) => r is Ok && r.unwrap().deep_view() == value,
                Err(kind) => r matches Err(e) && e.kind() == kind,
            },
    ;

    /// Reads a value from the front of `bits`, which stay as they are: the
    /// value and the number of bits that it takes.
    fn decompress_from_slice(bits: &[u8], bit_size: Option<usize>) -> (r: Result<
        (Self, usize),
        DecompressError,
    >)
        requires
            Self::spec_width_ok(bit_size),
        ensures
            match Self::spec_decompress_from(bits@, bit_size) {
                Ok((value, used)) => r is Ok && r.unwrap().0.deep_view() == value && r.unwrap().1
                    == used && used <= bits@.len(),
                Err(kind) => r matches Err(e) && e.kind() == kind,
            },
    ;

    /// Reads a value from the front of `compressed` and takes its bits off.
    /// On an error the bits stay as they were.
    fn decompress_from_binaries(compressed: &mut Vec<u8>, bit_size: Option<usize>) -> (r: Result<
        Self,
        DecompressError,
    >)
        requires
            Self::spec_width_ok(bit_size),
        ensures
            match Self::spec_decompress_from(old(compressed)@, bit_size) {
                Ok((value, used)) => r is Ok && r.unwrap().deep_view() == value && used <= old(
                    compressed,
                )@.len() && final(compressed)@ == old(compressed)@.skip(used as int),
                Err(kind) => r matches Err(e) && e.kind() == kind && final(compressed)@ == old(
                    compressed,
                )@,
            },
    {
        match Self::decompress_from_slice(compressed.as_slice(), bit_size) {
            Ok((value, used)) => {
                drop_front(compressed, used);
                Ok(value)
            },
            Err(e) => Err(e),
        }
    }

    /// The number of bits of every packed value of this type that is read
    /// with `bit_size`, where all of them have the same.
    fn element_width(bit_size: Option<usize>) -> (r: Option<usize>)
        ensures
            r == Self::spec_element_width(bit_size),
    ;
}

/// Takes the first `n` bits off `bits`.
pub fn drop_front(bits: &mut Vec<u8>, n: usize)
    requires
        n <= old(bits).len(),
    ensures
        final(bits)@ == old(bits)@.skip(n as int),
{
    let tail = bits.split_off(n);
    *bits = tail;
    assert(bits@ =~= old(bits)@.skip(n as int));
}

/// Counts the significant bits of `num`.
pub fn count_bits(num: u128) -> (r: usize)
    ensures
        r == bit_len(num as nat),
        r <= 128,
{
    let mut n: u128 = num;
    let mut res: usize = 0;
    proof {
        lemma_bit_len_u128(num);
    }
    while n != 0
        invariant
            res + bit_len(n as nat) == bit_len(num as nat),
            bit_len(num as nat) <= 128,
        decreases n,
    {
        n = n / 2;
        res += 1;
    }
    res
}

/// The number of bits that hold the quotient by 8 of any value up to
/// `max_num`.
pub fn find_mult_8_bit_size(max_num: u128) -> (r: usize)
    ensures
        r == quotient_width(max_num as nat),
        r <= 128,
{
    count_bits(max_num / 8)
}

/// Writes `num` in binary, most significant bit first, with leading zeros up
/// to `bit_size` bits; a number that needs more bits gets them.
pub fn encode(num: u128, bit_size: usize) -> (r: Vec<u8>)
    ensures
        r@ == numeral(num as nat, bit_size as nat),
{
    let needed = count_bits(num);
    let width: usize = if needed > bit_size {
        needed
    } else {
        bit_size
    };
    let mut res: Vec<u8> = Vec::new();
    while res.len() < width
        invariant
            res.len() <= width,
        decreases width - res.len(),
    {
        res.push(0u8);
    }
    let mut n: u128 = num;
    let mut i: usize = width;
    while i > 0
        invariant
            i <= width,
            res.len() == width,
            bits_of(num as nat, width as nat) =~= bits_of(n as nat, i as nat) + res@.subrange(
                i as int,
                width as int,
            ),
        decreases i,
    {
        let ghost before = res@;
        i -= 1;
        res.set(i, (n % 2) as u8);
        proof {
            assert(res@.subrange(i as int, width as int) =~= seq![(n % 2) as u8] + before.subrange(
                i + 1,
                width as int,
            ));
        }
        n = n / 2;
    }
    res
}

/// Packs `num`: its quotient by 8 in at least `mult_8_bit_size` bits, then
/// its remainder in three bits.
pub fn compress_num(num: u128, mult_8_bit_size: usize) -> (r: Vec<u8>)
    ensures
        r@ == numeral((num / 8) as nat, mult_8_bit_size as nat) + bits_of((num % 8) as nat, 3),
{
    let mut mult_8_bit = encode(num / 8, mult_8_bit_size);
    let mut remainder_bit = encode(num % 8, 3);
    proof {
        assert(bit_len((num % 8) as nat) <= 3) by {
            vstd::arithmetic::power2::lemma2_to64();
            crate::bits::lemma_bit_len_bound((num % 8) as nat, 3);
        }
    }
    mult_8_bit.append(&mut remainder_bit);
    mult_8_bit
}

/// Reads the bits `from .. to` of `bits` as a number, most significant bit
/// first: the number, or `None` where an element is no bit or the number is
/// above `max`.
pub fn number_of(bits: &[u8], from: usize, to: usize, max: u128) -> (r: Option<u128>)
    requires
        from <= to <= bits.len(),
    ensures
        r == if is_bits(bits@.subrange(from as int, to as int)) && bits_value(
            bits@.subrange(from as int, to as int),
        ) <= max {
            Some(bits_value(bits@.subrange(from as int, to as int)) as u128)
        } else {
            None
        },
{
    let ghost field = bits@.subrange(from as int, to as int);
    let mut acc: u128 = 0;
    let mut i: usize = from;
    while i < to
        invariant
            from <= i <= to <= bits.len(),
            field == bits@.subrange(from as int, to as int),
            is_bits(field.take(i - from)),
            acc == bits_value(field.take(i - from)),
            acc <= max,
        decreases to - i,
    {
        let b = bits[i];
        proof {
            assert(field.take(i - from + 1) =~= field.take(i - from).push(b));
            lemma_value_push(field.take(i - from), b);
            lemma_value_prefix(field, i - from + 1);
        }
        if b > 1 {
            proof {
                assert(field[i - from] == b);
            }
            return None;
        }
        if b as u128 > max || acc > (max - b as u128) / 2 {
            return None;
        }
        acc = acc * 2 + b as u128;
        i += 1;
    }
    proof {
        assert(field.take(to - from) =~= field);
    }
    Some(acc)
}

/// `m` with its `k` lowest groups of seven bits taken off.
pub open spec fn without_groups(m: nat, k: nat) -> nat
    decreases k,
{
    if k == 0 {
        m
    } else {
        without_groups(m, (k - 1) as nat) / 128
    }
}

/// The group of seven bits number `j` of `m`, counted from the lowest.
pub open spec fn group_at(m: nat, j: int) -> nat {
    without_groups(m, j as nat) % 128
}

/// Writes the length prefix of `num`: `num` in binary, in groups of seven
/// bits, most significant group first, each group after a marker bit that is
/// 1 on the last group and 0 on the others.
pub fn compress_metalength_v2(num: usize) -> (r: Vec<u8>)
    ensures
        r@ == metalength(num as nat),
{
    let ghost m = (num / 128) as nat;
    let mut rest: usize = num / 128;
    let mut high: Vec<u8> = Vec::new();
    while rest != 0
        invariant
            rest == without_groups(m, high.len() as nat),
            forall|j: int| 0 <= j < high.len() ==> #[trigger] high[j] == group_at(m, j),
            forall|j: int| 0 <= j < high.len() ==> #[trigger] without_groups(m, j as nat) != 0,
        decreases rest,
    {
        high.push((rest % 128) as u8);
        rest = rest / 128;
    }
    let mut res: Vec<u8> = Vec::new();
    let mut i: usize = high.len();
    while i > 0
        invariant
            i <= high.len(),
            without_groups(m, high.len() as nat) == 0,
            forall|j: int| 0 <= j < high.len() ==> #[trigger] high[j] == group_at(m, j),
            forall|j: int| 0 <= j < high.len() ==> #[trigger] without_groups(m, j as nat) != 0,
            res@ == metalength_head(without_groups(m, i as nat)),
        decreases i,
    {
        i -= 1;
        let ghost before = res@;
        let mut group = encode(high[i] as u128, 7);
        proof {
            let here = without_groups(m, i as nat);
            assert(without_groups(m, (i + 1) as nat) == here / 128);
            assert(high[i as int] == group_at(m, i as int));
            assert(bit_len(high[i as int] as nat) <= 7) by {
                vstd::arithmetic::power2::lemma2_to64();
                crate::bits::lemma_bit_len_bound(high[i as int] as nat, 7);
            }
            assert(before.push(0u8) + group@ =~= before + seq![0u8] + group@);
        }
        res.push(0u8);
        res.append(&mut group);
    }
    let ghost head = res@;
    let mut last = encode((num % 128) as u128, 7);
    proof {
        assert(bit_len((num % 128) as nat) <= 7) by {
            vstd::arithmetic::power2::lemma2_to64();
            crate::bits::lemma_bit_len_bound((num % 128) as nat, 7);
        }
        assert(head.push(1u8) + last@ =~= head + seq![1u8] + last@);
    }
    res.push(1u8);
    res.append(&mut last);
    res
}

/// Reads a length prefix from the front of `bits`, which it leaves as they
/// are: the length and the number of bits that the prefix takes.
pub fn read_length(bits: &[u8]) -> (r: Result<(u128, usize), DecompressError>)
    ensures
        match read_metalength(bits@) {
            Ok((n, used)) => r == Ok::<(u128, usize), DecompressError>((n as u128, used as usize))
                && n <= u128::MAX && used <= bits.len(),
            Err(kind) => r is Err && r.unwrap_err().kind() == kind,
        },
{
    let mut acc: u128 = 0;
    let mut pos: usize = 0;
    proof {
        assert(bits@.skip(0) =~= bits@);
        let whole = read_groups(bits@, 0);
        assert(advanced(whole, 0) == whole);
    }
    loop
        invariant
            pos <= bits.len(),
            read_metalength(bits@) == advanced(
                read_groups(bits@.skip(pos as int), acc as nat),
                pos as nat,
            ),
        decreases bits.len() - pos,
    {
        let ghost here = bits@.skip(pos as int);
        if bits.len() - pos < 8 {
            return Err(
                DecompressError::WrongBytesLength(
                    String::from_str(
                        "Not enough bytes to calculate the metalength of compressed vector",
                    ),
                ),
            );
        }
        let flag = bits[pos];
        assert(here[0] == flag);
        if flag > 1 {
            return Err(DecompressError::bad_marker());
        }
        assert(here.subrange(1, 8) =~= bits@.subrange(pos + 1, pos + 8));
        let group = match number_of(bits, pos + 1, pos + 8, u128::MAX) {
            Some(g) => g,
            None => {
                return Err(DecompressError::not_a_number(run(bits, pos + 1, pos + 8).as_str()));
            },
        };
        if acc > (u128::MAX - group) / 128 {
            return Err(DecompressError::not_a_number(run(bits, 0, pos + 8).as_str()));
        }
        acc = acc * 128 + group;
        assert(here.skip(8) =~= bits@.skip(pos + 8));
        pos += 8;
        if flag == 1 {
            return Ok((acc, pos));
        }
    }
}

/// Reads the field of `bit_size` bits that starts at `from` in `bits`: the
/// quotient bits times 8 plus the three remainder bits; nothing where the
/// field holds something else than bits or its number is above `max`.
pub fn read_field(bits: &[u8], from: usize, bit_size: usize, max: u128) -> (r: Option<u128>)
    requires
        3 <= bit_size,
        from + bit_size <= bits.len(),
    ensures
        r == if is_bits(bits@.subrange(from as int, from + bit_size)) && field_value(
            bits@.subrange(from as int, from + bit_size),
        ) <= max {
            Some(field_value(bits@.subrange(from as int, from + bit_size)) as u128)
        } else {
            None
        },
{
    let ghost field = bits@.subrange(from as int, from + bit_size);
    let split_at = from + bit_size - 3;
    proof {
        assert(field.take(field.len() - 3) =~= bits@.subrange(from as int, split_at as int));
        assert(field.skip(field.len() - 3) =~= bits@.subrange(
            split_at as int,
            from + bit_size,
        ));
        if is_bits(field) {
            assert forall|i: int| 0 <= i < field.len() - 3 implies #[trigger] field.take(
                field.len() - 3,
            )[i] <= 1 by {
                assert(field[i] <= 1);
            }
            assert forall|i: int| 0 <= i < 3 implies #[trigger] field.skip(field.len() - 3)[i]
                <= 1 by {
                assert(field[field.len() - 3 + i] <= 1);
            }
            lemma_three_bits(field.skip(field.len() - 3));
        }
        if is_bits(field.take(field.len() - 3)) && is_bits(field.skip(field.len() - 3)) {
            assert forall|i: int| 0 <= i < field.len() implies #[trigger] field[i] <= 1 by {
                if i < field.len() - 3 {
                    assert(field.take(field.len() - 3)[i] <= 1);
                } else {
                    assert(field.skip(field.len() - 3)[i - (field.len() - 3)] <= 1);
                }
            }
        }
    }
    let mult_8 = match number_of(bits, from, split_at, max / 8) {
        Some(q) => q,
        None => {
            return None;
        },
    };
    let remainder = match number_of(bits, split_at, from + bit_size, 7) {
        Some(rem) => rem,
        None => {
            return None;
        },
    };
    let value = mult_8 * 8 + remainder;
    if value > max {
        None
    } else {
        Some(value)
    }
}

/// The error of a length prefix that announces `meta` bytes where only
/// `length` bits follow it.
pub fn payload_missing(meta: u128, length: usize) -> (e: DecompressError)
    ensures
        e.kind() == DecompressErrorKind::WrongBytesLength,
        e.spec_message()
            == "length of compressed bytes is shorter than meta-length of compressed vector, "@
            + "AKA meta-length out of bound. meta-length: "@ + decimal_text(meta as nat)
            + ", compressed bytes length: "@ + decimal_text(length as nat),
{
    let mut detail = String::from_str(
        "length of compressed bytes is shorter than meta-length of compressed vector, ",
    );
    detail.append("AKA meta-length out of bound. meta-length: ");
    detail.append(decimal(meta).as_str());
    detail.append(", compressed bytes length: ");
    detail.append(decimal(length as u128).as_str());
    DecompressError::WrongBytesLength(detail)
}

/// Takes a length prefix off the front of `compressed` and checks that the
/// bytes it announces follow it: the length in bytes. On an error the bits
/// stay as they were.
pub fn calc_delimeter_size(compressed: &mut Vec<u8>) -> (r: Result<u128, DecompressError>)
    ensures
        match read_delimeter(old(compressed)@) {
            Ok((n, used)) => r == Ok::<u128, DecompressError>(n as u128) && used <= old(
                compressed,
            )@.len() && final(compressed)@ == old(compressed)@.skip(used as int),
            Err(kind) => r is Err && r.unwrap_err().kind() == kind && final(compressed)@ == old(
                compressed,
            )@,
        },
{
    match read_length(compressed.as_slice()) {
        Ok((meta, used)) => {
            let length = compressed.len() - used;
            if ((length / 8) as u128) < meta {
                Err(payload_missing(meta, length))
            } else {
                drop_front(compressed, used);
                Ok(meta)
            }
        },
        Err(e) => Err(e),
    }
}

/// Reads a length prefix and the bytes it announces from the front of
/// `bits`: the bits of those bytes, and the number of bits taken, prefix
/// included.
pub fn take_payload<'a>(bits: &'a [u8]) -> (r: Result<(&'a [u8], usize), DecompressError>)
    ensures
        match read_payload(bits@) {
            Ok((payload, used)) => r matches Ok((p, u)) && p@ == payload && u == used && used
                <= bits@.len() && payload.len() % 8 == 0,
            Err(kind) => r matches Err(e) && e.kind() == kind,
        },
{
    match read_length(bits) {
        Ok((meta, used)) => {
            let length = bits.len() - used;
            if ((length / 8) as u128) < meta {
                Err(payload_missing(meta, length))
            } else {
                let end = used + (meta as usize) * 8;
                Ok((slice_subrange(bits, used, end), end))
            }
        },
        Err(e) => Err(e),
    }
}

} // verus!
