//! The self-terminating length prefix: a number written in groups of one
//! continuation bit and seven payload bits, most significant group first.

use vstd::prelude::*;
use crate::bits::{
    bit_len, bits_of, bits_value, is_bits, lemma_bit_len_bound, lemma_bits_of_shape,
    lemma_value_of_numeral,
};
use crate::error::DecompressErrorKind;

verus! {

/// The groups that carry `m`, all marked as followed by another group; no
/// group at all for 0.
pub open spec fn metalength_head(m: nat) -> Seq<u8>
    decreases m,
{
    if m == 0 {
        Seq::empty()
    } else {
        metalength_head(m / 128) + seq![0u8] + bits_of(m % 128, 7)
    }
}

/// The length prefix of `n`: the groups of `n / 128`, then the last group,
/// marked with 1, which carries `n % 128`.
pub open spec fn metalength(n: nat) -> Seq<u8> {
    metalength_head(n / 128) + seq![1u8] + bits_of(n % 128, 7)
}

/// A reading moved `k` bits further into its stream.
pub open spec fn advanced(
    r: Result<(nat, nat), DecompressErrorKind>,
    k: nat,
) -> Result<(nat, nat), DecompressErrorKind> {
    match r {
        Ok((n, used)) => Ok((n, used + k)),
        Err(e) => Err(e),
    }
}

/// Reads groups from the front of `bits`, continuing the number `acc` with
/// them: the number read and the bits used. Fails where fewer than eight bits
/// are left before a last group was seen, where a marker is neither 0 nor 1,
/// where a payload holds something else than bits, and where the number
/// leaves 128 bits.
pub open spec fn read_groups(bits: Seq<u8>, acc: nat) -> Result<(nat, nat), DecompressErrorKind>
    decreases bits.len(),
{
    if bits.len() < 8 {
        Err(DecompressErrorKind::WrongBytesLength)
    } else if bits[0] > 1 {
        Err(DecompressErrorKind::FromBinariesErr)
    } else if !is_bits(bits.subrange(1, 8)) {
        Err(DecompressErrorKind::BinariesToIntErr)
    } else {
        let n = acc * 128 + bits_value(bits.subrange(1, 8));
        if n > u128::MAX {
            Err(DecompressErrorKind::BinariesToIntErr)
        } else if bits[0] == 1 {
            Ok((n, 8))
        } else {
            advanced(read_groups(bits.skip(8), n), 8)
        }
    }
}

/// Reads a length prefix from the front of `bits`: the length and the number
/// of bits that the prefix takes.
pub open spec fn read_metalength(bits: Seq<u8>) -> Result<(nat, nat), DecompressErrorKind> {
    read_groups(bits, 0)
}

/// Reads a length prefix and checks that the bytes it announces are there:
/// the length in bytes and the number of bits that the prefix takes.
pub open spec fn read_delimeter(bits: Seq<u8>) -> Result<(nat, nat), DecompressErrorKind> {
    match read_metalength(bits) {
        Ok((n, used)) => if bits.len() - used < 8 * n {
            Err(DecompressErrorKind::WrongBytesLength)
        } else {
            Ok((n, used))
        },
        Err(e) => Err(e),
    }
}

/// What reading a length prefix and the bytes it announces from the front of
/// `bits` gives: the bits of those bytes and the number of bits taken, prefix
/// included.
pub open spec fn read_payload(bits: Seq<u8>) -> Result<(Seq<u8>, nat), DecompressErrorKind> {
    match read_delimeter(bits) {
        Ok((n, used)) => Ok((bits.subrange(used as int, (used + 8 * n) as int), used + 8 * n)),
        Err(kind) => Err(kind),
    }
}

/// A prefix is made of whole groups of eight bits.
pub proof fn lemma_metalength_head_len(m: nat)
    ensures
        metalength_head(m).len() % 8 == 0,
        is_bits(metalength_head(m)),
    decreases m,
{
    if m > 0 {
        lemma_metalength_head_len(m / 128);
        lemma_bits_of_shape(m % 128, 7);
    }
}

/// The length prefix of any number is a positive multiple of eight bits long
/// and holds bits only.
pub proof fn lemma_metalength_len(n: nat)
    ensures
        metalength(n).len() % 8 == 0,
        metalength(n).len() >= 8,
        is_bits(metalength(n)),
{
    lemma_metalength_head_len(n / 128);
    lemma_bits_of_shape(n % 128, 7);
}

/// One group, read against its own numeral.
proof fn lemma_read_one_group(flag: u8, g: nat, tail: Seq<u8>, acc: nat)
    requires
        flag <= 1,
        g < 128,
        acc * 128 + g <= u128::MAX,
    ensures
        read_groups(seq![flag] + bits_of(g, 7) + tail, acc) == if flag == 1 {
            Ok::<(nat, nat), DecompressErrorKind>(((acc * 128 + g) as nat, 8nat))
        } else {
            advanced(read_groups(tail, (acc * 128 + g) as nat), 8)
        },
{
    let bits = seq![flag] + bits_of(g, 7) + tail;
    lemma_bits_of_shape(g, 7);
    assert(bits.subrange(1, 8) =~= bits_of(g, 7));
    assert(bits.skip(8) =~= tail);
    assert(bits[0] == flag);
    assert(bit_len(g) <= 7) by {
        vstd::arithmetic::power2::lemma2_to64();
        lemma_bit_len_bound(g, 7);
    }
    lemma_value_of_numeral(g, 7);
}

/// Reading the groups of `m` from the front of a stream leaves the reader at
/// `tail` with `m` read so far.
proof fn lemma_read_head(m: nat, tail: Seq<u8>)
    requires
        m <= u128::MAX,
    ensures
        read_groups(metalength_head(m) + tail, 0) == advanced(
            read_groups(tail, m),
            metalength_head(m).len(),
        ),
    decreases m,
{
    if m == 0 {
        assert(metalength_head(m) + tail =~= tail);
        let r = read_groups(tail, 0);
        assert(advanced(r, 0) == r);
    } else {
        let group = seq![0u8] + bits_of(m % 128, 7);
        let later = group + tail;
        lemma_read_head(m / 128, later);
        assert(metalength_head(m) + tail =~= metalength_head(m / 128) + later);
        lemma_read_one_group(0u8, m % 128, tail, m / 128);
        lemma_bits_of_shape(m % 128, 7);
        assert(metalength_head(m).len() == metalength_head(m / 128).len() + 8);
    }
}

/// Reading the length prefix of `n`, whatever follows it, gives `n` and
/// takes exactly the bits of the prefix.
pub proof fn lemma_metalength_round_trip(n: nat, rest: Seq<u8>)
    requires
        n <= u128::MAX,
    ensures
        read_metalength(metalength(n) + rest) == Ok::<(nat, nat), DecompressErrorKind>(
            (n, metalength(n).len()),
        ),
{
    let last = seq![1u8] + bits_of(n % 128, 7) + rest;
    lemma_read_head(n / 128, last);
    assert(metalength(n) + rest =~= metalength_head(n / 128) + last);
    lemma_read_one_group(1u8, n % 128, rest, n / 128);
    lemma_bits_of_shape(n % 128, 7);
}

} // verus!
