//! Bit sequences as mathematical objects: their numeric value, the fixed-width
//! numeral of a number, and the packing of bits into bytes.

use vstd::prelude::*;

verus! {

/// Every element is a single bit.
pub open spec fn is_bits(s: Seq<u8>) -> bool {
    forall|i: int| 0 <= i < s.len() ==> #[trigger] s[i] <= 1
}

/// `n` zero bits.
pub open spec fn zeros(n: nat) -> Seq<u8> {
    Seq::new(n, |i: int| 0u8)
}

/// The number that a big-endian bit sequence denotes.
pub open spec fn bits_value(s: Seq<u8>) -> nat
    decreases s.len(),
{
    if s.len() == 0 {
        0
    } else {
        2 * bits_value(s.drop_last()) + s.last() as nat
    }
}

/// The `width`-bit big-endian numeral of `n` (of `n` modulo 2^width).
pub open spec fn bits_of(n: nat, width: nat) -> Seq<u8>
    decreases width,
{
    if width == 0 {
        Seq::empty()
    } else {
        bits_of(n / 2, (width - 1) as nat).push((n % 2) as u8)
    }
}

/// The number of bits of the shortest binary numeral of `n`; 0 for 0.
pub open spec fn bit_len(n: nat) -> nat
    decreases n,
{
    if n == 0 {
        0
    } else {
        1 + bit_len(n / 2)
    }
}

/// The shortest binary numeral of `n` that is at least `min_width` bits wide.
pub open spec fn numeral(n: nat, min_width: nat) -> Seq<u8> {
    bits_of(
        n,
        if bit_len(n) > min_width {
            bit_len(n)
        } else {
            min_width
        },
    )
}

/// The bits of a byte sequence, eight per byte, most significant first.
pub open spec fn bytes_to_bits(bytes: Seq<u8>) -> Seq<u8>
    decreases bytes.len(),
{
    if bytes.len() == 0 {
        Seq::empty()
    } else {
        bytes_to_bits(bytes.drop_last()) + bits_of(bytes.last() as nat, 8)
    }
}

/// The byte that a run of elements folds into: each step shifts the byte left
/// by one and combines the next element into it.
pub open spec fn byte_of(s: Seq<u8>) -> u8
    decreases s.len(),
{
    if s.len() == 0 {
        0
    } else {
        (byte_of(s.drop_last()) << 1) ^ s.last()
    }
}

/// The number of zero bits that bring a stream of `len` bits to a whole byte.
pub open spec fn padding(len: nat) -> nat {
    ((8 - len % 8) % 8) as nat
}

/// The number of bytes that hold `len` bits.
pub open spec fn byte_count(len: nat) -> nat {
    (len + padding(len)) / 8
}

/// The bytes that hold a bit stream, the last one filled up with zero bits.
pub open spec fn bits_to_bytes(s: Seq<u8>) -> Seq<u8> {
    Seq::new(
        byte_count(s.len()),
        |i: int| byte_of((s + zeros(padding(s.len()))).subrange(8 * i, 8 * i + 8)),
    )
}

/// A numeral has the width it was written with, and holds bits only.
pub proof fn lemma_bits_of_shape(n: nat, width: nat)
    ensures
        bits_of(n, width).len() == width,
        is_bits(bits_of(n, width)),
    decreases width,
{
    if width > 0 {
        lemma_bits_of_shape(n / 2, (width - 1) as nat);
    }
}

/// A smaller number has no longer a numeral.
pub proof fn lemma_bit_len_monotonic(a: nat, b: nat)
    requires
        a <= b,
    ensures
        bit_len(a) <= bit_len(b),
    decreases b,
{
    if a > 0 {
        lemma_bit_len_monotonic(a / 2, b / 2);
    }
}

/// A number below 2^k has at most k significant bits.
pub proof fn lemma_bit_len_bound(n: nat, k: nat)
    requires
        n < vstd::arithmetic::power2::pow2(k),
    ensures
        bit_len(n) <= k,
    decreases k,
{
    if n > 0 {
        if k == 0 {
            vstd::arithmetic::power2::lemma2_to64();
        } else {
            vstd::arithmetic::power2::lemma_pow2_unfold(k);
            lemma_bit_len_bound(n / 2, (k - 1) as nat);
        }
    }
}

/// Every 128-bit number has at most 128 significant bits.
pub proof fn lemma_bit_len_u128(n: u128)
    ensures
        bit_len(n as nat) <= 128,
{
    vstd::arithmetic::power2::lemma2_to64();
    vstd::arithmetic::power2::lemma_pow2_adds(64, 64);
    assert(vstd::arithmetic::power2::pow2(128) == 0x1_0000_0000_0000_0000
        * 0x1_0000_0000_0000_0000);
    lemma_bit_len_bound(n as nat, 128);
}

/// Reading a numeral gives the number back, if the width holds all of its
/// significant bits.
pub proof fn lemma_value_of_numeral(n: nat, width: nat)
    requires
        bit_len(n) <= width,
    ensures
        bits_value(bits_of(n, width)) == n,
    decreases width,
{
    if width > 0 {
        let rest = bits_of(n / 2, (width - 1) as nat);
        assert(bits_of(n, width).drop_last() =~= rest);
        lemma_value_of_numeral(n / 2, (width - 1) as nat);
    }
}

/// Writing the value of a bit sequence, at its own width, gives it back.
pub proof fn lemma_numeral_of_value(s: Seq<u8>)
    requires
        is_bits(s),
    ensures
        bits_of(bits_value(s), s.len()) == s,
    decreases s.len(),
{
    if s.len() > 0 {
        lemma_numeral_of_value(s.drop_last());
        let v = bits_value(s);
        assert(v / 2 == bits_value(s.drop_last()));
        assert(v % 2 == s.last());
        assert(bits_of(v, s.len()) =~= s);
    } else {
        assert(bits_of(bits_value(s), s.len()) =~= s);
    }
}

/// The value of a bit sequence has no more significant bits than the
/// sequence has elements.
pub proof fn lemma_value_bit_len(s: Seq<u8>)
    requires
        is_bits(s),
    ensures
        bit_len(bits_value(s)) <= s.len(),
    decreases s.len(),
{
    if s.len() > 0 {
        lemma_value_bit_len(s.drop_last());
        assert(bits_value(s) / 2 == bits_value(s.drop_last()));
    }
}

/// A prefix of a bit sequence denotes no larger a number than the whole.
pub proof fn lemma_value_prefix(s: Seq<u8>, k: int)
    requires
        0 <= k <= s.len(),
    ensures
        bits_value(s.take(k)) <= bits_value(s),
    decreases s.len() - k,
{
    if k < s.len() {
        lemma_value_prefix(s, k + 1);
        assert(s.take(k + 1).drop_last() =~= s.take(k));
    } else {
        assert(s.take(k) =~= s);
    }
}

/// The value of a sequence with one more bit at its end.
pub proof fn lemma_value_push(s: Seq<u8>, b: u8)
    ensures
        bits_value(s.push(b)) == 2 * bits_value(s) + b as nat,
{
    assert(s.push(b).drop_last() =~= s);
}

/// A number with at most `k` significant bits is below 2^k.
pub proof fn lemma_bit_len_below(n: nat, k: nat)
    requires
        bit_len(n) <= k,
    ensures
        n < vstd::arithmetic::power2::pow2(k),
    decreases k,
{
    if n == 0 {
        vstd::arithmetic::power2::lemma_pow2_pos(k);
    } else {
        vstd::arithmetic::power2::lemma_pow2_unfold(k);
        lemma_bit_len_below(n / 2, (k - 1) as nat);
    }
}

/// Up to eight bits fold into the byte whose value they denote.
pub proof fn lemma_byte_of_bits(s: Seq<u8>)
    requires
        is_bits(s),
        s.len() <= 8,
    ensures
        byte_of(s) == bits_value(s),
    decreases s.len(),
{
    if s.len() > 0 {
        let front = s.drop_last();
        lemma_byte_of_bits(front);
        lemma_value_bit_len(front);
        lemma_bit_len_below(bits_value(front), 7);
        vstd::arithmetic::power2::lemma2_to64();
        let x = byte_of(front);
        let b = s.last();
        assert(x < 128);
        assert(b <= 1);
        assert((x << 1) ^ b == 2 * x + b) by (bit_vector)
            requires
                x < 128,
                b <= 1,
        ;
    }
}

/// The bits of a byte sequence: eight for each byte, and bits only.
pub proof fn lemma_bytes_to_bits_shape(bytes: Seq<u8>)
    ensures
        bytes_to_bits(bytes).len() == 8 * bytes.len(),
        is_bits(bytes_to_bits(bytes)),
    decreases bytes.len(),
{
    if bytes.len() > 0 {
        lemma_bytes_to_bits_shape(bytes.drop_last());
        lemma_bits_of_shape(bytes.last() as nat, 8);
    }
}

/// The eight bits of byte number `i` stand at `8 * i` in the bits of the
/// sequence.
pub proof fn lemma_bytes_to_bits_chunk(bytes: Seq<u8>, i: int)
    requires
        0 <= i < bytes.len(),
    ensures
        bytes_to_bits(bytes).subrange(8 * i, 8 * i + 8) == bits_of(bytes[i] as nat, 8),
    decreases bytes.len(),
{
    let front = bytes.drop_last();
    lemma_bytes_to_bits_shape(front);
    lemma_bits_of_shape(bytes.last() as nat, 8);
    if i == bytes.len() - 1 {
        assert(bytes_to_bits(bytes).subrange(8 * i, 8 * i + 8) =~= bits_of(bytes[i] as nat, 8));
    } else {
        lemma_bytes_to_bits_chunk(front, i);
        assert(bytes_to_bits(bytes).subrange(8 * i, 8 * i + 8) =~= bytes_to_bits(front).subrange(
            8 * i,
            8 * i + 8,
        ));
    }
}

/// Bytes spread into bits and packed again are the same bytes.
pub proof fn lemma_bytes_round_trip(bytes: Seq<u8>)
    ensures
        bits_to_bytes(bytes_to_bits(bytes)) == bytes,
{
    let bits = bytes_to_bits(bytes);
    lemma_bytes_to_bits_shape(bytes);
    assert(padding(bits.len()) == 0);
    assert(bits + zeros(0) =~= bits);
    assert forall|i: int| 0 <= i < bytes.len() implies #[trigger] bits_to_bytes(bits)[i]
        == bytes[i] by {
        lemma_bytes_to_bits_chunk(bytes, i);
        lemma_bits_of_shape(bytes[i] as nat, 8);
        lemma_byte_of_bits(bits_of(bytes[i] as nat, 8));
        assert(bit_len(bytes[i] as nat) <= 8) by {
            vstd::arithmetic::power2::lemma2_to64();
            lemma_bit_len_bound(bytes[i] as nat, 8);
        }
        lemma_value_of_numeral(bytes[i] as nat, 8);
    }
    assert(bits_to_bytes(bits) =~= bytes);
}

/// Bits packed into bytes and spread again are the same bits, followed by
/// the zero bits that filled the last byte.
pub proof fn lemma_bits_round_trip(s: Seq<u8>)
    requires
        is_bits(s),
    ensures
        bytes_to_bits(bits_to_bytes(s)) == s + zeros(padding(s.len())),
{
    let padded = s + zeros(padding(s.len()));
    let bytes = bits_to_bytes(s);
    lemma_bytes_to_bits_shape(bytes);
    assert forall|k: int| 0 <= k < padded.len() implies #[trigger] bytes_to_bits(bytes)[k]
        == padded[k] by {
        let i = k / 8;
        let chunk = padded.subrange(8 * i, 8 * i + 8);
        lemma_bytes_to_bits_chunk(bytes, i);
        assert(bytes_to_bits(bytes)[k] == bytes_to_bits(bytes).subrange(8 * i, 8 * i + 8)[k - 8
            * i]);
        assert(is_bits(chunk)) by {
            assert forall|j: int| 0 <= j < 8 implies #[trigger] chunk[j] <= 1 by {
                if 8 * i + j < s.len() {
                    assert(padded[8 * i + j] == s[8 * i + j]);
                }
            }
        }
        lemma_byte_of_bits(chunk);
        lemma_numeral_of_value(chunk);
    }
    assert(bytes_to_bits(bytes) =~= padded);
}

} // verus!
