//! Collections: the packed elements one after the other, filled up with zero
//! bits to whole bytes, behind a length prefix that counts those bytes.

use vstd::prelude::*;
use vstd::slice::slice_subrange;
use crate::bits::{byte_count, is_bits, padding, zeros};
use crate::comprezable::{compress_metalength_v2, reads_back, take_payload, Comprezable};
use crate::error::{CompressError, CompressErrorKind, DecompressError, DecompressErrorKind};
use crate::metalength::{
    lemma_metalength_len, lemma_metalength_round_trip, metalength, read_payload,
};
use crate::{pad_to_byte, BinaryChunk, Compressed};

verus! {

/// Every element is zero.
pub open spec fn all_zero(bits: Seq<u8>) -> bool {
    forall|i: int| 0 <= i < bits.len() ==> #[trigger] bits[i] == 0
}

/// A reading of items with `first` put before them.
pub open spec fn preceded<V>(first: Seq<V>, r: Result<Seq<V>, DecompressErrorKind>) -> Result<
    Seq<V>,
    DecompressErrorKind,
> {
    match r {
        Ok(items) => Ok(first + items),
        Err(kind) => Err(kind),
    }
}

/// What reading `count` items of `T`, one after the other, from `payload`
/// gives: the views of the items. What is left after them must be zero bits.
pub open spec fn read_counted<T: Comprezable>(
    payload: Seq<u8>,
    bit_size: Option<usize>,
    count: nat,
) -> Result<Seq<T::V>, DecompressErrorKind>
    decreases count,
{
    if count == 0 {
        if all_zero(payload) {
            Ok(Seq::empty())
        } else {
            Err(DecompressErrorKind::WrongBytesLength)
        }
    } else {
        match T::spec_decompress_from(payload, bit_size) {
            Ok((value, used)) => preceded(
                seq![value],
                read_counted::<T>(payload.skip(used as int), bit_size, (count - 1) as nat),
            ),
            Err(kind) => Err(kind),
        }
    }
}

/// What reading items of `T`, one after the other, from `payload` gives,
/// until nothing is left of it: the views of the items. An item that takes
/// no bit is an error.
pub open spec fn read_all<T: Comprezable>(payload: Seq<u8>, bit_size: Option<usize>) -> Result<
    Seq<T::V>,
    DecompressErrorKind,
>
    decreases payload.len(),
{
    if payload.len() == 0 {
        Ok(Seq::empty())
    } else {
        match T::spec_decompress_from(payload, bit_size) {
            Ok((value, used)) => if 0 < used <= payload.len() {
                preceded(seq![value], read_all::<T>(payload.skip(used as int), bit_size))
            } else {
                Err(DecompressErrorKind::WrongBytesLength)
            },
            Err(kind) => Err(kind),
        }
    }
}

/// What reading the items of a collection from its payload gives. Items of a
/// fixed width are as many as whole widths fit into the payload; items that
/// delimit themselves are read until the payload is used up.
pub open spec fn read_items<T: Comprezable>(payload: Seq<u8>, bit_size: Option<usize>) -> Result<
    Seq<T::V>,
    DecompressErrorKind,
> {
    match T::spec_element_width(bit_size) {
        Some(width) => if width == 0 {
            Err(DecompressErrorKind::WrongBytesLength)
        } else {
            read_counted::<T>(payload, bit_size, payload.len() / (width as nat))
        },
        None => read_all::<T>(payload, bit_size),
    }
}

/// What reading a collection of `T` from the front of `bits` gives: the views
/// of its items and the number of bits taken.
pub open spec fn read_collection<T: Comprezable>(bits: Seq<u8>, bit_size: Option<usize>) -> Result<
    (Seq<T::V>, nat),
    DecompressErrorKind,
> {
    match read_payload(bits) {
        Ok((payload, used)) => match read_items::<T>(payload, bit_size) {
            Ok(items) => Ok((items, used)),
            Err(kind) => Err(kind),
        },
        Err(kind) => Err(kind),
    }
}

/// The kind of the error of the first of `items` that cannot be packed under
/// `max_num`, if there is one.
pub open spec fn first_compress_error<T: Comprezable>(
    items: Seq<T>,
    max_num: Option<u128>,
) -> Option<CompressErrorKind>
    decreases items.len(),
{
    if items.len() == 0 {
        None
    } else {
        match items[0].spec_compress_error(max_num) {
            Some(kind) => Some(kind),
            None => first_compress_error(items.skip(1), max_num),
        }
    }
}

/// The bits of a collection whose packed items, one after the other, are
/// `body`.
pub open spec fn framed_items(body: Seq<u8>) -> Seq<u8> {
    metalength(byte_count(body.len())) + body + zeros(padding(body.len()))
}

/// Frames the packed items of a collection: the length prefix of the number
/// of bytes that hold `body`, then `body`, then zero bits up to a whole byte.
pub fn frame_items(body: Vec<u8>) -> (r: Vec<u8>)
    ensures
        r@ == framed_items(body@),
        r@.len() % 8 == 0,
        r@.len() >= 8,
        is_bits(body@) ==> is_bits(r@),
{
    let mut all = body;
    let len = all.len() / 8 + if all.len() % 8 != 0 {
        1
    } else {
        0
    };
    pad_to_byte(&mut all);
    let mut res = compress_metalength_v2(len);
    res.append(&mut all);
    proof {
        assert(res@ =~= framed_items(body@));
        lemma_framed_items_shape(body@);
    }
    res
}

/// Reads `count` items of `T`, one after the other, from `payload`, and
/// checks that only zero bits are left behind them.
pub fn take_counted<T: Comprezable>(payload: &[u8], bit_size: Option<usize>, count: usize) -> (r:
    Result<Vec<T>, DecompressError>)
    requires
        T::spec_width_ok(bit_size),
    ensures
        match read_counted::<T>(payload@, bit_size, count as nat) {
            Ok(items) => r is Ok && r.unwrap().deep_view() == items,
            Err(kind) => r matches Err(e) && e.kind() == kind,
        },
{
    let mut res: Vec<T> = Vec::new();
    let mut done: usize = 0;
    let mut pos: usize = 0;
    proof {
        let whole = read_counted::<T>(payload@, bit_size, count as nat);
        assert(res.deep_view() =~= Seq::<T::V>::empty());
        assert(payload@.skip(0) =~= payload@);
        assert(preceded(res.deep_view(), whole) == whole) by {
            if let Ok(items) = whole {
                assert(Seq::<T::V>::empty() + items =~= items);
            }
        }
    }
    while done < count
        invariant
            done <= count,
            pos <= payload.len(),
            T::spec_width_ok(bit_size),
            read_counted::<T>(payload@, bit_size, count as nat) == preceded(
                res.deep_view(),
                read_counted::<T>(payload@.skip(pos as int), bit_size, (count - done) as nat),
            ),
        decreases count - done,
    {
        let ghost before = res.deep_view();
        let left = slice_subrange(payload, pos, payload.len());
        assert(left@ =~= payload@.skip(pos as int));
        match T::decompress_from_slice(left, bit_size) {
            Ok((item, used)) => {
                res.push(item);
                proof {
                    assert(res.deep_view() =~= before + seq![item.deep_view()]);
                    assert(payload@.skip(pos as int).skip(used as int) =~= payload@.skip(
                        pos + used,
                    ));
                    let later = read_counted::<T>(
                        payload@.skip(pos + used),
                        bit_size,
                        (count - done - 1) as nat,
                    );
                    if let Ok(items) = later {
                        assert(before + (seq![item.deep_view()] + items) =~= res.deep_view()
                            + items);
                    }
                }
                pos += used;
            },
            Err(e) => {
                return Err(e);
            },
        }
        done += 1;
    }
    let mut i: usize = pos;
    while i < payload.len()
        invariant
            pos <= i <= payload.len(),
            forall|j: int| pos <= j < i ==> #[trigger] payload@[j] == 0,
            read_counted::<T>(payload@, bit_size, count as nat) == preceded(
                res.deep_view(),
                read_counted::<T>(payload@.skip(pos as int), bit_size, 0),
            ),
        decreases payload.len() - i,
    {
        if payload[i] != 0 {
            proof {
                assert(payload@.skip(pos as int)[i - pos] == payload@[i as int]);
            }
            return Err(DecompressError::wrong_length("bits are left behind the last element"));
        }
        i += 1;
    }
    proof {
        assert(res.deep_view() + Seq::<T::V>::empty() =~= res.deep_view());
        let left = payload@.skip(pos as int);
        assert forall|j: int| 0 <= j < left.len() implies #[trigger] left[j] == 0 by {
            assert(payload@[pos + j] == 0);
        }
    }
    Ok(res)
}

/// Reads items of `T`, one after the other, from `payload`, until nothing is
/// left of it.
pub fn take_all<T: Comprezable>(payload: &[u8], bit_size: Option<usize>) -> (r: Result<
    Vec<T>,
    DecompressError,
>)
    requires
        T::spec_width_ok(bit_size),
    ensures
        match read_all::<T>(payload@, bit_size) {
            Ok(items) => r is Ok && r.unwrap().deep_view() == items,
            Err(kind) => r matches Err(e) && e.kind() == kind,
        },
{
    let mut res: Vec<T> = Vec::new();
    let mut pos: usize = 0;
    proof {
        let whole = read_all::<T>(payload@, bit_size);
        assert(res.deep_view() =~= Seq::<T::V>::empty());
        assert(payload@.skip(0) =~= payload@);
        assert(preceded(res.deep_view(), whole) == whole) by {
            if let Ok(items) = whole {
                assert(Seq::<T::V>::empty() + items =~= items);
            }
        }
    }
    while pos < payload.len()
        invariant
            pos <= payload.len(),
            T::spec_width_ok(bit_size),
            read_all::<T>(payload@, bit_size) == preceded(
                res.deep_view(),
                read_all::<T>(payload@.skip(pos as int), bit_size),
            ),
        decreases payload.len() - pos,
    {
        let ghost before = res.deep_view();
        let left = slice_subrange(payload, pos, payload.len());
        assert(left@ =~= payload@.skip(pos as int));
        match T::decompress_from_slice(left, bit_size) {
            Ok((item, used)) => {
                if used == 0 {
                    return Err(DecompressError::wrong_length("an element without bits"));
                }
                res.push(item);
                proof {
                    assert(res.deep_view() =~= before + seq![item.deep_view()]);
                    assert(payload@.skip(pos as int).skip(used as int) =~= payload@.skip(
                        pos + used,
                    ));
                    let later = read_all::<T>(payload@.skip(pos + used), bit_size);
                    if let Ok(items) = later {
                        assert(before + (seq![item.deep_view()] + items) =~= res.deep_view()
                            + items);
                    }
                }
                pos += used;
            },
            Err(e) => {
                return Err(e);
            },
        }
    }
    proof {
        assert(res.deep_view() + Seq::<T::V>::empty() =~= res.deep_view());
    }
    Ok(res)
}

/// Packed items that are each read back as their value, one after the other
/// and followed by zero bits only, are read back as the sequence of values.
pub proof fn lemma_read_counted_parts<T: Comprezable>(
    parts: Seq<Seq<u8>>,
    values: Seq<T::V>,
    bit_size: Option<usize>,
    tail: Seq<u8>,
)
    requires
        parts.len() == values.len(),
        forall|i: int|
            0 <= i < parts.len() ==> reads_back::<T>(#[trigger] parts[i], bit_size, values[i]),
        all_zero(tail),
    ensures
        read_counted::<T>(parts.flatten() + tail, bit_size, parts.len()) == Ok::<
            Seq<T::V>,
            DecompressErrorKind,
        >(values),
    decreases parts.len(),
{
    let payload = parts.flatten() + tail;
    if parts.len() == 0 {
        assert(payload =~= tail);
        assert(values =~= Seq::<T::V>::empty());
    } else {
        let first = parts.first();
        let later = parts.drop_first();
        let rest = later.flatten() + tail;
        assert(payload =~= first + rest);
        assert(reads_back::<T>(parts[0], bit_size, values[0]));
        assert(T::spec_decompress_from(first + rest, bit_size) == Ok::<
            (T::V, nat),
            DecompressErrorKind,
        >((values[0], first.len())));
        assert(payload.skip(first.len() as int) =~= rest);
        assert forall|i: int| 0 <= i < later.len() implies reads_back::<T>(
            #[trigger] later[i],
            bit_size,
            values.drop_first()[i],
        ) by {
            assert(later[i] == parts[i + 1]);
        }
        lemma_read_counted_parts::<T>(later, values.drop_first(), bit_size, tail);
        assert(seq![values[0]] + values.drop_first() =~= values);
    }
}

/// Packed items that are each read back as their value and hold a bit at
/// least, one after the other with nothing behind them, are read back as the
/// sequence of values.
pub proof fn lemma_read_all_parts<T: Comprezable>(
    parts: Seq<Seq<u8>>,
    values: Seq<T::V>,
    bit_size: Option<usize>,
)
    requires
        parts.len() == values.len(),
        forall|i: int|
            0 <= i < parts.len() ==> reads_back::<T>(#[trigger] parts[i], bit_size, values[i]),
        forall|i: int| 0 <= i < parts.len() ==> (#[trigger] parts[i]).len() > 0,
    ensures
        read_all::<T>(parts.flatten(), bit_size) == Ok::<Seq<T::V>, DecompressErrorKind>(values),
    decreases parts.len(),
{
    let payload = parts.flatten();
    if parts.len() == 0 {
        assert(values =~= Seq::<T::V>::empty());
    } else {
        let first = parts.first();
        let later = parts.drop_first();
        let rest = later.flatten();
        assert(payload =~= first + rest);
        assert(reads_back::<T>(parts[0], bit_size, values[0]));
        assert(T::spec_decompress_from(first + rest, bit_size) == Ok::<
            (T::V, nat),
            DecompressErrorKind,
        >((values[0], first.len())));
        assert(payload.skip(first.len() as int) =~= rest);
        assert forall|i: int| 0 <= i < later.len() implies reads_back::<T>(
            #[trigger] later[i],
            bit_size,
            values.drop_first()[i],
        ) by {
            assert(later[i] == parts[i + 1]);
        }
        assert forall|i: int| 0 <= i < later.len() implies (#[trigger] later[i]).len() > 0 by {
            assert(later[i] == parts[i + 1]);
        }
        lemma_read_all_parts::<T>(later, values.drop_first(), bit_size);
        assert(seq![values[0]] + values.drop_first() =~= values);
    }
}

/// Items that can be packed do not count: where every item before `at` can
/// be packed, the first error among `items` is the first among those from
/// `at` on.
pub proof fn lemma_first_compress_error<T: Comprezable>(
    items: Seq<T>,
    max_num: Option<u128>,
    at: int,
)
    requires
        0 <= at <= items.len(),
        forall|i: int| 0 <= i < at ==> (#[trigger] items[i]).spec_compress_error(max_num) is None,
    ensures
        first_compress_error(items, max_num) == if at < items.len() {
            first_compress_error(items.skip(at), max_num)
        } else {
            None
        },
    decreases at,
{
    if at == 0 {
        assert(items.skip(0) =~= items);
    } else {
        assert(items[0].spec_compress_error(max_num) is None);
        assert forall|i: int| 0 <= i < at - 1 implies (#[trigger] items.skip(
            1,
        )[i]).spec_compress_error(max_num) is None by {
            assert(items.skip(1)[i] == items[i + 1]);
        }
        lemma_first_compress_error(items.skip(1), max_num, at - 1);
        assert(items.skip(1).skip(at - 1) =~= items.skip(at));
    }
}

/// A framed body, whatever follows it, is read as a payload: the body with
/// its zero bits, and no bit after them is taken.
pub proof fn lemma_read_framed_items(body: Seq<u8>, rest: Seq<u8>)
    requires
        body.len() <= usize::MAX,
    ensures
        read_payload(framed_items(body) + rest) == Ok::<(Seq<u8>, nat), DecompressErrorKind>(
            (body + zeros(padding(body.len())), framed_items(body).len()),
        ),
        (body + zeros(padding(body.len()))).len() == 8 * byte_count(body.len()),
{
    let n = byte_count(body.len());
    let prefix = metalength(n);
    let payload = body + zeros(padding(body.len()));
    let bits = framed_items(body) + rest;
    lemma_metalength_round_trip(n, payload + rest);
    assert(bits =~= prefix + (payload + rest));
    assert(bits.subrange(prefix.len() as int, (prefix.len() + 8 * n) as int) =~= payload);
    assert(framed_items(body) =~= prefix + payload);
}

/// Packed items that are each read back as their value, framed as a
/// collection, are read back as the sequence of values, whatever follows the
/// frame: provided that, where the items have a fixed width, the zero bits
/// that fill the last byte are fewer than an item has bits, and that items
/// which delimit themselves are whole bytes.
pub proof fn lemma_framed_parts_read_back<T: Comprezable>(
    parts: Seq<Seq<u8>>,
    values: Seq<T::V>,
    bit_size: Option<usize>,
)
    requires
        parts.len() == values.len(),
        parts.flatten().len() <= usize::MAX,
        forall|i: int|
            0 <= i < parts.len() ==> reads_back::<T>(#[trigger] parts[i], bit_size, values[i]),
        forall|i: int| 0 <= i < parts.len() ==> (#[trigger] parts[i]).len() > 0,
        match T::spec_element_width(bit_size) {
            Some(width) => parts.flatten().len() == width * parts.len() && padding(
                (width * parts.len()) as nat,
            ) < width,
            None => parts.flatten().len() % 8 == 0,
        },
    ensures
        forall|rest: Seq<u8>| #[trigger]
            read_collection::<T>(framed_items(parts.flatten()) + rest, bit_size) == Ok::<
                (Seq<T::V>, nat),
                DecompressErrorKind,
            >((values, framed_items(parts.flatten()).len())),
{
    let body = parts.flatten();
    let pad = padding(body.len());
    let payload = body + zeros(pad);
    let framed = framed_items(body);
    assert forall|rest: Seq<u8>| #[trigger]
        read_collection::<T>(framed + rest, bit_size) == Ok::<
            (Seq<T::V>, nat),
            DecompressErrorKind,
        >((values, framed.len())) by {
        lemma_read_framed_items(body, rest);
        lemma_items_read_back::<T>(parts, values, bit_size);
    }
}

/// The items of a framed collection are read back from its payload.
proof fn lemma_items_read_back<T: Comprezable>(
    parts: Seq<Seq<u8>>,
    values: Seq<T::V>,
    bit_size: Option<usize>,
)
    requires
        parts.len() == values.len(),
        forall|i: int|
            0 <= i < parts.len() ==> reads_back::<T>(#[trigger] parts[i], bit_size, values[i]),
        forall|i: int| 0 <= i < parts.len() ==> (#[trigger] parts[i]).len() > 0,
        match T::spec_element_width(bit_size) {
            Some(width) => parts.flatten().len() == width * parts.len() && padding(
                (width * parts.len()) as nat,
            ) < width,
            None => parts.flatten().len() % 8 == 0,
        },
    ensures
        read_items::<T>(parts.flatten() + zeros(padding(parts.flatten().len())), bit_size) == Ok::<
            Seq<T::V>,
            DecompressErrorKind,
        >(values),
{
    let body = parts.flatten();
    let pad = padding(body.len());
    let payload = body + zeros(pad);
    match T::spec_element_width(bit_size) {
        Some(width) => {
            let count = parts.len();
            assert(all_zero(zeros(pad)));
            lemma_read_counted_parts::<T>(parts, values, bit_size, zeros(pad));
            assert(payload.len() == count * width + pad) by (nonlinear_arith)
                requires
                    payload.len() == body.len() + pad,
                    body.len() == width * count,
            ;
            vstd::arithmetic::div_mod::lemma_fundamental_div_mod_converse(
                payload.len() as int,
                width as int,
                count as int,
                pad as int,
            );
        },
        None => {
            assert(payload =~= body);
            lemma_read_all_parts::<T>(parts, values, bit_size);
        },
    }
}

/// `parts` are packed forms of `items` under `max_num`, one for each, and
/// `bits` frame them, one after the other.
pub open spec fn packs_items<T: Comprezable>(
    items: Seq<T>,
    max_num: Option<u128>,
    parts: Seq<Seq<u8>>,
    bits: Seq<u8>,
) -> bool {
    &&& parts.len() == items.len()
    &&& parts.flatten().len() <= usize::MAX
    &&& forall|i: int| 0 <= i < items.len() ==> items[i].spec_packed(max_num, #[trigger] parts[i])
    &&& bits == framed_items(parts.flatten())
}

/// Parts that hold bits only, one after the other, hold bits only.
pub proof fn lemma_flatten_bits(parts: Seq<Seq<u8>>)
    requires
        forall|i: int| 0 <= i < parts.len() ==> is_bits(#[trigger] parts[i]),
    ensures
        is_bits(parts.flatten()),
    decreases parts.len(),
{
    if parts.len() > 0 {
        let later = parts.drop_first();
        assert forall|i: int| 0 <= i < later.len() implies is_bits(#[trigger] later[i]) by {
            assert(later[i] == parts[i + 1]);
        }
        lemma_flatten_bits(later);
        assert(is_bits(parts[0]));
    }
}

/// Parts of one width, one after the other, are as long as their width times
/// their number.
pub proof fn lemma_flatten_uniform(parts: Seq<Seq<u8>>, width: nat)
    requires
        forall|i: int| 0 <= i < parts.len() ==> (#[trigger] parts[i]).len() == width,
    ensures
        parts.flatten().len() == width * parts.len(),
    decreases parts.len(),
{
    if parts.len() > 0 {
        let later = parts.drop_first();
        assert forall|i: int| 0 <= i < later.len() implies (#[trigger] later[i]).len()
            == width by {
            assert(later[i] == parts[i + 1]);
        }
        lemma_flatten_uniform(later, width);
        assert(parts[0].len() == width);
        assert(width * parts.len() == width + width * later.len()) by (nonlinear_arith)
            requires
                parts.len() == later.len() + 1,
        ;
    } else {
        assert(width * parts.len() == 0) by (nonlinear_arith)
            requires
                parts.len() == 0,
        ;
    }
}

/// Parts made of whole bytes, one after the other, are made of whole bytes.
pub proof fn lemma_flatten_whole_bytes(parts: Seq<Seq<u8>>)
    requires
        forall|i: int| 0 <= i < parts.len() ==> (#[trigger] parts[i]).len() % 8 == 0,
    ensures
        parts.flatten().len() % 8 == 0,
    decreases parts.len(),
{
    if parts.len() > 0 {
        let later = parts.drop_first();
        assert forall|i: int| 0 <= i < later.len() implies (#[trigger] later[i]).len() % 8
            == 0 by {
            assert(later[i] == parts[i + 1]);
        }
        lemma_flatten_whole_bytes(later);
        assert(parts[0].len() % 8 == 0);
    }
}

/// The frame of any body holds whole bytes, and bits only where the body
/// does.
pub proof fn lemma_framed_items_shape(body: Seq<u8>)
    ensures
        framed_items(body).len() % 8 == 0,
        framed_items(body).len() >= 8,
        is_bits(body) ==> is_bits(framed_items(body)),
{
    lemma_metalength_len(byte_count(body.len()));
}

impl<T: Comprezable> Comprezable for Vec<T> {
    open spec fn spec_bound_ok(max_num: Option<u128>) -> bool {
        T::spec_bound_ok(max_num)
    }

    open spec fn spec_width_ok(bit_size: Option<usize>) -> bool {
        T::spec_width_ok(bit_size)
    }

    open spec fn spec_bit_size(max_num: Option<u128>) -> Option<usize> {
        T::spec_bit_size(max_num)
    }

    open spec fn spec_element_width(bit_size: Option<usize>) -> Option<usize> {
        None
    }

    open spec fn spec_compress_error(self, max_num: Option<u128>) -> Option<CompressErrorKind> {
        first_compress_error(self@, max_num)
    }

    /// The bits frame packed forms of the items, one for each, in order.
    open spec fn spec_packed(self, max_num: Option<u128>, bits: Seq<u8>) -> bool {
        exists|parts: Seq<Seq<u8>>| packs_items(self@, max_num, parts, bits)
    }

    /// Every item is read back as itself, and, where the items have a fixed
    /// width, the zero bits that fill the last byte are fewer than an item
    /// has bits: a reader cannot tell more zero bits from an item.
    open spec fn spec_faithful(self, max_num: Option<u128>) -> bool {
        &&& forall|i: int| 0 <= i < self@.len() ==> (#[trigger] self@[i]).spec_faithful(max_num)
        &&& match T::spec_element_width(T::spec_bit_size(max_num)) {
            Some(width) => padding((width * self@.len()) as nat) < width,
            None => true,
        }
    }

    open spec fn spec_decompress_from(bits: Seq<u8>, bit_size: Option<usize>) -> Result<
        (Seq<T::V>, nat),
        DecompressErrorKind,
    > {
        read_collection::<T>(bits, bit_size)
    }

    /// A collection is packed as a field, behind its length prefix.
    open spec fn spec_whole_error(self) -> Option<CompressErrorKind> {
        Some(CompressErrorKind::DataNoSupported)
    }

    open spec fn spec_whole_packed(self, bits: Seq<u8>) -> bool {
        false
    }

    /// A collection is read as a field, behind its length prefix.
    open spec fn spec_decompress(bits: Seq<u8>) -> Result<Seq<T::V>, DecompressErrorKind> {
        Err(DecompressErrorKind::PrimitiveDataErr)
    }

    proof fn lemma_shape(self, max_num: Option<u128>, bits: Seq<u8>) {
        let parts = choose|parts: Seq<Seq<u8>>| packs_items(self@, max_num, parts, bits);
        assert forall|i: int| 0 <= i < parts.len() implies is_bits(#[trigger] parts[i]) by {
            self@[i].lemma_shape(max_num, parts[i]);
        }
        lemma_flatten_bits(parts);
        lemma_framed_items_shape(parts.flatten());
    }

    proof fn lemma_read_back(self, max_num: Option<u128>, bits: Seq<u8>, rest: Seq<u8>) {
        let parts = choose|parts: Seq<Seq<u8>>| packs_items(self@, max_num, parts, bits);
        let bit_size = T::spec_bit_size(max_num);
        let values = self.deep_view();
        assert forall|i: int| 0 <= i < parts.len() implies reads_back::<T>(
            #[trigger] parts[i],
            bit_size,
            values[i],
        ) by {
            assert(self@[i].spec_faithful(max_num));
            assert forall|after: Seq<u8>| #[trigger]
                T::spec_decompress_from(parts[i] + after, bit_size) == Ok::<
                    (T::V, nat),
                    DecompressErrorKind,
                >((values[i], parts[i].len())) by {
                self@[i].lemma_read_back(max_num, parts[i], after);
            }
        }
        assert forall|i: int| 0 <= i < parts.len() implies (#[trigger] parts[i]).len() > 0 by {
            self@[i].lemma_shape(max_num, parts[i]);
        }
        match T::spec_element_width(bit_size) {
            Some(width) => {
                assert forall|i: int| 0 <= i < parts.len() implies (#[trigger] parts[i]).len()
                    == width by {
                    self@[i].lemma_shape(max_num, parts[i]);
                }
                lemma_flatten_uniform(parts, width as nat);
            },
            None => {
                assert forall|i: int| 0 <= i < parts.len() implies (#[trigger] parts[i]).len() % 8
                    == 0 by {
                    self@[i].lemma_shape(max_num, parts[i]);
                }
                lemma_flatten_whole_bytes(parts);
            },
        }
        lemma_framed_parts_read_back::<T>(parts, values, bit_size);
        assert(read_collection::<T>(framed_items(parts.flatten()) + rest, bit_size) == Ok::<
            (Seq<T::V>, nat),
            DecompressErrorKind,
        >((values, framed_items(parts.flatten()).len())));
    }

    /// Always fails: a collection is packed as a field, behind its length
    /// prefix.
    fn compress(self) -> (r: Result<Compressed, CompressError>) {
        Err(CompressError::not_supported())
    }

    /// Packs the collection: the length prefix of the number of bytes that
    /// hold the packed items, then the packed items one after the other, then
    /// zero bits up to a whole byte. The first item that cannot be packed ends
    /// it with that item's error.
    fn compress_to_binaries(self, max_num: Option<u128>) -> (r: Result<Compressed, CompressError>)
        ensures
            r is Ok ==> r.unwrap() is Binaries,
    {
        let ghost items = self@;
        let mut all: Vec<u8> = Vec::new();
        let ghost mut parts: Seq<Seq<u8>> = Seq::empty();
        for element in it: self.into_iter()
            invariant
                it.seq() == items,
                T::spec_bound_ok(max_num),
                parts.len() == it.index(),
                all@ == parts.flatten(),
                forall|i: int|
                    0 <= i < parts.len() ==> (#[trigger] items[i]).spec_compress_error(max_num)
                        is None,
                forall|i: int|
                    0 <= i < parts.len() ==> items[i].spec_packed(max_num, #[trigger] parts[i]),
        {
            let ghost index = it.index();
            assert(element == items[index]);
            match element.compress_to_binaries(max_num) {
                Ok(compressed) => {
                    let ghost part = compressed.bits();
                    compressed.extend_to_res(&mut all);
                    proof {
                        broadcast use Seq::lemma_flatten_push;

                        let longer = parts.push(part);
                        assert(longer.flatten() == parts.flatten() + part);
                        parts = longer;
                    }
                },
                Err(e) => {
                    proof {
                        lemma_first_compress_error(items, max_num, index);
                        assert(items.skip(index)[0] == items[index]);
                    }
                    return Err(e);
                },
            }
        }
        proof {
            lemma_first_compress_error(items, max_num, items.len() as int);
            assert(parts.flatten().len() == all.len());
        }
        let res = frame_items(all);
        assert(packs_items(items, max_num, parts, res@));
        Ok(Compressed::Binaries(res))
    }

    /// The plan of a collection: that of its items, whose width the reader
    /// needs.
    fn max_binaries(max_num: Option<u128>) -> (r: BinaryChunk) {
        T::max_binaries(max_num)
    }

    /// Always fails: a collection is read as a field, behind its length
    /// prefix.
    fn decompress(_compressed: Compressed) -> (r: Result<Self, DecompressError>) {
        Err(DecompressError::not_supported())
    }

    fn decompress_from_slice(bits: &[u8], bit_size: Option<usize>) -> (r: Result<
        (Self, usize),
        DecompressError,
    >) {
        match take_payload(bits) {
            Ok((payload, used)) => {
                let read = match T::element_width(bit_size) {
                    Some(width) => {
                        if width == 0 {
                            return Err(DecompressError::wrong_length("elements without bits"));
                        }
                        let count = payload.len() / width;
                        take_counted::<T>(payload, bit_size, count)
                    },
                    None => take_all::<T>(payload, bit_size),
                };
                match read {
                    Ok(items) => Ok((items, used)),
                    Err(e) => Err(e),
                }
            },
            Err(e) => Err(e),
        }
    }

    fn element_width(_bit_size: Option<usize>) -> (r: Option<usize>) {
        None
    }
}

} // verus!
