//! The channel values of a group of pixels as bits.
use vstd::arithmetic::power2::{lemma2_to64, lemma_pow2_strictly_increases, pow2};
use vstd::prelude::*;

use crate::bits::{
    digit_of, high_digits_first, join, join_push, join_uniform, BitStream, MAX_STREAM_BITS,
};
use crate::data::ImageGroupingTransform;
use crate::encoding::huffman::{spelled, spelled_bound, spelled_digits, spelled_in_place};
use crate::error::{bad_metadata, EntroGdError};
use crate::image_preprocessor::color::wrapped;
use crate::utils::{
    bits_needed, bits_needed_bound, bits_needed_is_least, min_position_bits, unzigzag, zigzag,
    zigzag_decode_i16, zigzag_encode_i16, zigzag_round_trip,
};

verus! {

/// The bits of a byte, the most significant one first.
pub open spec fn byte_bits(value: u8) -> Seq<bool> {
    high_digits_first(value as nat, 8)
}

/// The bits of the zigzag coded difference between a byte and an anchor.
pub open spec fn residual(value: u8, anchor: u8) -> Seq<bool> {
    high_digits_first(zigzag(value - anchor) as nat, 9)
}

/// The position of the least byte, the first one where there are several.
pub open spec fn least_position(values: Seq<u8>) -> int
    decreases values.len(),
{
    if values.len() <= 1 {
        0
    } else {
        let before = least_position(values.drop_last());
        if values.last() < values[before] {
            values.len() - 1
        } else {
            before
        }
    }
}

/// The bits that tell the positions of a group apart.
pub open spec fn position_width(pixels: nat) -> nat {
    if pixels <= 1 {
        0
    } else {
        bits_needed(pixels)
    }
}

/// The bits of one channel of a group of pixels.
pub open spec fn feature_width(pixels: nat, transform: ImageGroupingTransform) -> nat {
    match transform {
        ImageGroupingTransform::Raw => 8 * pixels,
        ImageGroupingTransform::ForFirstPixel => (8 + 9 * (pixels - 1)) as nat,
        ImageGroupingTransform::ForMin => (8 + position_width(pixels) + 9 * (pixels - 1)) as nat,
    }
}

/// The differences of all bytes but one from that one.
pub open spec fn residuals(values: Seq<u8>, position: int) -> Seq<Seq<bool>> {
    Seq::new(
        (values.len() - 1) as nat,
        |k: int|
            residual(
                values[if k < position {
                    k
                } else {
                    k + 1
                }],
                values[position],
            ),
    )
}

/// One channel of a group of pixels as bits.
pub open spec fn coded_feature(values: Seq<u8>, transform: ImageGroupingTransform) -> Seq<bool> {
    match transform {
        ImageGroupingTransform::Raw => join(
            Seq::new(values.len(), |k: int| byte_bits(values[k])),
        ),
        ImageGroupingTransform::ForFirstPixel => byte_bits(values[0]) + join(residuals(values, 0)),
        ImageGroupingTransform::ForMin => {
            let least = least_position(values);
            byte_bits(values[least]) + high_digits_first(
                least as nat,
                position_width(values.len()),
            ) + join(residuals(values, least))
        },
    }
}

/// A byte from an anchor and the difference that starts at a bit.
pub open spec fn byte_from(bits: Seq<bool>, at: int, anchor: u8) -> u8 {
    wrapped(anchor + unzigzag(spelled(bits, at, 9) as int))
}

/// One channel of a group of pixels from its bits, if the anchor stands for one of the pixels.
pub open spec fn decoded_feature(
    bits: Seq<bool>,
    pixels: nat,
    transform: ImageGroupingTransform,
) -> Option<Seq<u8>> {
    let anchor = spelled(bits, 0, 8) as u8;
    match transform {
        ImageGroupingTransform::Raw => Some(
            Seq::new(pixels, |k: int| spelled(bits, 8 * k, 8) as u8),
        ),
        ImageGroupingTransform::ForFirstPixel => Some(
            Seq::new(
                pixels,
                |k: int|
                    if k == 0 {
                        anchor
                    } else {
                        byte_from(bits, 8 + 9 * (k - 1), anchor)
                    },
            ),
        ),
        ImageGroupingTransform::ForMin => {
            let width = position_width(pixels) as int;
            let position = spelled(bits, 8, position_width(pixels)) as int;
            if position < pixels {
                Some(
                    Seq::new(
                        pixels,
                        |k: int|
                            if k == position {
                                anchor
                            } else if k < position {
                                byte_from(bits, 8 + width + 9 * k, anchor)
                            } else {
                                byte_from(bits, 8 + width + 9 * (k - 1), anchor)
                            },
                    ),
                )
            } else {
                None
            }
        },
    }
}

/// The least byte is there, and no byte is less; bytes before it are greater.
pub proof fn least_position_bounds(values: Seq<u8>)
    requires
        values.len() > 0,
    ensures
        0 <= least_position(values) < values.len(),
        forall|k: int| 0 <= k < values.len() ==> values[least_position(values)] <= #[trigger] values[k],
        forall|k: int|
            0 <= k < least_position(values) ==> values[least_position(values)] < #[trigger] values[k],
    decreases values.len(),
{
    if values.len() > 1 {
        let before = values.drop_last();
        least_position_bounds(before);
        assert forall|k: int| 0 <= k < values.len() implies values[least_position(values)]
            <= #[trigger] values[k] by {
            if k < before.len() {
                assert(before[k] == values[k]);
            }
        }
        assert forall|k: int| 0 <= k < least_position(values) implies values[least_position(
            values,
        )] < #[trigger] values[k] by {
            assert(before[k] == values[k]);
        }
    }
}

/// A number is found again from its digits.
proof fn digits_are_found(bits: Seq<bool>, at: int, value: nat, width: nat)
    requires
        0 <= at,
        at + width <= bits.len(),
        bits.subrange(at, (at + width) as int) == high_digits_first(value, width),
        value < pow2(width),
    ensures
        spelled(bits, at, width) == value,
{
    lemma2_to64();
    spelled_in_place(bits, at, high_digits_first(value, width), width);
    spelled_digits(value, width, width);
    assert((width - width) as nat == 0);
    assert(value / pow2(0) == value) by {
        assert(pow2(0) == 1);
    }
}

/// A residual has nine bits, and the byte is found again from it.
proof fn residual_is_found(bits: Seq<bool>, at: int, value: u8, anchor: u8)
    requires
        0 <= at,
        at + 9 <= bits.len(),
        bits.subrange(at, at + 9) == residual(value, anchor),
    ensures
        byte_from(bits, at, anchor) == value,
{
    let code = zigzag(value - anchor) as nat;
    zigzag_round_trip(value - anchor, 0);
    lemma2_to64();
    assert(code < pow2(9));
    digits_are_found(bits, at, code, 9);
    reveal(wrapped);
}

/// The bits of a channel have the width that its transform asks for.
pub proof fn coded_feature_len(values: Seq<u8>, transform: ImageGroupingTransform)
    requires
        values.len() > 0,
    ensures
        coded_feature(values, transform).len() == feature_width(values.len(), transform),
{
    match transform {
        ImageGroupingTransform::Raw => {
            join_uniform(Seq::new(values.len(), |k: int| byte_bits(values[k])), 8);
        },
        ImageGroupingTransform::ForFirstPixel => {
            join_uniform(residuals(values, 0), 9);
        },
        ImageGroupingTransform::ForMin => {
            join_uniform(residuals(values, least_position(values)), 9);
        },
    }
}

/// The channel values of a group of pixels are found again from their bits.
pub proof fn feature_is_decoded(values: Seq<u8>, transform: ImageGroupingTransform)
    requires
        values.len() > 0,
    ensures
        decoded_feature(coded_feature(values, transform), values.len(), transform) == Some(values),
{
    let bits = coded_feature(values, transform);
    let n = values.len();
    coded_feature_len(values, transform);
    lemma2_to64();
    match transform {
        ImageGroupingTransform::Raw => {
            let parts = Seq::new(n, |k: int| byte_bits(values[k]));
            join_uniform(parts, 8);
            let found = decoded_feature(bits, n, transform)->0;
            assert forall|k: int| 0 <= k < n implies #[trigger] found[k] == values[k] by {
                assert(parts[k] == bits.subrange(k * 8, k * 8 + 8));
                digits_are_found(bits, 8 * k, values[k] as nat, 8);
            }
            assert(found =~= values);
        },
        ImageGroupingTransform::ForFirstPixel => {
            let parts = residuals(values, 0);
            join_uniform(parts, 9);
            assert(bits.subrange(0, 8) =~= byte_bits(values[0]));
            digits_are_found(bits, 0, values[0] as nat, 8);
            let found = decoded_feature(bits, n, transform)->0;
            assert forall|k: int| 0 <= k < n implies #[trigger] found[k] == values[k] by {
                if k > 0 {
                    assert(parts[k - 1] == join(parts).subrange((k - 1) * 9, (k - 1) * 9 + 9));
                    assert(bits.subrange(8 + 9 * (k - 1), 8 + 9 * (k - 1) + 9) =~= parts[k - 1]);
                    residual_is_found(bits, 8 + 9 * (k - 1), values[k], values[0]);
                }
            }
            assert(found =~= values);
        },
        ImageGroupingTransform::ForMin => {
            let least = least_position(values);
            let width = position_width(n);
            least_position_bounds(values);
            let parts = residuals(values, least);
            join_uniform(parts, 9);
            assert(bits.subrange(0, 8) =~= byte_bits(values[least]));
            digits_are_found(bits, 0, values[least] as nat, 8);
            bits_needed_is_least(n);
            assert(bits.subrange(8, (8 + width) as int) =~= high_digits_first(least as nat, width));
            digits_are_found(bits, 8, least as nat, width);
            let found = decoded_feature(bits, n, transform)->0;
            assert forall|k: int| 0 <= k < n implies #[trigger] found[k] == values[k] by {
                let j = if k < least {
                    k
                } else {
                    k - 1
                };
                if k != least {
                    let at = 8 + width + 9 * j;
                    assert(parts[j] == join(parts).subrange(j * 9, j * 9 + 9));
                    assert(bits.subrange(at, at + 9) =~= parts[j]);
                    residual_is_found(bits, at, values[k], values[least]);
                }
            }
            assert(found =~= values);
        },
    }
}

/// Appends a byte, its most significant bit first.
pub fn push_bits_u8(out: &mut BitStream, value: u8)
    requires
        old(out)@.len() + 8 <= MAX_STREAM_BITS,
    ensures
        final(out)@ == old(out)@ + byte_bits(value),
{
    out.append_high_first(value as u64, 8);
}

/// Appends the low bits of a number, the most significant one first.
pub fn push_bits_u16(out: &mut BitStream, value: u16, bit_count: usize)
    requires
        bit_count <= 16,
        old(out)@.len() + bit_count <= MAX_STREAM_BITS,
    ensures
        final(out)@ == old(out)@ + high_digits_first(value as nat, bit_count as nat),
{
    out.append_high_first(value as u64, bit_count);
}

/// Overwrites bits with the low bits of a number, the most significant one first.
pub fn store_u16_be_at(out: &mut BitStream, bit_cursor: usize, value: u16, bit_count: usize)
    requires
        bit_count <= 16,
        bit_cursor + bit_count <= old(out)@.len(),
    ensures
        final(out)@ == old(out)@.take(bit_cursor as int) + high_digits_first(
            value as nat,
            bit_count as nat,
        ) + old(out)@.skip(bit_cursor + bit_count),
{
    let total: usize = out.bit_len();
    let ghost digits = high_digits_first(value as nat, bit_count as nat);
    let mut i: usize = 0;
    assert(out@ =~= old(out)@.take(bit_cursor as int) + digits.take(0) + old(out)@.skip(
        bit_cursor as int,
    ));
    while i < bit_count
        invariant
            i <= bit_count <= 16,
            total == old(out)@.len(),
            bit_cursor + bit_count <= total,
            digits == high_digits_first(value as nat, bit_count as nat),
            out@ == old(out)@.take(bit_cursor as int) + digits.take(i as int) + old(out)@.skip(
                bit_cursor + i,
            ),
        decreases bit_count - i,
    {
        out.put_bit(bit_cursor + i, digit_of(value as u64, bit_count - 1 - i));
        assert(out@ =~= old(out)@.take(bit_cursor as int) + digits.take(i as int + 1) + old(
            out,
        )@.skip(bit_cursor + i + 1));
        i += 1;
    }
    assert(digits.take(bit_count as int) =~= digits);
}

/// Overwrites bits with a byte, its most significant bit first.
pub fn store_u8_be_at(out: &mut BitStream, bit_cursor: usize, value: u8)
    requires
        bit_cursor + 8 <= old(out)@.len(),
    ensures
        final(out)@ == old(out)@.take(bit_cursor as int) + byte_bits(value) + old(out)@.skip(
            bit_cursor + 8,
        ),
{
    store_u16_be_at(out, bit_cursor, value as u16, 8);
}

/// The zigzag code of the difference between two bytes.
pub fn zigzag_difference(value: u8, anchor: u8) -> (code: u16)
    ensures
        code == zigzag(value - anchor),
        code < 512,
{
    zigzag_encode_i16(value as i16 - anchor as i16)
}

/// Appends all bytes but one as differences from that one.
fn push_residuals(out: &mut BitStream, values: &Vec<u8>, position: usize)
    requires
        position < values@.len(),
        old(out)@.len() + 9 * (values@.len() - 1) <= MAX_STREAM_BITS,
    ensures
        final(out)@ == old(out)@ + join(residuals(values@, position as int)),
{
    let anchor: u8 = values[position];
    let ghost parts = residuals(values@, position as int);
    let mut k: usize = 0;
    proof {
        assert(parts.take(0) =~= Seq::empty());
        assert(out@ =~= old(out)@ + join(parts.take(0)));
    }
    while k < values.len() - 1
        invariant
            k <= values@.len() - 1,
            position < values@.len(),
            anchor == values@[position as int],
            parts == residuals(values@, position as int),
            old(out)@.len() + 9 * (values@.len() - 1) <= MAX_STREAM_BITS,
            out@ == old(out)@ + join(parts.take(k as int)),
            out@.len() == old(out)@.len() + 9 * k,
        decreases values@.len() - k,
    {
        let value: u8 = if k < position {
            values[k]
        } else {
            values[k + 1]
        };
        let code: u16 = zigzag_difference(value, anchor);
        push_bits_u16(out, code, 9);
        proof {
            assert(parts.take(k as int + 1) =~= parts.take(k as int).push(parts[k as int]));
            join_push(parts.take(k as int), parts[k as int]);
            assert(out@ =~= old(out)@ + join(parts.take(k as int + 1)));
        }
        k += 1;
    }
    assert(parts.take(k as int) =~= parts);
}

/// Appends an anchor, which is the first byte, and the differences of the others from it.
pub fn encode_for_anchor(out: &mut BitStream, values: &Vec<u8>)
    requires
        values@.len() > 0,
        old(out)@.len() + feature_width(values@.len(), ImageGroupingTransform::ForFirstPixel)
            <= MAX_STREAM_BITS,
    ensures
        final(out)@ == old(out)@ + coded_feature(values@, ImageGroupingTransform::ForFirstPixel),
{
    push_bits_u8(out, values[0]);
    push_residuals(out, values, 0);
    assert(out@ =~= old(out)@ + coded_feature(values@, ImageGroupingTransform::ForFirstPixel));
}

/// The position of the least byte, the first one where there are several.
fn find_least(values: &Vec<u8>) -> (position: usize)
    requires
        values@.len() > 0,
    ensures
        position == least_position(values@),
        position < values@.len(),
{
    let mut position: usize = 0;
    let mut k: usize = 1;
    assert(values@.take(1).len() == 1);
    while k < values.len()
        invariant
            1 <= k <= values@.len(),
            position == least_position(values@.take(k as int)),
            position < k,
        decreases values@.len() - k,
    {
        assert(values@.take(k as int + 1).drop_last() =~= values@.take(k as int));
        if values[k] < values[position] {
            position = k;
        }
        k += 1;
    }
    assert(values@.take(k as int) =~= values@);
    position
}

/// Appends one channel of a group of pixels.
pub fn encode_grouped_channel(
    out: &mut BitStream,
    values: &Vec<u8>,
    grouping_transform: ImageGroupingTransform,
)
    requires
        0 < values@.len() <= 0xffff,
        old(out)@.len() + feature_width(values@.len(), grouping_transform) <= MAX_STREAM_BITS,
    ensures
        final(out)@ == old(out)@ + coded_feature(values@, grouping_transform),
{
    match grouping_transform {
        ImageGroupingTransform::Raw => {
            let ghost parts = Seq::new(values@.len(), |k: int| byte_bits(values@[k]));
            let mut k: usize = 0;
            proof {
                assert(parts.take(0) =~= Seq::empty());
                assert(out@ =~= old(out)@ + join(parts.take(0)));
            }
            while k < values.len()
                invariant
                    k <= values@.len(),
                    parts == Seq::new(values@.len(), |i: int| byte_bits(values@[i])),
                    old(out)@.len() + 8 * values@.len() <= MAX_STREAM_BITS,
                    out@ == old(out)@ + join(parts.take(k as int)),
                    out@.len() == old(out)@.len() + 8 * k,
                decreases values@.len() - k,
            {
                push_bits_u8(out, values[k]);
                proof {
                    assert(parts.take(k as int + 1) =~= parts.take(k as int).push(parts[k as int]));
                    join_push(parts.take(k as int), parts[k as int]);
                    assert(out@ =~= old(out)@ + join(parts.take(k as int + 1)));
                }
                k += 1;
            }
            assert(parts.take(k as int) =~= parts);
        },
        ImageGroupingTransform::ForFirstPixel => {
            encode_for_anchor(out, values);
        },
        ImageGroupingTransform::ForMin => {
            let position: usize = find_least(values);
            let position_bits: usize = min_position_bits(values.len());
            proof {
                lemma2_to64();
                bits_needed_bound(values@.len(), 16);
            }
            push_bits_u8(out, values[position]);
            push_bits_u16(out, position as u16, position_bits);
            push_residuals(out, values, position);
            assert(out@ =~= old(out)@ + coded_feature(values@, grouping_transform));
        },
    }
}

/// The number that some bits spell, the most significant one first.
pub fn bits_to_u16(bits: &BitStream, start: usize, width: usize) -> (value: u16)
    requires
        width <= 16,
        start + width <= bits@.len(),
    ensures
        value == spelled(bits@, start as int, width as nat),
{
    let total: usize = bits.bit_len();
    let mut value: u16 = 0;
    let mut i: usize = 0;
    while i < width
        invariant
            i <= width <= 16,
            start + width <= total == bits@.len(),
            value == spelled(bits@, start as int, i as nat),
        decreases width - i,
    {
        proof {
            spelled_bound(bits@, start as int, i as nat);
            spelled_bound(bits@, start as int, i as nat + 1);
            lemma2_to64();
            if i + 1 < 16 {
                lemma_pow2_strictly_increases(i as nat + 1, 16);
            }
        }
        value = 2 * value + (if bits.bit(start + i) {
            1
        } else {
            0
        });
        i += 1;
    }
    value
}

/// A byte from an anchor and the difference that starts at a bit.
fn read_byte_from(bits: &BitStream, at: usize, anchor: u8) -> (value: u8)
    requires
        at + 9 <= bits@.len(),
    ensures
        value == byte_from(bits@, at as int, anchor),
{
    let code: u16 = bits_to_u16(bits, at, 9);
    proof {
        spelled_bound(bits@, at as int, 9);
        lemma2_to64();
        reveal(wrapped);
    }
    let sum: i16 = anchor as i16 + zigzag_decode_i16(code);
    if sum < 0 {
        (sum + 256) as u8
    } else if sum > 255 {
        (sum - 256) as u8
    } else {
        sum as u8
    }
}

/// One channel of a group of pixels from its bits.
pub fn decode_grouped_feature(
    bits: &BitStream,
    pixels: usize,
    grouping_transform: ImageGroupingTransform,
) -> (result: Result<Vec<u8>, EntroGdError>)
    requires
        0 < pixels <= 0xffff,
        bits@.len() == feature_width(pixels as nat, grouping_transform),
    ensures
        match decoded_feature(bits@, pixels as nat, grouping_transform) {
            Some(values) => result matches Ok(found) && found@ == values,
            None => result matches Err(error) && error is InvalidMetadata,
        },
{
    let total: usize = bits.bit_len();
    let ghost goal = decoded_feature(bits@, pixels as nat, grouping_transform);
    proof {
        spelled_bound(bits@, 0, 8);
        lemma2_to64();
        bits_needed_bound(pixels as nat, 16);
    }
    let anchor: u8 = bits_to_u16(bits, 0, 8) as u8;
    let position_bits: usize = match grouping_transform {
        ImageGroupingTransform::ForMin => min_position_bits(pixels),
        _ => 0,
    };
    let position: usize = bits_to_u16(bits, 8, position_bits) as usize;
    if position >= pixels {
        return Err(bad_metadata("position of the least pixel is outside of its group"));
    }
    let mut values: Vec<u8> = Vec::new();
    let mut k: usize = 0;
    while k < pixels
        invariant
            k <= pixels <= 0xffff,
            position < pixels,
            total == bits@.len() == feature_width(pixels as nat, grouping_transform),
            anchor == spelled(bits@, 0, 8) as u8,
            position_bits == (if grouping_transform == ImageGroupingTransform::ForMin {
                position_width(pixels as nat)
            } else {
                0
            }),
            position == spelled(bits@, 8, position_bits as nat),
            goal == decoded_feature(bits@, pixels as nat, grouping_transform),
            goal is Some,
            values@.len() == k,
            forall|j: int| 0 <= j < k ==> #[trigger] values@[j] == (goal->0)[j],
        decreases pixels - k,
    {
        let value: u8 = match grouping_transform {
            ImageGroupingTransform::Raw => {
                proof {
                    spelled_bound(bits@, 8 * k, 8);
                    lemma2_to64();
                }
                bits_to_u16(bits, 8 * k, 8) as u8
            },
            _ => {
                if k == position {
                    anchor
                } else if k < position {
                    read_byte_from(bits, 8 + position_bits + 9 * k, anchor)
                } else {
                    read_byte_from(bits, 8 + position_bits + 9 * (k - 1), anchor)
                }
            },
        };
        assert(value == (goal->0)[k as int]);
        values.push(value);
        k += 1;
    }
    assert(values@ =~= goal->0);
    Ok(values)
}

/// The bits of one channel of a group of pixels.
pub fn feature_bits_for_grouping(
    pixels_per_group: usize,
    grouping_transform: ImageGroupingTransform,
) -> (result: Result<usize, EntroGdError>)
    ensures
        result is Ok <==> {
            &&& grouping_transform == ImageGroupingTransform::Raw || pixels_per_group > 0
            &&& feature_width(pixels_per_group as nat, grouping_transform) <= usize::MAX
        },
        result matches Ok(bits) ==> bits == feature_width(
            pixels_per_group as nat,
            grouping_transform,
        ),
        result matches Err(error) ==> error is InvalidMetadata,
{
    match grouping_transform {
        ImageGroupingTransform::Raw => match pixels_per_group.checked_mul(8) {
            Some(bits) => Ok(bits),
            None => Err(bad_metadata("pixel grouping overflows feature bit width")),
        },
        ImageGroupingTransform::ForFirstPixel => {
            if pixels_per_group == 0 {
                return Err(bad_metadata("pixel_grouping must be > 0"));
            }
            match (pixels_per_group - 1).checked_mul(9) {
                Some(residual_bits) => match residual_bits.checked_add(8) {
                    Some(bits) => Ok(bits),
                    None => Err(bad_metadata("pixel grouping overflows feature bit width")),
                },
                None => Err(bad_metadata("pixel grouping overflows residual bit width")),
            }
        },
        ImageGroupingTransform::ForMin => {
            if pixels_per_group == 0 {
                return Err(bad_metadata("pixel_grouping must be > 0"));
            }
            let position_bits: usize = min_position_bits(pixels_per_group);
            match (pixels_per_group - 1).checked_mul(9) {
                Some(residual_bits) => match residual_bits.checked_add(8 + position_bits) {
                    Some(bits) => Ok(bits),
                    None => Err(bad_metadata("pixel grouping overflows feature bit width")),
                },
                None => Err(bad_metadata("pixel grouping overflows residual bit width")),
            }
        },
    }
}

} // verus!
