//! Where pixels are found in groups, and what groups keep of them.
use vstd::arithmetic::power2::lemma2_to64;
use vstd::prelude::*;

use crate::data::ImageGroupingTransform;
use crate::image_preprocessor::geometry::{parts_of, ImageGeometry};
use crate::image_preprocessor::grouping::{
    byte_bits, coded_feature, feature_width, least_position, least_position_bounds, residual,
    residuals,
};
use crate::numbers::digit_beyond;
use crate::utils::{is_least_width, least_width_is_needed, zigzag};

verus! {

/// A number is put together from how often a part fits and what is left, and only in this way.
proof fn parts_and_rest(value: int, size: int, whole: int, rest: int)
    requires
        0 < size,
        0 <= rest < size,
        value == whole * size + rest,
    ensures
        value / size == whole,
        value % size == rest,
{
    assert(value / size == whole && value % size == rest) by (nonlinear_arith)
        requires
            0 < size,
            0 <= rest < size,
            value == whole * size + rest,
    ;
}

/// The quotient and the rest of a number.
proof fn quotient_and_rest(value: int, size: int)
    requires
        0 < size,
        0 <= value,
    ensures
        value == (value / size) * size + value % size,
        0 <= value % size < size,
        0 <= value / size,
{
    assert(value == (value / size) * size + value % size && 0 <= value % size < size && 0 <= value
        / size) by (nonlinear_arith)
        requires
            0 < size,
            0 <= value,
    ;
}

/// Groups cover a length, and one fewer would not.
pub proof fn groups_are_enough(length: nat, size: nat)
    requires
        size > 0,
    ensures
        parts_of(length, size) * size >= length,
        length > 0 ==> (parts_of(length, size) - 1) * size < length,
        length == 0 ==> parts_of(length, size) == 0,
{
    let count = parts_of(length, size) as int;
    quotient_and_rest((length + size - 1) as int, size as int);
    assert((count - 1) * size == count * size - size) by (nonlinear_arith);
    if length == 0 {
        parts_and_rest((size - 1) as int, size as int, 0, (size - 1) as int);
    }
}

/// Every pixel of an image is in one group: the one at its column and its line in groups, in which it
/// stands at its own column and line, the pixels of a group counted line by line.
pub proof fn pixel_is_found_in_group(
    geometry: ImageGeometry,
    raw: Seq<u8>,
    x: int,
    y: int,
    channel: int,
)
    requires
        geometry.valid(),
        0 <= x < geometry.width,
        0 <= y < geometry.height,
        0 <= channel < geometry.channels,
    ensures
        ({
            let across = x / geometry.group_width as int;
            let down = y / geometry.group_height as int;
            let offset = (y % geometry.group_height as int) * geometry.group_width + x
                % geometry.group_width as int;
            &&& 0 <= offset < geometry.values(raw, across, down, channel).len()
            &&& geometry.values(raw, across, down, channel)[offset] == raw[(y * geometry.width + x)
                * geometry.channels + channel]
        }),
{
    let width = geometry.group_width as int;
    let height = geometry.group_height as int;
    quotient_and_rest(x, width);
    quotient_and_rest(y, height);
    let row = y % height;
    let column = x % width;
    let offset = row * width + column;
    parts_and_rest(offset, width, row, column);
    assert(0 <= offset < width * height) by (nonlinear_arith)
        requires
            0 <= row < height,
            0 <= column < width,
            offset == row * width + column,
    ;
}

/// Places of a group that lie outside of the image hold zero.
pub proof fn outside_of_image_is_zero(
    geometry: ImageGeometry,
    raw: Seq<u8>,
    across: int,
    down: int,
    channel: int,
    column: int,
    row: int,
)
    requires
        geometry.valid(),
        0 <= column < geometry.group_width,
        0 <= row < geometry.group_height,
        across * geometry.group_width + column >= geometry.width || down * geometry.group_height + row
            >= geometry.height,
    ensures
        geometry.values(raw, across, down, channel)[row * geometry.group_width + column] == 0,
{
    let width = geometry.group_width as int;
    let offset = row * width + column;
    parts_and_rest(offset, width, row, column);
    assert(0 <= offset < width * geometry.group_height) by (nonlinear_arith)
        requires
            0 <= row < geometry.group_height,
            0 <= column < width,
            offset == row * width + column,
    ;
}

/// Groups become rows line by line, and a row holds the channels of its group one behind the other.
pub proof fn groups_are_rows_in_order(
    geometry: ImageGeometry,
    raw: Seq<u8>,
    transform: ImageGroupingTransform,
    across: int,
    down: int,
    channel: int,
)
    requires
        geometry.valid(),
        0 <= across < geometry.groups_across(),
        0 <= down < geometry.groups_down(),
        0 <= channel < geometry.channels,
    ensures
        ({
            let g = down * geometry.groups_across() + across;
            &&& 0 <= g < geometry.rows()
            &&& geometry.features(raw, transform, g).len() == geometry.channels
            &&& geometry.features(raw, transform, g)[channel] == coded_feature(
                geometry.values(raw, across, down, channel),
                transform,
            )
        }),
{
    let count = geometry.groups_across() as int;
    let lines = geometry.groups_down() as int;
    let g = down * count + across;
    parts_and_rest(g, count, down, across);
    assert(0 <= g < count * lines) by (nonlinear_arith)
        requires
            0 <= across < count,
            0 <= down < lines,
            g == down * count + across,
    ;
}

/// A difference to the anchor is written as a number no greater than twice its size, so near bytes have
/// leading zeros; equal bytes have nothing but zeros.
pub proof fn near_bytes_have_small_residuals(value: u8, anchor: u8)
    ensures
        zigzag(value - anchor) <= 2 * (if value >= anchor {
            value - anchor
        } else {
            anchor - value
        }),
        value >= anchor ==> zigzag(value - anchor) == 2 * (value - anchor),
        value == anchor ==> residual(value, anchor) == Seq::new(9, |i: int| false),
{
    if value == anchor {
        lemma2_to64();
        assert forall|i: int| 0 <= i < 9 implies !#[trigger] residual(value, anchor)[i] by {
            digit_beyond(0, 0, (8 - i) as nat);
        }
        assert(residual(value, anchor) =~= Seq::new(9, |i: int| false));
    }
}

/// Brightening all bytes of a group by the same amount changes nothing but the anchor.
pub proof fn brightness_is_in_anchor(
    values: Seq<u8>,
    brighter: Seq<u8>,
    amount: int,
    transform: ImageGroupingTransform,
)
    requires
        values.len() > 0,
        brighter.len() == values.len(),
        forall|k: int| 0 <= k < values.len() ==> #[trigger] brighter[k] == values[k] + amount,
        !(transform is Raw),
    ensures
        coded_feature(brighter, transform).skip(8) == coded_feature(values, transform).skip(8),
        transform is ForFirstPixel ==> coded_feature(values, transform).take(8) == byte_bits(
            values[0],
        ),
        transform is ForMin ==> (exists|k: int|
            0 <= k < values.len() && coded_feature(values, transform).take(8) == byte_bits(
                #[trigger] values[k],
            ) && (forall|i: int| 0 <= i < values.len() ==> values[k] <= #[trigger] values[i])),
{
    least_position_bounds(values);
    let least = least_position(values);
    same_least_position(values, brighter, amount);
    assert(residuals(brighter, 0) =~= residuals(values, 0)) by {
        assert(brighter[0] == values[0] + amount);
    }
    assert(residuals(brighter, least) =~= residuals(values, least)) by {
        assert(brighter[least] == values[least] + amount);
    }
    assert(coded_feature(brighter, transform).skip(8) =~= coded_feature(values, transform).skip(8));
    let anchor = if transform is ForMin {
        values[least]
    } else {
        values[0]
    };
    assert(coded_feature(values, transform).take(8) =~= byte_bits(anchor));
}

proof fn same_least_position(values: Seq<u8>, brighter: Seq<u8>, amount: int)
    requires
        values.len() > 0,
        brighter.len() == values.len(),
        forall|k: int| 0 <= k < values.len() ==> #[trigger] brighter[k] == values[k] + amount,
    ensures
        least_position(brighter) == least_position(values),
        0 <= least_position(values) < values.len(),
    decreases values.len(),
{
    if values.len() > 1 {
        let shorter = values.drop_last();
        same_least_position(shorter, brighter.drop_last(), amount);
        let before = least_position(shorter);
        assert(brighter[before] == values[before] + amount);
        assert(brighter[values.len() - 1] == values[values.len() - 1] + amount);
    }
}

/// A channel of a group takes eight bits a pixel, or eight bits for the anchor and nine for each other
/// pixel, and with the least pixel as anchor the least width that tells the pixels apart.
pub proof fn feature_takes_least_width(
    values: Seq<u8>,
    transform: ImageGroupingTransform,
    position_bits: nat,
)
    requires
        values.len() > 1,
        is_least_width(position_bits, values.len()),
    ensures
        feature_width(values.len(), ImageGroupingTransform::Raw) == 8 * values.len(),
        feature_width(values.len(), ImageGroupingTransform::ForFirstPixel) == 8 + 9 * (values.len()
            - 1),
        feature_width(values.len(), ImageGroupingTransform::ForMin) == 8 + position_bits + 9 * (
        values.len() - 1),
        feature_width(1, transform) == 8,
{
    least_width_is_needed(position_bits, values.len());
}

} // verus!
