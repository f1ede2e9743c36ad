//! The pixels of an image from its dataset.
use vstd::prelude::*;

use crate::bits::{join, join_uniform};
use crate::data::{
    BitDataReconstructionInfo, ImageColorModel, ImageGroupingTransform, ImageReconstructionInfo,
    ReconstructionView,
};
use crate::dataset::{row_in_bounds, BitData, BitDataSet};
use crate::error::{bad_metadata, EntroGdError};
use crate::image_preprocessor::builder::{
    geometry_of, image_accepted, is_image_set, padded_rows_len, unchanged_colors, ImageBuildInput,
    ImageBuildOptions,
};
use crate::image_preprocessor::color::{
    coloring, convert_ycocg_r_to_rgb_channels, recolored, recoloring_is_undone, rgb_of_ycocg_r,
    Color,
};
use crate::image_preprocessor::geometry::{parts_of, parts_reach, row_lengths, ImageGeometry};
use crate::image_preprocessor::grouping::{
    decode_grouped_feature, decoded_feature, feature_bits_for_grouping, feature_is_decoded,
    feature_width,
};

verus! {

/// The bits of a channel of a group inside its row.
pub open spec fn stored_feature(
    data: BitData,
    geometry: ImageGeometry,
    transform: ImageGroupingTransform,
    g: int,
    channel: int,
) -> Seq<bool> {
    let width = feature_width(geometry.pixels(), transform);
    data.row(g).subrange(channel * width, channel * width + width)
}

/// The bytes of a channel of a group, if its bits stand for some.
pub open spec fn decoded_channel(
    data: BitData,
    geometry: ImageGeometry,
    transform: ImageGroupingTransform,
    g: int,
    channel: int,
) -> Option<Seq<u8>> {
    decoded_feature(
        stored_feature(data, geometry, transform, g, channel),
        geometry.pixels(),
        transform,
    )
}

/// Whether the bits of all channels of all groups stand for bytes.
pub open spec fn channels_decode(
    data: BitData,
    geometry: ImageGeometry,
    transform: ImageGroupingTransform,
) -> bool {
    forall|g: int, channel: int|
        0 <= g < geometry.rows() && 0 <= channel < geometry.channels
            ==> #[trigger] decoded_channel(data, geometry, transform, g, channel) is Some
}

/// The column of a byte of an image.
pub open spec fn x_of(geometry: ImageGeometry, i: int) -> int {
    (i / geometry.channels as int) % (geometry.width as int)
}

/// The line of a byte of an image.
pub open spec fn y_of(geometry: ImageGeometry, i: int) -> int {
    (i / geometry.channels as int) / (geometry.width as int)
}

/// The group that holds a byte of an image.
pub open spec fn group_of(geometry: ImageGeometry, i: int) -> int {
    (y_of(geometry, i) / geometry.group_height as int) * geometry.groups_across() + x_of(
        geometry,
        i,
    ) / geometry.group_width as int
}

/// The place of a byte of an image among the pixels of its group.
pub open spec fn offset_of(geometry: ImageGeometry, i: int) -> int {
    (y_of(geometry, i) % geometry.group_height as int) * geometry.group_width + x_of(geometry, i)
        % geometry.group_width as int
}

/// The bytes of an image, each from the group that holds it.
pub open spec fn restored_bytes(
    data: BitData,
    geometry: ImageGeometry,
    transform: ImageGroupingTransform,
) -> Seq<u8> {
    Seq::new(
        (geometry.width * geometry.height * geometry.channels) as nat,
        |i: int|
            (decoded_channel(
                data,
                geometry,
                transform,
                group_of(geometry, i),
                i % (geometry.channels as int),
            )->0)[offset_of(geometry, i)],
    )
}

/// Where a byte of an image stands: inside its line, in one of the groups, at one of its pixels.
pub proof fn byte_place(geometry: ImageGeometry, i: int)
    requires
        geometry.valid(),
        0 <= i < geometry.width * geometry.height * geometry.channels,
    ensures
        0 <= x_of(geometry, i) < geometry.width,
        0 <= y_of(geometry, i) < geometry.height,
        0 <= i % (geometry.channels as int) < geometry.channels,
        i == (y_of(geometry, i) * geometry.width + x_of(geometry, i)) * geometry.channels + i % (
        geometry.channels as int),
        0 <= group_of(geometry, i) < geometry.rows(),
        group_of(geometry, i) % (geometry.groups_across() as int) == x_of(geometry, i)
            / geometry.group_width as int,
        group_of(geometry, i) / (geometry.groups_across() as int) == y_of(geometry, i)
            / geometry.group_height as int,
        0 <= offset_of(geometry, i) < geometry.pixels(),
        offset_of(geometry, i) % (geometry.group_width as int) == x_of(geometry, i)
            % geometry.group_width as int,
        offset_of(geometry, i) / (geometry.group_width as int) == y_of(geometry, i)
            % geometry.group_height as int,
{
    let n = geometry.channels as int;
    let w = geometry.width as int;
    let h = geometry.height as int;
    let p = i / n;
    let c = i % n;
    assert(0 <= p < w * h && i == p * n + c && 0 <= c < n) by (nonlinear_arith)
        requires
            p == i / n,
            c == i % n,
            0 < n,
            0 <= i < w * h * n,
    ;
    let x = p % w;
    let y = p / w;
    assert(w > 0) by (nonlinear_arith)
        requires
            0 <= p < w * h,
            0 <= w,
    ;
    assert(0 <= y < h && p == y * w + x && 0 <= x < w) by (nonlinear_arith)
        requires
            x == p % w,
            y == p / w,
            0 < w,
            0 <= p < w * h,
    ;
    let gw = geometry.group_width as int;
    let gh = geometry.group_height as int;
    part_place(x, gw, w);
    part_place(y, gh, h);
    let across = geometry.groups_across() as int;
    let down = geometry.groups_down() as int;
    let gx = x / gw;
    let gy = y / gh;
    let g = gy * across + gx;
    assert(g % across == gx && g / across == gy && 0 <= g < across * down) by (nonlinear_arith)
        requires
            0 <= gx < across,
            0 <= gy < down,
            g == gy * across + gx,
    ;
    let ox = x % gw;
    let oy = y % gh;
    let o = oy * gw + ox;
    assert(o % gw == ox && o / gw == oy && 0 <= o < gw * gh) by (nonlinear_arith)
        requires
            0 <= ox < gw,
            0 <= oy < gh,
            o == oy * gw + ox,
    ;
}

/// A position inside a length lies in one of the parts.
proof fn part_place(position: int, size: int, length: int)
    requires
        0 <= position < length,
        0 < size,
    ensures
        0 <= position / size < parts_of(length as nat, size as nat),
        0 <= position % size < size,
        position == (position / size) * size + position % size,
{
    let part = position / size;
    let rest = position % size;
    let count = parts_of(length as nat, size as nat) as int;
    parts_reach(length, size, 0);
    assert(position == part * size + rest && 0 <= rest < size && 0 <= part) by (nonlinear_arith)
        requires
            part == position / size,
            rest == position % size,
            0 < size,
            0 <= position,
    ;
    assert(part < count) by (nonlinear_arith)
        requires
            part * size <= position,
            position < length,
            length <= count * size,
            0 < size,
    ;
}

/// There are no more groups than pixels.
proof fn rows_bound(geometry: ImageGeometry)
    requires
        geometry.valid(),
    ensures
        geometry.rows() <= usize::MAX,
        geometry.rows() * geometry.channels <= usize::MAX,
{
    let w = geometry.width as int;
    let h = geometry.height as int;
    let c = geometry.channels as int;
    let across = geometry.groups_across() as int;
    let down = geometry.groups_down() as int;
    parts_bound(w, geometry.group_width as int);
    parts_bound(h, geometry.group_height as int);
    assert(across * down <= w * h && across * down * c <= w * h * c) by (nonlinear_arith)
        requires
            0 <= across <= w,
            0 <= down <= h,
            0 <= c,
    ;
}

/// Parts are no more than what they cover.
proof fn parts_bound(length: int, size: int)
    requires
        0 <= length,
        0 < size,
    ensures
        0 <= parts_of(length as nat, size as nat) <= length,
{
    let count = (length + size - 1) / size;
    assert(0 <= count <= length) by (nonlinear_arith)
        requires
            count == (length + size - 1) / size,
            0 <= length,
            0 < size,
    ;
}

/// The bytes of all channels of all groups.
fn decode_channels(
    data: &BitData,
    geometry: &ImageGeometry,
    transform: ImageGroupingTransform,
    feature_bits: usize,
) -> (result: Result<Vec<Vec<u8>>, EntroGdError>)
    requires
        data.valid(),
        geometry.valid(),
        geometry.pixels() > 0,
        data.num_rows == geometry.rows(),
        data.chunk_size == geometry.row_width(transform),
        feature_bits == feature_width(geometry.pixels(), transform),
    ensures
        result is Ok <==> channels_decode(*data, *geometry, transform),
        result matches Ok(lists) ==> {
            &&& lists@.len() == geometry.rows() * geometry.channels
            &&& forall|g: int, c: int|
                0 <= g < geometry.rows() && 0 <= c < geometry.channels ==> Some(
                    lists@[g * geometry.channels + c]@,
                ) == #[trigger] decoded_channel(*data, *geometry, transform, g, c)
        },
        result matches Err(error) ==> error is InvalidMetadata,
{
    let total: usize = data.data.bit_len();
    let pixels: usize = geometry.group_width * geometry.group_height;
    let n: usize = geometry.channels;
    let mut lists: Vec<Vec<u8>> = Vec::new();
    let mut k: usize = 0;
    proof {
        rows_bound(*geometry);
    }
    let count: usize = data.num_rows * n;
    while k < count
        invariant
            data.valid(),
            geometry.valid(),
            data.num_rows == geometry.rows(),
            data.chunk_size == geometry.row_width(transform),
            feature_bits == feature_width(geometry.pixels(), transform),
            total == data.data@.len(),
            pixels == geometry.pixels(),
            0 < pixels <= 0xffff,
            n == geometry.channels,
            count == geometry.rows() * geometry.channels,
            k <= count,
            lists@.len() == k,
            forall|j: int|
                0 <= j < k ==> Some((#[trigger] lists@[j])@) == decoded_channel(
                    *data,
                    *geometry,
                    transform,
                    j / (n as int),
                    j % (n as int),
                ),
        decreases count - k,
    {
        let g: usize = k / n;
        let c: usize = k % n;
        proof {
            let rows = geometry.rows() as int;
            let channels = n as int;
            let width = feature_bits as int;
            assert(0 <= g < rows && 0 <= c < channels) by (nonlinear_arith)
                requires
                    g == k as int / channels,
                    c == k as int % channels,
                    0 <= k < rows * channels,
                    0 < channels,
            ;
            row_in_bounds(g as int, rows, data.stride as int, data.chunk_size as int);
            assert(0 <= c * width && c * width + width <= channels * width) by (nonlinear_arith)
                requires
                    0 <= c < channels,
                    0 <= width,
            ;
        }
        let start: usize = g * data.stride + c * feature_bits;
        let bits = data.data.copy_range(start, start + feature_bits);
        proof {
            assert(bits@ =~= stored_feature(*data, *geometry, transform, g as int, c as int));
        }
        match decode_grouped_feature(&bits, pixels, transform) {
            Ok(values) => {
                lists.push(values);
            },
            Err(error) => {
                assert(decoded_channel(*data, *geometry, transform, g as int, c as int) is None);
                return Err(error);
            },
        }
        k += 1;
    }
    proof {
        assert forall|g: int, c: int|
            0 <= g < geometry.rows() && 0 <= c < geometry.channels implies Some(
            lists@[g * geometry.channels + c]@,
        ) == #[trigger] decoded_channel(*data, *geometry, transform, g, c) by {
            let rows = geometry.rows() as int;
            let channels = n as int;
            let j = g * channels + c;
            assert(0 <= j < rows * channels && j / channels == g && j % channels == c)
                by (nonlinear_arith)
                requires
                    0 <= g < rows,
                    0 <= c < channels,
                    j == g * channels + c,
            ;
            assert(Some(lists@[j]@) == decoded_channel(*data, *geometry, transform, g, c));
        }
    }
    Ok(lists)
}

/// The bytes of an image as its rows hold them, in the colour model that they are stored in.
pub fn restore_stored_bytes(
    data: &BitData,
    geometry: &ImageGeometry,
    transform: ImageGroupingTransform,
    feature_bits: usize,
) -> (result: Result<Vec<u8>, EntroGdError>)
    requires
        data.valid(),
        geometry.valid(),
        geometry.pixels() > 0,
        data.num_rows == geometry.rows(),
        data.chunk_size == geometry.row_width(transform),
        feature_bits == feature_width(geometry.pixels(), transform),
    ensures
        result is Ok <==> channels_decode(*data, *geometry, transform),
        result matches Ok(bytes) ==> bytes@ == restored_bytes(*data, *geometry, transform),
        result matches Err(error) ==> error is InvalidMetadata,
{
    let lists = match decode_channels(data, geometry, transform, feature_bits) {
        Ok(lists) => lists,
        Err(error) => {
            return Err(error);
        },
    };
    let mut bytes: Vec<u8> = Vec::new();
    if geometry.width == 0 {
        assert(geometry.width * geometry.height * geometry.channels == 0) by (nonlinear_arith)
            requires
                geometry.width == 0,
        ;
        assert(bytes@ =~= restored_bytes(*data, *geometry, transform));
        return Ok(bytes);
    }
    let groups_across: usize = (geometry.width + geometry.group_width - 1) / geometry.group_width;
    let count: usize = geometry.width * geometry.height * geometry.channels;
    let ghost goal = restored_bytes(*data, *geometry, transform);
    let mut i: usize = 0;
    proof {
        rows_bound(*geometry);
    }
    while i < count
        invariant
            geometry.valid(),
            geometry.width > 0,
            count == geometry.width * geometry.height * geometry.channels,
            groups_across == geometry.groups_across(),
            geometry.rows() * geometry.channels <= usize::MAX,
            lists@.len() == geometry.rows() * geometry.channels,
            forall|g: int, c: int|
                0 <= g < geometry.rows() && 0 <= c < geometry.channels ==> Some(
                    lists@[g * geometry.channels + c]@,
                ) == #[trigger] decoded_channel(*data, *geometry, transform, g, c),
            goal == restored_bytes(*data, *geometry, transform),
            i <= count,
            bytes@.len() == i,
            forall|k: int| 0 <= k < i ==> #[trigger] bytes@[k] == goal[k],
        decreases count - i,
    {
        let pixel: usize = i / geometry.channels;
        let channel: usize = i % geometry.channels;
        let x: usize = pixel % geometry.width;
        let y: usize = pixel / geometry.width;
        proof {
            byte_place(*geometry, i as int);
            let rows = geometry.rows() as int;
            let n = geometry.channels as int;
            let g = group_of(*geometry, i as int);
            assert(0 <= g * n && g * n + channel < rows * n && g <= rows * n) by (nonlinear_arith)
                requires
                    0 <= g < rows,
                    0 <= channel < n,
            ;
            let gy = (y / geometry.group_height) as int;
            let across = groups_across as int;
            assert(0 <= gy * across <= g) by (nonlinear_arith)
                requires
                    0 <= gy,
                    0 <= across,
                    g == gy * across + x as int / geometry.group_width as int,
                    0 <= x as int / geometry.group_width as int,
            ;
            let oy = (y % geometry.group_height) as int;
            let gw = geometry.group_width as int;
            assert(0 <= oy * gw) by (nonlinear_arith)
                requires
                    0 <= oy,
                    0 <= gw,
            ;
            assert(Some(lists@[g * n + channel]@) == decoded_channel(
                *data,
                *geometry,
                transform,
                g,
                channel as int,
            ));
        }
        let group: usize = (y / geometry.group_height) * groups_across + x / geometry.group_width;
        let offset: usize = (y % geometry.group_height) * geometry.group_width + x
            % geometry.group_width;
        let list: &Vec<u8> = &lists[group * geometry.channels + channel];
        bytes.push(list[offset]);
        i += 1;
    }
    assert(bytes@ =~= goal);
    Ok(bytes)
}

/// Whether the rows of a dataset are those of an image of its size: as many as there are groups,
/// each as wide as a group, and stored in a colour model that can be undone.
pub open spec fn image_restorable(set: BitDataSet) -> bool {
    match set.info@.reconstruction {
        ReconstructionView::Image(image) => {
            let geometry = geometry_of(
                image.width,
                image.height,
                image.channels,
                image.pixel_grouping,
            );
            &&& image.channels >= 3
            &&& geometry.valid()
            &&& image.color_model != ImageColorModel::YCoCg
            &&& set.data.num_rows == geometry.rows()
            &&& set.data.chunk_size == geometry.row_width(image.grouping_transform)
            &&& channels_decode(set.data, geometry, image.grouping_transform)
        },
        ReconstructionView::Tabular { .. } => false,
    }
}

/// The bytes of an image, back in red, green and blue.
pub open spec fn restored_image(data: BitData, image: ImageReconstructionInfo) -> Seq<u8> {
    let geometry = geometry_of(image.width, image.height, image.channels, image.pixel_grouping);
    let stored = restored_bytes(data, geometry, image.grouping_transform);
    if image.color_model == ImageColorModel::YCoCgR {
        recolored(stored, image.channels as nat, |color: Color| rgb_of_ycocg_r(color))
    } else {
        stored
    }
}

/// Whether the sizes of an image can be computed, and its groups.
fn checked_geometry(image: &ImageReconstructionInfo) -> (found: Option<ImageGeometry>)
    ensures
        found is Some <==> image.channels >= 3 && geometry_of(
            image.width,
            image.height,
            image.channels,
            image.pixel_grouping,
        ).valid(),
        found matches Some(geometry) ==> geometry == geometry_of(
            image.width,
            image.height,
            image.channels,
            image.pixel_grouping,
        ) && geometry.pixels() > 0,
{
    let geometry = ImageGeometry {
        width: image.width as usize,
        height: image.height as usize,
        channels: image.channels as usize,
        group_width: image.pixel_grouping.width() as usize,
        group_height: image.pixel_grouping.height() as usize,
    };
    if geometry.channels < 3 || geometry.group_width == 0 || geometry.group_height == 0 {
        return None;
    }
    match geometry.width.checked_mul(geometry.height) {
        Some(pixels) => {
            if pixels.checked_mul(geometry.channels).is_none() {
                return None;
            }
        },
        None => {
            return None;
        },
    }
    if geometry.width.checked_add(geometry.group_width).is_none() || geometry.height.checked_add(
        geometry.group_height,
    ).is_none() {
        return None;
    }
    match geometry.group_width.checked_mul(geometry.group_height) {
        Some(pixels) => {
            if pixels > 0xffff {
                return None;
            }
        },
        None => {
            return None;
        },
    }
    proof {
        let w = geometry.group_width as int;
        let h = geometry.group_height as int;
        assert(w * h > 0) by (nonlinear_arith)
            requires
                w > 0,
                h > 0,
        ;
    }
    Some(geometry)
}

/// The bytes of the image that a dataset holds, with red, green and blue in each pixel. What was
/// rounded on the way to luma and chroma cannot be undone, so such a dataset is refused.
pub fn restore_image(set: &BitDataSet) -> (result: Result<Vec<u8>, EntroGdError>)
    requires
        set.valid(),
    ensures
        result is Ok <==> image_restorable(*set),
        result matches Ok(bytes) ==> set.info@.reconstruction matches ReconstructionView::Image(
            image,
        ) && bytes@ == restored_image(set.data, image),
        result matches Err(error) ==> error is InvalidMetadata,
{
    let image: &ImageReconstructionInfo = match &set.info.reconstruction {
        BitDataReconstructionInfo::Image(image) => image,
        _ => {
            return Err(bad_metadata("dataset does not hold an image"));
        },
    };
    let geometry = match checked_geometry(image) {
        Some(geometry) => geometry,
        None => {
            return Err(bad_metadata("image dimensions overflow"));
        },
    };
    if image.color_model == ImageColorModel::YCoCg {
        return Err(bad_metadata("rounded colors cannot be restored"));
    }
    let pixels: usize = geometry.group_width * geometry.group_height;
    let feature_bits: usize = match feature_bits_for_grouping(pixels, image.grouping_transform) {
        Ok(bits) => bits,
        Err(error) => {
            proof {
                wide_rows(geometry, image.grouping_transform);
            }
            return Err(error);
        },
    };
    let chunk_size: usize = match geometry.channels.checked_mul(feature_bits) {
        Some(bits) => bits,
        None => {
            return Err(bad_metadata("image chunk size overflow"));
        },
    };
    let across: usize = (geometry.width + geometry.group_width - 1) / geometry.group_width;
    let down: usize = (geometry.height + geometry.group_height - 1) / geometry.group_height;
    proof {
        rows_bound(geometry);
    }
    let rows: usize = across * down;
    if set.data.num_rows != rows || set.data.chunk_size != chunk_size {
        return Err(bad_metadata("rows are not those of the image"));
    }
    match restore_stored_bytes(&set.data, &geometry, image.grouping_transform, feature_bits) {
        Ok(stored) => {
            let mut bytes: Vec<u8> = stored;
            if image.color_model == ImageColorModel::YCoCgR {
                convert_ycocg_r_to_rgb_channels(&mut bytes, geometry.channels);
            }
            Ok(bytes)
        },
        Err(error) => Err(error),
    }
}

/// A feature that is wider than a machine word makes a row that is.
proof fn wide_rows(geometry: ImageGeometry, transform: ImageGroupingTransform)
    requires
        geometry.valid(),
        geometry.pixels() > 0,
        feature_width(geometry.pixels(), transform) > usize::MAX,
    ensures
        geometry.row_width(transform) > usize::MAX,
{
    let c = geometry.channels as int;
    let f = feature_width(geometry.pixels(), transform) as int;
    assert(c * f >= f) by (nonlinear_arith)
        requires
            c >= 1,
            f >= 0,
    ;
}

/// A channel of a group is decoded from the row that was built from it.
proof fn built_channel(
    data: BitData,
    geometry: ImageGeometry,
    raw: Seq<u8>,
    transform: ImageGroupingTransform,
    g: int,
    c: int,
)
    requires
        data.valid(),
        geometry.valid(),
        data.num_rows == geometry.rows(),
        data.chunk_size == geometry.row_width(transform),
        data.data@ == join(geometry.padded_rows(raw, transform, data.stride as nat)),
        0 <= g < geometry.rows(),
        0 <= c < geometry.channels,
    ensures
        decoded_channel(data, geometry, transform, g, c) == Some(
            geometry.values(
                raw,
                g % (geometry.groups_across() as int),
                g / (geometry.groups_across() as int),
                c,
            ),
        ),
{
    let stride = data.stride as nat;
    let across = geometry.groups_across() as int;
    let width = feature_width(geometry.pixels(), transform);
    row_lengths(geometry, raw, transform, stride, g);
    padded_rows_len(geometry, raw, transform, stride);
    row_in_bounds(g, data.num_rows as int, data.stride as int, data.chunk_size as int);
    let rows = geometry.padded_rows(raw, transform, stride);
    let features = geometry.features(raw, transform, g);
    assert(rows[g] == data.data@.subrange(g * stride, g * stride + stride));
    assert(rows[g] == geometry.padded_row(raw, transform, stride, g));
    assert(data.row(g) =~= join(features));
    join_uniform(features, width);
    let values = geometry.values(raw, g % across, g / across, c);
    assert(features[c] == join(features).subrange(c * width, c * width + width));
    feature_is_decoded(values, transform);
}

/// The bytes that went into the groups are the bytes of the image.
proof fn grouped_byte(geometry: ImageGeometry, raw: Seq<u8>, i: int)
    requires
        geometry.valid(),
        raw.len() == geometry.width * geometry.height * geometry.channels,
        0 <= i < raw.len(),
    ensures
        geometry.value(
            raw,
            group_of(geometry, i) % (geometry.groups_across() as int),
            group_of(geometry, i) / (geometry.groups_across() as int),
            i % (geometry.channels as int),
            offset_of(geometry, i),
        ) == raw[i],
{
    byte_place(geometry, i);
    part_place(x_of(geometry, i), geometry.group_width as int, geometry.width as int);
    part_place(y_of(geometry, i), geometry.group_height as int, geometry.height as int);
}

/// The image that a dataset was built from is restored from it, byte by byte, unless its colours
/// were rounded.
pub proof fn image_is_restored(input: ImageBuildInput, options: ImageBuildOptions, set: BitDataSet)
    requires
        image_accepted(input, options),
        options.color_model != ImageColorModel::YCoCg,
        is_image_set(set, input, options),
    ensures
        image_restorable(set),
        set.info@.reconstruction matches ReconstructionView::Image(image) && restored_image(
            set.data,
            image,
        ) == input.raw@,
{
    let geometry = geometry_of(
        input.width,
        input.height,
        input.channels,
        options.pixel_grouping,
    );
    let transform = options.grouping_transform;
    let raw = recolored(input.raw@, input.channels as nat, coloring(options.color_model));
    assert forall|g: int, c: int|
        0 <= g < geometry.rows() && 0 <= c < geometry.channels implies #[trigger] decoded_channel(
        set.data,
        geometry,
        transform,
        g,
        c,
    ) is Some by {
        built_channel(set.data, geometry, raw, transform, g, c);
    }
    let stored = restored_bytes(set.data, geometry, transform);
    assert forall|i: int| 0 <= i < raw.len() implies #[trigger] stored[i] == raw[i] by {
        byte_place(geometry, i);
        grouped_byte(geometry, raw, i);
        built_channel(
            set.data,
            geometry,
            raw,
            transform,
            group_of(geometry, i),
            i % (geometry.channels as int),
        );
    }
    assert(stored =~= raw);
    if options.color_model == ImageColorModel::YCoCgR {
        recoloring_is_undone(input.raw@, input.channels as nat);
    } else {
        unchanged_colors(input.raw@, input.channels as nat);
    }
}

} // verus!
