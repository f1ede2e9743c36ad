//! Where the pixels of an image stand in its groups.
use vstd::prelude::*;

use crate::bits::{join, join_push, join_uniform, BitStream, MAX_STREAM_BITS};
use crate::data::ImageGroupingTransform;
use crate::image_preprocessor::grouping::{
    byte_bits, coded_feature, coded_feature_len, encode_grouped_channel, feature_width, residuals,
    store_u16_be_at, store_u8_be_at, zigzag_difference,
};

verus! {

/// The size of an image and of the groups that its pixels are taken in.
#[derive(Debug, Clone, Copy, PartialEq, Eq, Structural)]
pub struct ImageGeometry {
    pub width: usize,
    pub height: usize,
    pub channels: usize,
    pub group_width: usize,
    pub group_height: usize,
}

/// How many parts of a size it takes to cover a length.
pub open spec fn parts_of(length: nat, size: nat) -> nat {
    (length + size - 1) as nat / size
}

impl ImageGeometry {
    /// Whether groups have pixels and all sizes can be computed.
    pub open spec fn valid(self) -> bool {
        &&& self.channels > 0
        &&& self.group_width > 0
        &&& self.group_height > 0
        &&& self.width * self.height <= usize::MAX
        &&& self.width * self.height * self.channels <= usize::MAX
        &&& self.width + self.group_width <= usize::MAX
        &&& self.height + self.group_height <= usize::MAX
        &&& self.group_width * self.group_height <= 0xffff
    }

    /// The pixels of a group.
    pub open spec fn pixels(self) -> nat {
        (self.group_width * self.group_height) as nat
    }

    /// The groups side by side.
    pub open spec fn groups_across(self) -> nat {
        parts_of(self.width as nat, self.group_width as nat)
    }

    /// The groups one below the other.
    pub open spec fn groups_down(self) -> nat {
        parts_of(self.height as nat, self.group_height as nat)
    }

    /// The number of groups, each of which becomes a row.
    pub open spec fn rows(self) -> nat {
        self.groups_across() * self.groups_down()
    }

    /// The bits of a row.
    pub open spec fn row_width(self, transform: ImageGroupingTransform) -> nat {
        self.channels as nat * feature_width(self.pixels(), transform)
    }

    /// The byte of one pixel of a group in a channel; pixels outside of the image are zero.
    pub open spec fn value(
        self,
        raw: Seq<u8>,
        group_x: int,
        group_y: int,
        channel: int,
        offset: int,
    ) -> u8 {
        let x = group_x * self.group_width + offset % (self.group_width as int);
        let y = group_y * self.group_height + offset / (self.group_width as int);
        if x < self.width && y < self.height {
            raw[(y * self.width + x) * self.channels + channel]
        } else {
            0
        }
    }

    /// The bytes of a group in a channel.
    pub open spec fn values(self, raw: Seq<u8>, group_x: int, group_y: int, channel: int) -> Seq<
        u8,
    > {
        Seq::new(self.pixels(), |offset: int| self.value(raw, group_x, group_y, channel, offset))
    }

    /// The bits of the channels of group `g`, the groups counted line by line.
    pub open spec fn features(
        self,
        raw: Seq<u8>,
        transform: ImageGroupingTransform,
        g: int,
    ) -> Seq<Seq<bool>> {
        let across = self.groups_across() as int;
        Seq::new(
            self.channels as nat,
            |channel: int|
                coded_feature(self.values(raw, g % across, g / across, channel), transform),
        )
    }

    /// The bits of group `g` with the padding behind them.
    pub open spec fn padded_row(
        self,
        raw: Seq<u8>,
        transform: ImageGroupingTransform,
        stride: nat,
        g: int,
    ) -> Seq<bool> {
        join(self.features(raw, transform, g)) + Seq::new(
            (stride - self.row_width(transform)) as nat,
            |i: int| false,
        )
    }

    /// All groups as padded rows.
    pub open spec fn padded_rows(
        self,
        raw: Seq<u8>,
        transform: ImageGroupingTransform,
        stride: nat,
    ) -> Seq<Seq<bool>> {
        Seq::new(self.rows(), |g: int| self.padded_row(raw, transform, stride, g))
    }
}

/// How far parts of a size reach.
pub proof fn parts_reach(length: int, size: int, part: int)
    requires
        0 <= length,
        0 < size,
    ensures
        parts_of(length as nat, size as nat) * size >= length,
        0 <= part < parts_of(length as nat, size as nat) ==> 0 <= part * size < length,
{
    let count = (length + size - 1) / size;
    let rest = (length + size - 1) % size;
    assert(length + size - 1 == count * size + rest && 0 <= rest < size) by (nonlinear_arith)
        requires
            size > 0,
            count == (length + size - 1) / size,
            rest == (length + size - 1) % size,
    ;
    if 0 <= part < count {
        assert((part + 1) * size <= count * size && part * size + size == (part + 1) * size && 0
            <= part * size) by (nonlinear_arith)
            requires
                0 <= part,
                part + 1 <= count,
                0 < size,
        ;
    }
}

/// A pixel inside the image has its bytes inside the image data.
pub proof fn byte_inside(x: int, y: int, channel: int, width: int, height: int, channels: int)
    requires
        0 <= x < width,
        0 <= y < height,
        0 <= channel < channels,
    ensures
        0 <= y * width + x < width * height,
        0 <= (y * width + x) * channels,
        (y * width + x) * channels + channel < width * height * channels,
{
    assert(0 <= y * width && y * width + width <= width * height) by (nonlinear_arith)
        requires
            0 <= y < height,
            0 < width,
    ;
    let p = y * width + x;
    let n = width * height;
    assert(0 <= p * channels && p * channels + channels <= n * channels) by (nonlinear_arith)
        requires
            0 <= p < n,
            0 < channels,
    ;
}

/// All channels of a group have the same width, and a padded row has the stride.
pub proof fn row_lengths(
    geometry: ImageGeometry,
    raw: Seq<u8>,
    transform: ImageGroupingTransform,
    stride: nat,
    g: int,
)
    requires
        geometry.valid(),
        geometry.row_width(transform) <= stride,
    ensures
        geometry.pixels() > 0,
        forall|c: int|
            0 <= c < geometry.channels ==> (#[trigger] geometry.features(
                raw,
                transform,
                g,
            )[c]).len() == feature_width(geometry.pixels(), transform),
        join(geometry.features(raw, transform, g)).len() == geometry.row_width(transform),
        geometry.padded_row(raw, transform, stride, g).len() == stride,
{
    let features = geometry.features(raw, transform, g);
    let across = geometry.groups_across() as int;
    let w = geometry.group_width as int;
    let h = geometry.group_height as int;
    assert(w * h > 0) by (nonlinear_arith)
        requires
            w > 0,
            h > 0,
    ;
    assert forall|c: int| 0 <= c < geometry.channels implies (#[trigger] features[c]).len()
        == feature_width(geometry.pixels(), transform) by {
        coded_feature_len(geometry.values(raw, g % across, g / across, c), transform);
    }
    join_uniform(features, feature_width(geometry.pixels(), transform));
}

/// A place that may lie beyond all numbers.
fn place_at(group: usize, size: usize, offset: usize) -> (place: Option<usize>)
    ensures
        match place {
            Some(found) => found == group * size + offset,
            None => group * size + offset > usize::MAX,
        },
{
    match group.checked_mul(size) {
        Some(start) => start.checked_add(offset),
        None => None,
    }
}

/// The bytes of a group of pixels in a channel, zero where the group reaches out of the image.
pub fn grouped_channel_values_into(
    raw: &Vec<u8>,
    geometry: &ImageGeometry,
    group_x: usize,
    group_y: usize,
    channel: usize,
    out: &mut Vec<u8>,
)
    requires
        geometry.group_width > 0,
        raw@.len() == geometry.width * geometry.height * geometry.channels,
        channel < geometry.channels,
        old(out)@.len() == geometry.pixels(),
    ensures
        final(out)@ == geometry.values(raw@, group_x as int, group_y as int, channel as int),
{
    let ghost goal = geometry.values(raw@, group_x as int, group_y as int, channel as int);
    let all: usize = raw.len();
    let mut offset: usize = 0;
    while offset < out.len()
        invariant
            geometry.group_width > 0,
            all == raw@.len() == geometry.width * geometry.height * geometry.channels,
            channel < geometry.channels,
            goal == geometry.values(raw@, group_x as int, group_y as int, channel as int),
            out@.len() == geometry.pixels(),
            offset <= out@.len(),
            forall|k: int| 0 <= k < offset ==> #[trigger] out@[k] == goal[k],
        decreases out@.len() - offset,
    {
        let offset_x: usize = offset % geometry.group_width;
        let offset_y: usize = offset / geometry.group_width;
        let place_x = place_at(group_x, geometry.group_width, offset_x);
        let place_y = place_at(group_y, geometry.group_height, offset_y);
        let mut value: u8 = 0;
        if let (Some(pixel_x), Some(pixel_y)) = (place_x, place_y) {
            if pixel_x < geometry.width && pixel_y < geometry.height {
                proof {
                    byte_inside(
                        pixel_x as int,
                        pixel_y as int,
                        channel as int,
                        geometry.width as int,
                        geometry.height as int,
                        geometry.channels as int,
                    );
                    let index = pixel_y * geometry.width + pixel_x;
                    assert(0 <= pixel_y * geometry.width) by (nonlinear_arith)
                        requires
                            0 <= pixel_y,
                            0 <= geometry.width,
                    ;
                    assert(index <= index * geometry.channels) by (nonlinear_arith)
                        requires
                            0 <= index,
                            1 <= geometry.channels,
                    ;
                }
                let pixel_index: usize = pixel_y * geometry.width + pixel_x;
                let raw_index: usize = pixel_index * geometry.channels + channel;
                value = raw[raw_index];
            }
        }
        assert(value == goal[offset as int]);
        out.set(offset, value);
        offset += 1;
    }
    assert(out@ =~= goal);
}

/// As many zeros as asked for.
fn zero_bytes(count: usize) -> (bytes: Vec<u8>)
    ensures
        bytes@.len() == count,
{
    let mut bytes: Vec<u8> = Vec::new();
    let mut i: usize = 0;
    while i < count
        invariant
            i <= count,
            bytes@.len() == i,
        decreases count - i,
    {
        bytes.push(0);
        i += 1;
    }
    bytes
}

/// Writes bytes over the bits from a cursor on.
fn store_raw_channel(out: &mut BitStream, bit_cursor: usize, values: &Vec<u8>)
    requires
        0 < values@.len() <= 0xffff,
        bit_cursor + feature_width(values@.len(), ImageGroupingTransform::Raw) <= old(out)@.len(),
    ensures
        final(out)@ == old(out)@.take(bit_cursor as int) + coded_feature(
            values@,
            ImageGroupingTransform::Raw,
        ) + old(out)@.skip(
            bit_cursor + feature_width(values@.len(), ImageGroupingTransform::Raw),
        ),
{
    let total: usize = out.bit_len();
    let ghost start = out@;
    let ghost parts = Seq::new(values@.len(), |i: int| byte_bits(values@[i]));
    let mut k: usize = 0;
    proof {
        assert(parts.take(0) =~= Seq::empty());
        assert(out@ =~= start.take(bit_cursor as int) + join(parts.take(0)) + start.skip(
            bit_cursor as int,
        ));
    }
    while k < values.len()
        invariant
            k <= values@.len() <= 0xffff,
            parts == Seq::new(values@.len(), |i: int| byte_bits(values@[i])),
            total == start.len(),
            bit_cursor + 8 * values@.len() <= total,
            join(parts.take(k as int)).len() == 8 * k,
            out@ == start.take(bit_cursor as int) + join(parts.take(k as int)) + start.skip(
                bit_cursor + 8 * k,
            ),
        decreases values@.len() - k,
    {
        store_u8_be_at(out, bit_cursor + 8 * k, values[k]);
        proof {
            assert(parts.take(k as int + 1) =~= parts.take(k as int).push(parts[k as int]));
            join_push(parts.take(k as int), parts[k as int]);
            assert(out@ =~= start.take(bit_cursor as int) + join(parts.take(k as int + 1))
                + start.skip(bit_cursor + 8 * (k + 1)));
        }
        k += 1;
    }
    assert(parts.take(k as int) =~= parts);
}

/// Writes an anchor and the differences from it over the bits from a cursor on.
fn store_first_pixel_channel(out: &mut BitStream, bit_cursor: usize, values: &Vec<u8>)
    requires
        0 < values@.len() <= 0xffff,
        bit_cursor + feature_width(values@.len(), ImageGroupingTransform::ForFirstPixel) <= old(
            out,
        )@.len(),
    ensures
        final(out)@ == old(out)@.take(bit_cursor as int) + coded_feature(
            values@,
            ImageGroupingTransform::ForFirstPixel,
        ) + old(out)@.skip(
            bit_cursor + feature_width(values@.len(), ImageGroupingTransform::ForFirstPixel),
        ),
{
    let total: usize = out.bit_len();
    let ghost start = out@;
    let ghost parts = residuals(values@, 0);
    let anchor: u8 = values[0];
    store_u8_be_at(out, bit_cursor, anchor);
    let mut k: usize = 1;
    proof {
        assert(parts.take(0) =~= Seq::empty());
        assert(out@ =~= start.take(bit_cursor as int) + byte_bits(anchor) + join(parts.take(0))
            + start.skip(bit_cursor + 8));
    }
    while k < values.len()
        invariant
            1 <= k <= values@.len() <= 0xffff,
            parts == residuals(values@, 0),
            anchor == values@[0],
            total == start.len(),
            bit_cursor + 8 + 9 * (values@.len() - 1) <= total,
            join(parts.take(k - 1)).len() == 9 * (k - 1),
            out@ == start.take(bit_cursor as int) + byte_bits(anchor) + join(parts.take(k - 1))
                + start.skip(bit_cursor + 8 + 9 * (k - 1)),
        decreases values@.len() - k,
    {
        let code: u16 = zigzag_difference(values[k], anchor);
        store_u16_be_at(out, bit_cursor + 8 + 9 * (k - 1), code, 9);
        proof {
            assert(parts.take(k as int) =~= parts.take(k - 1).push(parts[k - 1]));
            join_push(parts.take(k - 1), parts[k - 1]);
            assert(out@ =~= start.take(bit_cursor as int) + byte_bits(anchor) + join(
                parts.take(k as int),
            ) + start.skip(bit_cursor + 8 + 9 * k));
        }
        k += 1;
    }
    proof {
        assert(parts.take(k - 1) =~= parts);
        assert(out@ =~= start.take(bit_cursor as int) + coded_feature(
            values@,
            ImageGroupingTransform::ForFirstPixel,
        ) + start.skip(
            bit_cursor + feature_width(values@.len(), ImageGroupingTransform::ForFirstPixel),
        ));
    }
}

/// What is already written and zeros behind it.
pub open spec fn zero_filled(done: Seq<bool>, total: nat) -> Seq<bool> {
    done + Seq::new((total - done.len()) as nat, |i: int| false)
}

/// Writing the next part over zeros.
proof fn fill_next(done: Seq<bool>, part: Seq<bool>, total: nat)
    requires
        done.len() + part.len() <= total,
    ensures
        zero_filled(done, total).take(done.len() as int) + part + zero_filled(done, total).skip(
            (done.len() + part.len()) as int,
        ) == zero_filled(done + part, total),
{
    assert(zero_filled(done, total).take(done.len() as int) + part + zero_filled(
        done,
        total,
    ).skip((done.len() + part.len()) as int) =~= zero_filled(done + part, total));
}

/// Writes one group of pixels, channel by channel, over zeros.
fn store_group(
    out: &mut BitStream,
    bit_cursor: usize,
    raw: &Vec<u8>,
    geometry: &ImageGeometry,
    transform: ImageGroupingTransform,
    g: usize,
    groups_across: usize,
    feature_bits: usize,
    Ghost(done): Ghost<Seq<bool>>,
)
    requires
        geometry.valid(),
        raw@.len() == geometry.width * geometry.height * geometry.channels,
        transform != ImageGroupingTransform::ForMin,
        g < geometry.rows(),
        groups_across == geometry.groups_across(),
        feature_bits == feature_width(geometry.pixels(), transform),
        bit_cursor == done.len(),
        done.len() + geometry.row_width(transform) <= old(out)@.len(),
        old(out)@ == zero_filled(done, old(out)@.len()),
    ensures
        final(out)@ == zero_filled(
            done + join(geometry.features(raw@, transform, g as int)),
            old(out)@.len(),
        ),
{
    let total: usize = out.bit_len();
    let ghost parts = geometry.features(raw@, transform, g as int);
    proof {
        row_lengths(*geometry, raw@, transform, geometry.row_width(transform), g as int);
        group_place(*geometry, g as int);
    }
    let group_x: usize = g % groups_across;
    let group_y: usize = g / groups_across;
    let mut values: Vec<u8> = zero_bytes(geometry.group_width * geometry.group_height);
    let mut channel: usize = 0;
    let mut cursor: usize = bit_cursor;
    proof {
        assert(parts.take(0) =~= Seq::empty());
        assert(done + join(parts.take(0)) =~= done);
        assert(0 * feature_bits == 0);
    }
    while channel < geometry.channels
        invariant
            geometry.valid(),
            raw@.len() == geometry.width * geometry.height * geometry.channels,
            transform != ImageGroupingTransform::ForMin,
            group_x * geometry.group_width < geometry.width,
            group_y * geometry.group_height < geometry.height,
            group_x == g as int % geometry.groups_across() as int,
            group_y == g as int / geometry.groups_across() as int,
            feature_bits == feature_width(geometry.pixels(), transform),
            0 < geometry.pixels() <= 0xffff,
            values@.len() == geometry.pixels(),
            parts == geometry.features(raw@, transform, g as int),
            forall|c: int|
                0 <= c < geometry.channels ==> (#[trigger] parts[c]).len() == feature_bits,
            channel <= geometry.channels == parts.len(),
            total == out@.len(),
            done.len() + geometry.channels * feature_bits <= total,
            cursor == done.len() + channel * feature_bits,
            join(parts.take(channel as int)).len() == channel * feature_bits,
            out@ == zero_filled(done + join(parts.take(channel as int)), total as nat),
        decreases geometry.channels - channel,
    {
        grouped_channel_values_into(raw, geometry, group_x, group_y, channel, &mut values);
        let ghost before = done + join(parts.take(channel as int));
        proof {
            let n = geometry.channels as int;
            assert(channel * feature_bits + feature_bits <= n * feature_bits) by (nonlinear_arith)
                requires
                    channel < n,
            ;
            assert((channel + 1) * feature_bits == channel * feature_bits + feature_bits)
                by (nonlinear_arith);
            assert(parts[channel as int] == coded_feature(values@, transform));
            assert(parts.take(channel as int + 1) =~= parts.take(channel as int).push(
                parts[channel as int],
            ));
            join_push(parts.take(channel as int), parts[channel as int]);
            fill_next(before, parts[channel as int], total as nat);
            assert(before + parts[channel as int] =~= done + join(parts.take(channel as int + 1)));
        }
        match transform {
            ImageGroupingTransform::Raw => {
                store_raw_channel(out, cursor, &values);
            },
            _ => {
                store_first_pixel_channel(out, cursor, &values);
            },
        }
        cursor += feature_bits;
        channel += 1;
    }
    assert(parts.take(channel as int) =~= parts);
}

/// The place of a group among the groups.
pub proof fn group_place(geometry: ImageGeometry, g: int)
    requires
        geometry.valid(),
        0 <= g < geometry.rows(),
    ensures
        geometry.groups_across() > 0,
        0 <= g % (geometry.groups_across() as int) < geometry.groups_across(),
        0 <= g / (geometry.groups_across() as int) < geometry.groups_down(),
        (g % (geometry.groups_across() as int)) * geometry.group_width < geometry.width,
        (g / (geometry.groups_across() as int)) * geometry.group_height < geometry.height,
{
    let across = geometry.groups_across() as int;
    let down = geometry.groups_down() as int;
    assert(across > 0) by (nonlinear_arith)
        requires
            0 <= g < across * down,
            across >= 0,
    ;
    assert(0 <= g / across < down && 0 <= g % across < across) by (nonlinear_arith)
        requires
            0 <= g < across * down,
            across > 0,
    ;
    parts_reach(geometry.width as int, geometry.group_width as int, g % across);
    parts_reach(geometry.height as int, geometry.group_height as int, g / across);
}

/// All groups of an image, each padded to the stride, written into a stream of zeros.
fn build_stored_bitstream(
    raw: &Vec<u8>,
    geometry: &ImageGeometry,
    transform: ImageGroupingTransform,
    groups_across: usize,
    rows: usize,
    feature_bits: usize,
    stride: usize,
) -> (stream: BitStream)
    requires
        geometry.valid(),
        raw@.len() == geometry.width * geometry.height * geometry.channels,
        transform != ImageGroupingTransform::ForMin,
        groups_across == geometry.groups_across(),
        rows == geometry.rows(),
        feature_bits == feature_width(geometry.pixels(), transform),
        geometry.row_width(transform) <= stride,
        rows * stride <= MAX_STREAM_BITS,
    ensures
        stream@ == join(geometry.padded_rows(raw@, transform, stride as nat)),
{
    let storage_bits: usize = rows * stride;
    let mut stream = BitStream::filled(false, storage_bits);
    let ghost parts = geometry.padded_rows(raw@, transform, stride as nat);
    let mut g: usize = 0;
    proof {
        assert(parts.take(0) =~= Seq::empty());
        assert(stream@ =~= zero_filled(join(parts.take(0)), storage_bits as nat));
        assert(0 * stride == 0);
    }
    while g < rows
        invariant
            geometry.valid(),
            raw@.len() == geometry.width * geometry.height * geometry.channels,
            transform != ImageGroupingTransform::ForMin,
            groups_across == geometry.groups_across(),
            rows == geometry.rows() == parts.len(),
            feature_bits == feature_width(geometry.pixels(), transform),
            geometry.row_width(transform) <= stride,
            storage_bits == rows * stride,
            g <= rows,
            parts == geometry.padded_rows(raw@, transform, stride as nat),
            stream@.len() == storage_bits,
            join(parts.take(g as int)).len() == g * stride,
            stream@ == zero_filled(join(parts.take(g as int)), storage_bits as nat),
        decreases rows - g,
    {
        let ghost done = join(parts.take(g as int));
        proof {
            assert(g * stride + stride <= rows * stride) by (nonlinear_arith)
                requires
                    g < rows,
            ;
            assert((g + 1) * stride == g * stride + stride) by (nonlinear_arith);
            row_lengths(*geometry, raw@, transform, stride as nat, g as int);
        }
        store_group(
            &mut stream,
            g * stride,
            raw,
            geometry,
            transform,
            g,
            groups_across,
            feature_bits,
            Ghost(done),
        );
        proof {
            assert(parts.take(g as int + 1) =~= parts.take(g as int).push(parts[g as int]));
            join_push(parts.take(g as int), parts[g as int]);
            assert(stream@ =~= zero_filled(
                join(parts.take(g as int + 1)),
                storage_bits as nat,
            ));
        }
        g += 1;
    }
    proof {
        assert(parts.take(g as int) =~= parts);
        assert(stream@ =~= join(parts));
    }
    stream
}

/// All groups of an image with their bytes as they are.
pub fn build_raw_transform_bitstream_from_raw(
    raw: &Vec<u8>,
    geometry: &ImageGeometry,
    groups_across: usize,
    rows: usize,
    feature_bits: usize,
    stride: usize,
) -> (stream: BitStream)
    requires
        geometry.valid(),
        raw@.len() == geometry.width * geometry.height * geometry.channels,
        groups_across == geometry.groups_across(),
        rows == geometry.rows(),
        feature_bits == feature_width(geometry.pixels(), ImageGroupingTransform::Raw),
        geometry.row_width(ImageGroupingTransform::Raw) <= stride,
        rows * stride <= MAX_STREAM_BITS,
    ensures
        stream@ == join(
            geometry.padded_rows(raw@, ImageGroupingTransform::Raw, stride as nat),
        ),
{
    build_stored_bitstream(
        raw,
        geometry,
        ImageGroupingTransform::Raw,
        groups_across,
        rows,
        feature_bits,
        stride,
    )
}

/// All groups of an image, each with its first byte and the differences from it.
pub fn build_for_first_pixel_transform_bitstream_from_raw(
    raw: &Vec<u8>,
    geometry: &ImageGeometry,
    groups_across: usize,
    rows: usize,
    feature_bits: usize,
    stride: usize,
) -> (stream: BitStream)
    requires
        geometry.valid(),
        raw@.len() == geometry.width * geometry.height * geometry.channels,
        groups_across == geometry.groups_across(),
        rows == geometry.rows(),
        feature_bits == feature_width(geometry.pixels(), ImageGroupingTransform::ForFirstPixel),
        geometry.row_width(ImageGroupingTransform::ForFirstPixel) <= stride,
        rows * stride <= MAX_STREAM_BITS,
    ensures
        stream@ == join(
            geometry.padded_rows(raw@, ImageGroupingTransform::ForFirstPixel, stride as nat),
        ),
{
    build_stored_bitstream(
        raw,
        geometry,
        ImageGroupingTransform::ForFirstPixel,
        groups_across,
        rows,
        feature_bits,
        stride,
    )
}

/// Appends one group of pixels, channel by channel.
fn append_group(
    out: &mut BitStream,
    raw: &Vec<u8>,
    geometry: &ImageGeometry,
    transform: ImageGroupingTransform,
    g: usize,
    groups_across: usize,
)
    requires
        geometry.valid(),
        raw@.len() == geometry.width * geometry.height * geometry.channels,
        g < geometry.rows(),
        groups_across == geometry.groups_across(),
        old(out)@.len() + geometry.row_width(transform) <= MAX_STREAM_BITS,
    ensures
        final(out)@ == old(out)@ + join(geometry.features(raw@, transform, g as int)),
{
    let ghost start = out@;
    let ghost parts = geometry.features(raw@, transform, g as int);
    let ghost bits = feature_width(geometry.pixels(), transform);
    proof {
        row_lengths(*geometry, raw@, transform, geometry.row_width(transform), g as int);
        group_place(*geometry, g as int);
    }
    let group_x: usize = g % groups_across;
    let group_y: usize = g / groups_across;
    let mut values: Vec<u8> = zero_bytes(geometry.group_width * geometry.group_height);
    let mut channel: usize = 0;
    proof {
        assert(parts.take(0) =~= Seq::empty());
        assert(start + join(parts.take(0)) =~= start);
        assert(0 * bits == 0);
    }
    while channel < geometry.channels
        invariant
            geometry.valid(),
            raw@.len() == geometry.width * geometry.height * geometry.channels,
            group_x * geometry.group_width < geometry.width,
            group_y * geometry.group_height < geometry.height,
            group_x == g as int % geometry.groups_across() as int,
            group_y == g as int / geometry.groups_across() as int,
            bits == feature_width(geometry.pixels(), transform),
            0 < geometry.pixels() <= 0xffff,
            values@.len() == geometry.pixels(),
            parts == geometry.features(raw@, transform, g as int),
            forall|c: int| 0 <= c < geometry.channels ==> (#[trigger] parts[c]).len() == bits,
            channel <= geometry.channels == parts.len(),
            start.len() + geometry.channels * bits <= MAX_STREAM_BITS,
            join(parts.take(channel as int)).len() == channel * bits,
            out@ == start + join(parts.take(channel as int)),
        decreases geometry.channels - channel,
    {
        grouped_channel_values_into(raw, geometry, group_x, group_y, channel, &mut values);
        proof {
            let n = geometry.channels as int;
            let b = bits as int;
            assert(channel * b + b <= n * b && (channel + 1) * b == channel * b + b)
                by (nonlinear_arith)
                requires
                    channel < n,
                    0 <= b,
            ;
            assert(parts[channel as int] == coded_feature(values@, transform));
            assert(parts.take(channel as int + 1) =~= parts.take(channel as int).push(
                parts[channel as int],
            ));
            join_push(parts.take(channel as int), parts[channel as int]);
        }
        encode_grouped_channel(out, &values, transform);
        assert(out@ =~= start + join(parts.take(channel as int + 1)));
        channel += 1;
    }
    assert(parts.take(channel as int) =~= parts);
}

/// All groups of an image, each padded to the stride, one behind the other.
pub fn build_grouped_transform_bitstream_from_raw(
    raw: &Vec<u8>,
    geometry: &ImageGeometry,
    transform: ImageGroupingTransform,
    groups_across: usize,
    rows: usize,
    chunk_size: usize,
    stride: usize,
) -> (stream: BitStream)
    requires
        geometry.valid(),
        raw@.len() == geometry.width * geometry.height * geometry.channels,
        groups_across == geometry.groups_across(),
        rows == geometry.rows(),
        chunk_size == geometry.row_width(transform),
        chunk_size <= stride,
        rows * stride <= MAX_STREAM_BITS,
    ensures
        stream@ == join(geometry.padded_rows(raw@, transform, stride as nat)),
{
    let mut stream = BitStream::empty();
    let ghost parts = geometry.padded_rows(raw@, transform, stride as nat);
    let mut g: usize = 0;
    proof {
        assert(parts.take(0) =~= Seq::empty());
        assert(0 * stride == 0);
    }
    while g < rows
        invariant
            geometry.valid(),
            raw@.len() == geometry.width * geometry.height * geometry.channels,
            groups_across == geometry.groups_across(),
            rows == geometry.rows() == parts.len(),
            chunk_size == geometry.row_width(transform),
            chunk_size <= stride,
            rows * stride <= MAX_STREAM_BITS,
            g <= rows,
            parts == geometry.padded_rows(raw@, transform, stride as nat),
            stream@.len() == g * stride,
            stream@ == join(parts.take(g as int)),
        decreases rows - g,
    {
        proof {
            assert(g * stride + stride <= rows * stride) by (nonlinear_arith)
                requires
                    g < rows,
            ;
            assert((g + 1) * stride == g * stride + stride) by (nonlinear_arith);
            row_lengths(*geometry, raw@, transform, stride as nat, g as int);
        }
        append_group(&mut stream, raw, geometry, transform, g, groups_across);
        crate::dataset::append_row_padding(&mut stream, stride - chunk_size);
        proof {
            assert(parts.take(g as int + 1) =~= parts.take(g as int).push(parts[g as int]));
            join_push(parts.take(g as int), parts[g as int]);
            assert(stream@ =~= join(parts.take(g as int + 1)));
        }
        g += 1;
    }
    assert(parts.take(g as int) =~= parts);
    stream
}

} // verus!
