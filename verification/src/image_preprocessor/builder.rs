//! Images as bit-packed datasets, and back.
use vstd::prelude::*;

use crate::bits::{join, join_uniform, BitStream, MAX_STREAM_BITS};
use crate::data::{
    aligned_stride, features_width, stride_for, BitDataInfo, BitDataReconstructionInfo,
    FeatureDataType, FeatureSpec, FeatureTransform, ImageColorModel, ImageGroupingTransform,
    ImageReconstructionInfo, InfoView, PixelGrouping, ReconstructionView,
    DEFAULT_ALIGN_ROWS_TO_WORD,
};
use crate::dataset::{BitData, BitDataSet};
use crate::error::{bad_metadata, EntroGdError};
use crate::image_preprocessor::color::{
    coloring, convert_rgb_to_ycocg_channels, convert_rgb_to_ycocg_r_channels, recolored,
};
use crate::image_preprocessor::geometry::{
    build_for_first_pixel_transform_bitstream_from_raw, build_grouped_transform_bitstream_from_raw,
    build_raw_transform_bitstream_from_raw, parts_of, row_lengths, ImageGeometry,
};
use crate::image_preprocessor::grouping::{feature_bits_for_grouping, feature_width};

verus! {

/// How the channel bytes of an image are to be understood.
#[derive(Debug, Clone, Copy, PartialEq, Eq, Structural)]
pub enum ImageColorSpace {
    /// sRGB with linear alpha.
    SrgbWithLinearAlpha,
    /// All channels linear.
    Linear,
}

impl ImageColorSpace {
    /// The number that stands for the colour space in a file.
    pub open spec fn code(self) -> u8 {
        match self {
            ImageColorSpace::SrgbWithLinearAlpha => 0,
            ImageColorSpace::Linear => 1,
        }
    }

    /// The number that stands for the colour space in a file.
    pub fn as_u8(self) -> (code: u8)
        ensures
            code == self.code(),
    {
        match self {
            ImageColorSpace::SrgbWithLinearAlpha => 0,
            ImageColorSpace::Linear => 1,
        }
    }
}

/// A decoded image.
#[derive(Debug)]
pub struct ImageBuildInput {
    pub width: u32,
    pub height: u32,
    pub channels: u8,
    pub colorspace: u8,
    /// The bytes of all pixels, line by line, the channels of a pixel side by side.
    pub raw: Vec<u8>,
}

/// How an image is to be stored.
#[derive(Debug, Clone, Copy, PartialEq, Eq, Structural)]
pub struct ImageBuildOptions {
    pub color_model: ImageColorModel,
    pub pixel_grouping: PixelGrouping,
    pub grouping_transform: ImageGroupingTransform,
    pub pad_rows_to_word: bool,
}

/// Builds a dataset from an image.
#[derive(Debug, Clone, Copy, PartialEq, Eq, Structural)]
pub struct BuildImageBitDataSet {
    pub colorspace: ImageColorSpace,
    pub color_model: ImageColorModel,
    pub pixel_grouping: PixelGrouping,
    pub grouping_transform: ImageGroupingTransform,
    pub pad_rows_to_word: bool,
}

impl Default for BuildImageBitDataSet {
    fn default() -> (builder: BuildImageBitDataSet)
        ensures
            builder == (BuildImageBitDataSet {
                colorspace: ImageColorSpace::SrgbWithLinearAlpha,
                color_model: ImageColorModel::Rgb,
                pixel_grouping: PixelGrouping(1, 1),
                grouping_transform: ImageGroupingTransform::Raw,
                pad_rows_to_word: DEFAULT_ALIGN_ROWS_TO_WORD,
            }),
    {
        BuildImageBitDataSet {
            colorspace: ImageColorSpace::SrgbWithLinearAlpha,
            color_model: ImageColorModel::Rgb,
            pixel_grouping: PixelGrouping::new(1, 1),
            grouping_transform: ImageGroupingTransform::Raw,
            pad_rows_to_word: DEFAULT_ALIGN_ROWS_TO_WORD,
        }
    }
}

/// The geometry of an image of the given size.
pub open spec fn geometry_of(
    width: u32,
    height: u32,
    channels: u8,
    grouping: PixelGrouping,
) -> ImageGeometry {
    ImageGeometry {
        width: width as usize,
        height: height as usize,
        channels: channels as usize,
        group_width: grouping.0 as usize,
        group_height: grouping.1 as usize,
    }
}

/// Whether an image can become a dataset: it has three or four channels, a known colour space, a
/// byte for each channel of each pixel, groups with pixels, and all sizes can be computed.
pub open spec fn image_accepted(input: ImageBuildInput, options: ImageBuildOptions) -> bool {
    let geometry = geometry_of(
        input.width,
        input.height,
        input.channels,
        options.pixel_grouping,
    );
    let width = feature_width(geometry.pixels(), options.grouping_transform);
    let stride = stride_for(geometry.row_width(options.grouping_transform), options.pad_rows_to_word);
    &&& input.channels == 3 || input.channels == 4
    &&& input.colorspace == 0 || input.colorspace == 1
    &&& options.pixel_grouping.0 > 0
    &&& options.pixel_grouping.1 > 0
    &&& input.raw@.len() == input.width * input.height * input.channels
    &&& input.width * input.height <= usize::MAX
    &&& input.width + options.pixel_grouping.0 <= usize::MAX
    &&& input.height + options.pixel_grouping.1 <= usize::MAX
    &&& width <= u16::MAX
    &&& geometry.rows() * stride <= MAX_STREAM_BITS
}

/// The metadata of an image.
pub open spec fn image_info(input: ImageBuildInput, options: ImageBuildOptions) -> InfoView {
    let geometry = geometry_of(
        input.width,
        input.height,
        input.channels,
        options.pixel_grouping,
    );
    let width = feature_width(geometry.pixels(), options.grouping_transform);
    InfoView {
        features: Seq::new(
            input.channels as nat,
            |c: int|
                FeatureSpec {
                    data_type: FeatureDataType::UInt(width as u16),
                    transform: FeatureTransform::Verbatim,
                },
        ),
        original_size_bits: geometry.rows() * geometry.row_width(options.grouping_transform),
        row_stride: stride_for(
            geometry.row_width(options.grouping_transform),
            options.pad_rows_to_word,
        ),
        weights: None,
        reconstruction: ReconstructionView::Image(
            ImageReconstructionInfo {
                width: input.width,
                height: input.height,
                channels: input.channels,
                color_model: options.color_model,
                pixel_grouping: options.pixel_grouping,
                grouping_transform: options.grouping_transform,
                colorspace: input.colorspace,
            },
        ),
    }
}

/// The width of features that are all alike.
proof fn equal_features_width(features: Seq<FeatureSpec>, width: nat)
    requires
        forall|i: int| 0 <= i < features.len() ==> (#[trigger] features[i]).data_type.width() == width,
    ensures
        features_width(features) == features.len() * width,
    decreases features.len(),
{
    if features.len() > 0 {
        equal_features_width(features.drop_last(), width);
        let n = features.len() as int;
        let w = width as int;
        assert((n - 1) * w + w == n * w) by (nonlinear_arith);
    } else {
        assert(0 * width == 0);
    }
}

/// A row padded to whole words is less than a word longer.
proof fn stride_bound(chunk_size: nat, pad: bool)
    ensures
        chunk_size <= stride_for(chunk_size, pad) <= chunk_size + 64,
{
    if pad {
        let w = usize::BITS as int;
        let c = chunk_size as int;
        assert(w == 32 || w == 64);
        let q = (c + w - 1) / w;
        assert(c <= q * w <= c + w) by (nonlinear_arith)
            requires
                w > 0,
                q == (c + w - 1) / w,
        ;
    }
}

/// Features of one width, one for each channel.
fn channel_features(channels: usize, feature_bits: u16) -> (features: Vec<FeatureSpec>)
    ensures
        features@ == Seq::new(
            channels as nat,
            |c: int|
                FeatureSpec {
                    data_type: FeatureDataType::UInt(feature_bits),
                    transform: FeatureTransform::Verbatim,
                },
        ),
{
    let mut features: Vec<FeatureSpec> = Vec::new();
    let mut c: usize = 0;
    while c < channels
        invariant
            c <= channels,
            features@.len() == c,
            forall|k: int|
                0 <= k < c ==> #[trigger] features@[k] == (FeatureSpec {
                    data_type: FeatureDataType::UInt(feature_bits),
                    transform: FeatureTransform::Verbatim,
                }),
        decreases channels - c,
    {
        features.push(FeatureSpec::new(FeatureDataType::UInt(feature_bits)));
        c += 1;
    }
    features
}

/// The parts of a size that cover a length.
fn count_parts(length: usize, size: usize) -> (count: usize)
    requires
        size > 0,
        length + size <= usize::MAX,
    ensures
        count == parts_of(length as nat, size as nat),
{
    (length + size - 1) / size
}

/// The sizes that the rows of an image have.
struct ImageSizes {
    groups_across: usize,
    rows: usize,
    feature_bits: u16,
    chunk_size: usize,
    stride: usize,
}

/// The sizes of an image, where they can be computed.
fn image_sizes(geometry: &ImageGeometry, transform: ImageGroupingTransform, pad: bool) -> (result:
    Result<ImageSizes, EntroGdError>)
    requires
        3 <= geometry.channels <= 4,
        geometry.group_width > 0,
        geometry.group_height > 0,
        geometry.width * geometry.height * geometry.channels <= usize::MAX,
        geometry.width * geometry.height <= usize::MAX,
    ensures
        result is Ok <==> {
            let stride = stride_for(geometry.row_width(transform), pad);
            &&& geometry.width + geometry.group_width <= usize::MAX
            &&& geometry.height + geometry.group_height <= usize::MAX
            &&& feature_width(geometry.pixels(), transform) <= u16::MAX
            &&& geometry.rows() * stride <= MAX_STREAM_BITS
        },
        result matches Ok(sizes) ==> {
            &&& geometry.valid()
            &&& sizes.groups_across == geometry.groups_across()
            &&& sizes.rows == geometry.rows()
            &&& sizes.feature_bits == feature_width(geometry.pixels(), transform)
            &&& sizes.chunk_size == geometry.row_width(transform)
            &&& sizes.chunk_size > 0
            &&& sizes.stride == stride_for(geometry.row_width(transform), pad)
            &&& sizes.chunk_size <= sizes.stride
            &&& sizes.rows * sizes.stride <= MAX_STREAM_BITS
        },
        result matches Err(error) ==> error is InvalidMetadata,
{
    proof {
        let w = geometry.group_width as int;
        let h = geometry.group_height as int;
        assert(w * h > 0) by (nonlinear_arith)
            requires
                w > 0,
                h > 0,
        ;
    }
    let pixels_per_group: usize = match geometry.group_width.checked_mul(geometry.group_height) {
        Some(pixels) => pixels,
        None => {
            return Err(bad_metadata("pixel grouping overflows total pixel count"));
        },
    };
    let feature_bits: usize = match feature_bits_for_grouping(pixels_per_group, transform) {
        Ok(bits) => bits,
        Err(error) => {
            return Err(error);
        },
    };
    if feature_bits > u16::MAX as usize {
        return Err(bad_metadata("pixel grouping overflows feature bit width"));
    }
    if geometry.width.checked_add(geometry.group_width).is_none() || geometry.height.checked_add(
        geometry.group_height,
    ).is_none() {
        return Err(bad_metadata("image dimensions overflow grouped row count"));
    }
    let groups_across: usize = count_parts(geometry.width, geometry.group_width);
    let groups_down: usize = count_parts(geometry.height, geometry.group_height);
    proof {
        let f = feature_bits as int;
        let c = geometry.channels as int;
        assert(c * f <= 4 * f && 0 < c * f) by (nonlinear_arith)
            requires
                3 <= c <= 4,
                0 < f,
        ;
        stride_bound(geometry.row_width(transform), pad);
    }
    let chunk_size: usize = geometry.channels * feature_bits;
    let stride: usize = aligned_stride(chunk_size, pad);
    let rows: usize = match groups_across.checked_mul(groups_down) {
        Some(rows) => rows,
        None => {
            proof {
                let r = geometry.rows() as int;
                let s = stride as int;
                assert(r * s >= r) by (nonlinear_arith)
                    requires
                        r >= 0,
                        s > 0,
                ;
            }
            return Err(bad_metadata("image dimensions overflow grouped row count"));
        },
    };
    match rows.checked_mul(stride) {
        Some(bits) => {
            if bits > MAX_STREAM_BITS {
                return Err(bad_metadata("image padded bitdata size overflow"));
            }
        },
        None => {
            return Err(bad_metadata("image padded bitdata size overflow"));
        },
    }
    Ok(
        ImageSizes {
            groups_across,
            rows,
            feature_bits: feature_bits as u16,
            chunk_size,
            stride,
        },
    )
}

/// The bits of all groups of an image.
fn encode_groups(
    raw: &Vec<u8>,
    geometry: &ImageGeometry,
    transform: ImageGroupingTransform,
    sizes: &ImageSizes,
) -> (stream: BitStream)
    requires
        geometry.valid(),
        raw@.len() == geometry.width * geometry.height * geometry.channels,
        sizes.groups_across == geometry.groups_across(),
        sizes.rows == geometry.rows(),
        sizes.feature_bits == feature_width(geometry.pixels(), transform),
        sizes.chunk_size == geometry.row_width(transform),
        sizes.chunk_size <= sizes.stride,
        sizes.rows * sizes.stride <= MAX_STREAM_BITS,
    ensures
        stream@ == join(geometry.padded_rows(raw@, transform, sizes.stride as nat)),
{
    match transform {
        ImageGroupingTransform::Raw => build_raw_transform_bitstream_from_raw(
            raw,
            geometry,
            sizes.groups_across,
            sizes.rows,
            sizes.feature_bits as usize,
            sizes.stride,
        ),
        ImageGroupingTransform::ForFirstPixel => {
            build_for_first_pixel_transform_bitstream_from_raw(
                raw,
                geometry,
                sizes.groups_across,
                sizes.rows,
                sizes.feature_bits as usize,
                sizes.stride,
            )
        },
        ImageGroupingTransform::ForMin => build_grouped_transform_bitstream_from_raw(
            raw,
            geometry,
            transform,
            sizes.groups_across,
            sizes.rows,
            sizes.chunk_size,
            sizes.stride,
        ),
    }
}

/// Whether a dataset is that of an image.
pub open spec fn is_image_set(
    set: BitDataSet,
    input: ImageBuildInput,
    options: ImageBuildOptions,
) -> bool {
    let geometry = geometry_of(
        input.width,
        input.height,
        input.channels,
        options.pixel_grouping,
    );
    let pixels = recolored(
        input.raw@,
        input.channels as nat,
        coloring(options.color_model),
    );
    &&& set.valid()
    &&& geometry.valid()
    &&& set.info@ == image_info(input, options)
    &&& set.data.num_rows == geometry.rows()
    &&& set.data.stride == set.info@.row_stride
    &&& set.data.chunk_size == geometry.row_width(options.grouping_transform)
    &&& set.data.data@ == join(
        geometry.padded_rows(pixels, options.grouping_transform, set.info@.row_stride),
    )
}

/// Turns an image into a dataset with a row for each group of pixels.
pub fn build_image_bitdataset(input: ImageBuildInput, options: ImageBuildOptions) -> (result:
    Result<BitDataSet, EntroGdError>)
    ensures
        result is Ok <==> image_accepted(input, options),
        result matches Ok(set) ==> is_image_set(set, input, options),
        result matches Err(error) ==> error is InvalidMetadata,
{
    let channels: usize = input.channels as usize;
    if channels != 3 && channels != 4 {
        return Err(bad_metadata("unsupported channel count (expected 3 or 4)"));
    }
    if input.colorspace != 0 && input.colorspace != 1 {
        return Err(bad_metadata("unsupported colorspace (expected 0 or 1)"));
    }
    if options.pixel_grouping.width() == 0 || options.pixel_grouping.height() == 0 {
        return Err(bad_metadata("pixel_grouping width and height must be > 0"));
    }
    let pixels: usize = match (input.width as usize).checked_mul(input.height as usize) {
        Some(pixels) => pixels,
        None => {
            return Err(bad_metadata("image dimensions overflow row count"));
        },
    };
    let expected_len: usize = match pixels.checked_mul(channels) {
        Some(len) => len,
        None => {
            let actual: usize = input.raw.len();
            assert(input.raw@.len() == actual);
            return Err(bad_metadata("image dimensions overflow raw data length"));
        },
    };
    if input.raw.len() != expected_len {
        return Err(bad_metadata("invalid raw image length"));
    }
    let geometry = ImageGeometry {
        width: input.width as usize,
        height: input.height as usize,
        channels,
        group_width: options.pixel_grouping.width() as usize,
        group_height: options.pixel_grouping.height() as usize,
    };
    let transform = options.grouping_transform;
    let sizes = match image_sizes(&geometry, transform, options.pad_rows_to_word) {
        Ok(sizes) => sizes,
        Err(error) => {
            return Err(error);
        },
    };
    let features = channel_features(channels, sizes.feature_bits);
    let reconstruction = BitDataReconstructionInfo::Image(
        ImageReconstructionInfo {
            width: input.width,
            height: input.height,
            channels: input.channels,
            color_model: options.color_model,
            pixel_grouping: options.pixel_grouping,
            grouping_transform: transform,
            colorspace: input.colorspace,
        },
    );
    proof {
        equal_features_width(features@, sizes.feature_bits as nat);
        let r = sizes.rows as int;
        let c = sizes.chunk_size as int;
        let s = sizes.stride as int;
        assert(0 <= r * c <= r * s) by (nonlinear_arith)
            requires
                0 <= r,
                0 <= c <= s,
        ;
    }
    let logical_total_bits: usize = sizes.rows * sizes.chunk_size;
    let info = match BitDataInfo::new_with_reconstruction_info(
        features,
        logical_total_bits,
        reconstruction,
    ) {
        Ok(info) => info.with_original_size_bits_and_row_stride(logical_total_bits, sizes.stride),
        Err(error) => {
            return Err(error);
        },
    };
    let mut raw: Vec<u8> = input.raw;
    match options.color_model {
        ImageColorModel::Rgb => {
            proof {
                unchanged_colors(raw@, channels as nat);
            }
        },
        ImageColorModel::YCoCg => {
            convert_rgb_to_ycocg_channels(&mut raw, channels);
        },
        ImageColorModel::YCoCgR => {
            convert_rgb_to_ycocg_r_channels(&mut raw, channels);
        },
    }
    let bitstream = encode_groups(&raw, &geometry, transform, &sizes);
    proof {
        padded_rows_len(geometry, raw@, transform, sizes.stride as nat);
        assert(info@ =~= image_info(input, options));
    }
    let data = BitData {
        data: bitstream,
        chunk_size: sizes.chunk_size,
        stride: sizes.stride,
        num_rows: sizes.rows,
    };
    Ok(BitDataSet { data, info })
}

/// Pixels that keep their colours are the same pixels.
pub proof fn unchanged_colors(raw: Seq<u8>, channels: nat)
    requires
        channels >= 3,
    ensures
        recolored(raw, channels, coloring(ImageColorModel::Rgb)) == raw,
{
    let kept = recolored(raw, channels, coloring(ImageColorModel::Rgb));
    let c = channels as int;
    assert forall|i: int| 0 <= i < raw.len() implies #[trigger] kept[i] == raw[i] by {
        let p = i / c;
        let k = i % c;
        assert(i == p * c + k) by (nonlinear_arith)
            requires
                p == i / c,
                k == i % c,
                c > 0,
        ;
    }
    assert(kept =~= raw);
}

/// All rows of an image together have the stride as often as there are rows, and each row stands
/// in its place.
pub proof fn padded_rows_len(
    geometry: ImageGeometry,
    raw: Seq<u8>,
    transform: ImageGroupingTransform,
    stride: nat,
)
    requires
        geometry.valid(),
        geometry.row_width(transform) <= stride,
    ensures
        join(geometry.padded_rows(raw, transform, stride)).len() == geometry.rows() * stride,
        forall|g: int|
            0 <= g < geometry.rows() ==> #[trigger] geometry.padded_rows(raw, transform, stride)[g]
                == join(geometry.padded_rows(raw, transform, stride)).subrange(
                g * stride,
                g * stride + stride,
            ),
{
    let rows = geometry.padded_rows(raw, transform, stride);
    assert forall|g: int| 0 <= g < rows.len() implies (#[trigger] rows[g]).len() == stride by {
        row_lengths(geometry, raw, transform, stride, g);
    }
    join_uniform(rows, stride);
}

impl BuildImageBitDataSet {
    /// The options that the builder stores images with.
    pub open spec fn options(self) -> ImageBuildOptions {
        ImageBuildOptions {
            color_model: self.color_model,
            pixel_grouping: self.pixel_grouping,
            grouping_transform: self.grouping_transform,
            pad_rows_to_word: self.pad_rows_to_word,
        }
    }

    /// Turns the pixels of an image into a dataset.
    pub fn build(&self, width: u32, height: u32, channels: u8, raw: Vec<u8>) -> (result: Result<
        BitDataSet,
        EntroGdError,
    >)
        ensures
            ({
                let input = ImageBuildInput {
                    width,
                    height,
                    channels,
                    colorspace: self.colorspace.code(),
                    raw,
                };
                let geometry = geometry_of(width, height, channels, self.pixel_grouping);
                let pixels = recolored(raw@, channels as nat, coloring(self.color_model));
                &&& result is Ok <==> image_accepted(input, self.options())
                &&& result matches Ok(set) ==> {
                    &&& set.valid()
                    &&& set.info@ == image_info(input, self.options())
                    &&& set.data.num_rows == geometry.rows()
                    &&& set.data.stride == set.info@.row_stride
                    &&& set.data.chunk_size == geometry.row_width(self.grouping_transform)
                    &&& set.data.data@ == join(
                        geometry.padded_rows(pixels, self.grouping_transform, set.info@.row_stride),
                    )
                }
            }),
            result matches Err(error) ==> error is InvalidMetadata,
    {
        build_image_bitdataset(
            ImageBuildInput { width, height, channels, colorspace: self.colorspace.as_u8(), raw },
            ImageBuildOptions {
                color_model: self.color_model,
                pixel_grouping: self.pixel_grouping,
                grouping_transform: self.grouping_transform,
                pad_rows_to_word: self.pad_rows_to_word,
            },
        )
    }
}

} // verus!
