//! Bit-packed datasets and the metadata that describes them.
use vstd::prelude::*;

use crate::error::{bad_features, EntroGdError};
use crate::text::{number_within, two_numbers};

verus! {

/// Whether rows are padded to whole machine words unless asked otherwise.
pub const DEFAULT_ALIGN_ROWS_TO_WORD: bool = false;

/// How many pixels across and down make up one row of an image dataset.
#[derive(Debug, Clone, Copy, PartialEq, Eq, Structural)]
pub struct PixelGrouping(pub u32, pub u32);

impl PixelGrouping {
    /// A group of `width` by `height` pixels.
    pub fn new(width: u32, height: u32) -> (grouping: PixelGrouping)
        ensures
            grouping == PixelGrouping(width, height),
    {
        PixelGrouping(width, height)
    }

    /// The pixels across.
    pub fn width(self) -> (width: u32)
        ensures
            width == self.0,
    {
        self.0
    }

    /// The pixels down.
    pub fn height(self) -> (height: u32)
        ensures
            height == self.1,
    {
        self.1
    }

    /// The number of pixels in a group.
    pub fn total_pixels(self) -> (pixels: u32)
        requires
            self.0 * self.1 <= u32::MAX,
        ensures
            pixels == self.0 * self.1,
    {
        self.0 * self.1
    }

    /// The grouping written as width, `x`, height.
    pub fn describe(self) -> (text: String)
        ensures
            text@ == ""@ + crate::text::decimal(self.0 as nat) + "x"@ + crate::text::decimal(
                self.1 as nat,
            ),
    {
        two_numbers("", self.0 as usize, "x", self.1 as usize)
    }
}

impl Default for PixelGrouping {
    /// One pixel per group.
    fn default() -> (grouping: PixelGrouping)
        ensures
            grouping == PixelGrouping(1, 1),
    {
        PixelGrouping(1, 1)
    }
}

/// The bits a row takes in storage: `chunk_size`, or the next multiple of the word width.
pub open spec fn stride_for(chunk_size: nat, pad_rows_to_word: bool) -> nat {
    if pad_rows_to_word {
        ((chunk_size + usize::BITS - 1) as nat / usize::BITS as nat) * (usize::BITS as nat)
    } else {
        chunk_size
    }
}

/// A padded row takes the least number of whole words that hold it, one without padding its own bits.
pub proof fn stride_is_least(chunk_size: nat, words: nat)
    ensures
        stride_for(chunk_size, false) == chunk_size,
        stride_for(chunk_size, true) % (usize::BITS as nat) == 0,
        stride_for(chunk_size, true) >= chunk_size,
        words * usize::BITS >= chunk_size ==> stride_for(chunk_size, true) <= words * usize::BITS,
{
    let word = usize::BITS as int;
    assert(word == 32 || word == 64);
    if word == 32 {
        assert(words * word == 32 * words);
    } else {
        assert(words * word == 64 * words);
    }
}

/// The bits a row takes in storage, with or without padding to whole words.
pub fn aligned_stride(chunk_size: usize, pad_rows_to_word: bool) -> (stride: usize)
    requires
        stride_for(chunk_size as nat, pad_rows_to_word) <= usize::MAX,
    ensures
        stride == stride_for(chunk_size as nat, pad_rows_to_word),
        stride >= chunk_size,
{
    if pad_rows_to_word {
        let word: usize = usize::BITS as usize;
        let whole: usize = chunk_size / word;
        proof {
            let c = chunk_size as int;
            let w = word as int;
            assert(w == 32 || w == 64);
            assert(c == w * (c / w) + c % w) by (nonlinear_arith)
                requires
                    w > 0,
            ;
            if c % w == 0 {
                assert((c + w - 1) / w == c / w) by {
                    if w == 32 {
                    } else {
                    }
                }
            } else {
                assert((c + w - 1) / w == c / w + 1) by {
                    if w == 32 {
                    } else {
                    }
                }
            }
            assert((c / w + 1) * w == w * (c / w) + w) by (nonlinear_arith);
            assert((c / w) * w == w * (c / w)) by (nonlinear_arith);
        }
        if chunk_size % word == 0 {
            whole * word
        } else {
            (whole + 1) * word
        }
    } else {
        chunk_size
    }
}

/// How a stored feature value relates to the value it stands for.
#[allow(inconsistent_fields)]
#[derive(Debug, Clone, Copy, PartialEq, Eq, Structural)]
pub enum FeatureTransform {
    /// Stored as it is, a float as its bit pattern.
    Verbatim,
    /// A float scaled by a power of ten, then biased by the least 64-bit number.
    ScaledSignedInt { decimal_scale: u8 },
    /// A signed integer less the least value of its column.
    OffsetSignedInt { min_value: i64 },
    /// An unsigned integer less the least value of its column.
    OffsetUnsignedInt { min_value: u64 },
    /// A float scaled by a power of ten, less the least scaled value of its column.
    ScaledOffsetSignedInt { decimal_scale: u8, min_value: i64 },
}

/// The storage type of a feature.
#[derive(Debug, Clone, Copy, PartialEq, Eq, Structural)]
pub enum FeatureDataType {
    Float16,
    Float32,
    Float64,
    Int8,
    Int16,
    Int32,
    Int64,
    UInt8,
    UInt16,
    UInt32,
    UInt64,
    /// An unsigned integer of any width.
    UInt(u16),
}

/// The number of binary digits of a number, none for zero.
pub open spec fn significant_bits(value: nat) -> nat
    decreases value,
{
    if value == 0 {
        0
    } else {
        1 + significant_bits(value / 2)
    }
}

/// The narrowest storage type for the values `0..=max_value`.
pub open spec fn narrowest_unsigned(max_value: nat) -> FeatureDataType {
    if max_value <= 0xff {
        FeatureDataType::UInt8
    } else if max_value <= 0xffff {
        FeatureDataType::UInt16
    } else if max_value <= 0xffff_ffff {
        FeatureDataType::UInt32
    } else {
        FeatureDataType::UInt(significant_bits(max_value) as u16)
    }
}

/// A number below `2^width` has at most `width` digits.
pub proof fn significant_bits_bound(value: nat, width: nat)
    requires
        value < vstd::arithmetic::power2::pow2(width),
    ensures
        significant_bits(value) <= width,
    decreases width,
{
    vstd::arithmetic::power2::lemma2_to64();
    if value > 0 {
        assert(width > 0);
        vstd::arithmetic::power2::lemma_pow2_unfold(width);
        significant_bits_bound(value / 2, (width - 1) as nat);
    }
}

impl FeatureDataType {
    /// The width of the storage type.
    pub open spec fn width(self) -> nat {
        match self {
            FeatureDataType::Float16 => 16,
            FeatureDataType::Float32 => 32,
            FeatureDataType::Float64 => 64,
            FeatureDataType::Int8 => 8,
            FeatureDataType::Int16 => 16,
            FeatureDataType::Int32 => 32,
            FeatureDataType::Int64 => 64,
            FeatureDataType::UInt8 => 8,
            FeatureDataType::UInt16 => 16,
            FeatureDataType::UInt32 => 32,
            FeatureDataType::UInt64 => 64,
            FeatureDataType::UInt(bits) => bits as nat,
        }
    }

    /// The width of the storage type.
    pub fn bits(&self) -> (bits: usize)
        ensures
            bits == self.width(),
            bits <= u16::MAX,
    {
        match self {
            FeatureDataType::Float16 => 16,
            FeatureDataType::Float32 => 32,
            FeatureDataType::Float64 => 64,
            FeatureDataType::Int8 => 8,
            FeatureDataType::Int16 => 16,
            FeatureDataType::Int32 => 32,
            FeatureDataType::Int64 => 64,
            FeatureDataType::UInt8 => 8,
            FeatureDataType::UInt16 => 16,
            FeatureDataType::UInt32 => 32,
            FeatureDataType::UInt64 => 64,
            FeatureDataType::UInt(bits) => *bits as usize,
        }
    }

    /// The narrowest storage type for the values `0..=max_value`.
    pub fn smallest_unsigned_for(max_value: u64) -> (data_type: FeatureDataType)
        ensures
            data_type == narrowest_unsigned(max_value as nat),
            data_type.width() <= 64,
    {
        proof {
            vstd::arithmetic::power2::lemma2_to64();
            vstd::arithmetic::power2::lemma2_to64_rest();
            significant_bits_bound(max_value as nat, 64);
        }
        if max_value <= 0xff {
            FeatureDataType::UInt8
        } else if max_value <= 0xffff {
            FeatureDataType::UInt16
        } else if max_value <= 0xffff_ffff {
            FeatureDataType::UInt32
        } else {
            let mut rest: u64 = max_value;
            let mut bits: u16 = 0;
            while rest > 0
                invariant
                    bits + significant_bits(rest as nat) == significant_bits(max_value as nat),
                    significant_bits(max_value as nat) <= 64,
                decreases rest,
            {
                rest = rest / 2;
                bits += 1;
            }
            FeatureDataType::UInt(bits)
        }
    }
}

/// The schema entry of one feature.
#[derive(Debug, Clone, Copy, PartialEq, Eq, Structural)]
pub struct FeatureSpec {
    pub data_type: FeatureDataType,
    pub transform: FeatureTransform,
}

impl FeatureSpec {
    /// A feature that is stored verbatim.
    pub fn new(data_type: FeatureDataType) -> (spec: FeatureSpec)
        ensures
            spec.data_type == data_type,
            spec.transform == FeatureTransform::Verbatim,
    {
        FeatureSpec { data_type, transform: FeatureTransform::Verbatim }
    }
}

/// The bits that a row of the given features takes.
pub open spec fn features_width(features: Seq<FeatureSpec>) -> nat
    decreases features.len(),
{
    if features.len() == 0 {
        0
    } else {
        features_width(features.drop_last()) + features.last().data_type.width()
    }
}

/// Adding a feature adds its width.
pub proof fn features_width_step(features: Seq<FeatureSpec>, i: int)
    requires
        0 <= i < features.len(),
    ensures
        features_width(features.take(i + 1)) == features_width(features.take(i))
            + features[i].data_type.width(),
{
    assert(features.take(i + 1).drop_last() =~= features.take(i));
}

/// A prefix of the features is no wider than all of them.
pub proof fn features_width_monotonic(features: Seq<FeatureSpec>, i: int, j: int)
    requires
        0 <= i <= j <= features.len(),
    ensures
        features_width(features.take(i)) <= features_width(features.take(j)),
    decreases j - i,
{
    if i < j {
        features_width_step(features, j - 1);
        features_width_monotonic(features, i, j - 1);
    }
}

/// The types that a source column can have; everything else is `Other`.
#[derive(Debug, Clone, Copy, PartialEq, Eq, Structural)]
pub enum ColumnDataType {
    Float16,
    Float32,
    Float64,
    Int8,
    Int16,
    Int32,
    Int64,
    UInt8,
    UInt16,
    UInt32,
    UInt64,
    Other,
}

/// The storage type that keeps a column of the given type verbatim, if there is one.
pub open spec fn verbatim_type(column: ColumnDataType) -> Option<FeatureDataType> {
    match column {
        ColumnDataType::Float16 => Some(FeatureDataType::Float16),
        ColumnDataType::Float32 => Some(FeatureDataType::Float32),
        ColumnDataType::Float64 => Some(FeatureDataType::Float64),
        ColumnDataType::Int8 => Some(FeatureDataType::Int8),
        ColumnDataType::Int16 => Some(FeatureDataType::Int16),
        ColumnDataType::Int32 => Some(FeatureDataType::Int32),
        ColumnDataType::Int64 => Some(FeatureDataType::Int64),
        ColumnDataType::UInt8 => Some(FeatureDataType::UInt8),
        ColumnDataType::UInt16 => Some(FeatureDataType::UInt16),
        ColumnDataType::UInt32 => Some(FeatureDataType::UInt32),
        ColumnDataType::UInt64 => Some(FeatureDataType::UInt64),
        ColumnDataType::Other => None,
    }
}

impl FeatureDataType {
    /// The storage type that keeps a column of the given type verbatim.
    pub fn from_column_type(column: ColumnDataType) -> (result: Result<
        FeatureDataType,
        EntroGdError,
    >)
        ensures
            result is Ok <==> verbatim_type(column) is Some,
            result matches Ok(data_type) ==> verbatim_type(column) == Some(data_type),
            result matches Err(error) ==> error is InvalidDataType,
    {
        match column {
            ColumnDataType::Float16 => Ok(FeatureDataType::Float16),
            ColumnDataType::Float32 => Ok(FeatureDataType::Float32),
            ColumnDataType::Float64 => Ok(FeatureDataType::Float64),
            ColumnDataType::Int8 => Ok(FeatureDataType::Int8),
            ColumnDataType::Int16 => Ok(FeatureDataType::Int16),
            ColumnDataType::Int32 => Ok(FeatureDataType::Int32),
            ColumnDataType::Int64 => Ok(FeatureDataType::Int64),
            ColumnDataType::UInt8 => Ok(FeatureDataType::UInt8),
            ColumnDataType::UInt16 => Ok(FeatureDataType::UInt16),
            ColumnDataType::UInt32 => Ok(FeatureDataType::UInt32),
            ColumnDataType::UInt64 => Ok(FeatureDataType::UInt64),
            ColumnDataType::Other => Err(
                EntroGdError::InvalidDataType {
                    message: "data type is not yet supported".to_owned(),
                },
            ),
        }
    }
}

/// How the pixels of a group are stored.
#[derive(Debug, Clone, Copy, PartialEq, Eq, Structural)]
pub enum ImageGroupingTransform {
    /// The channel bytes themselves.
    Raw,
    /// The first byte, then zigzag coded differences from it.
    ForFirstPixel,
    /// The least byte, then differences from it.
    ForMin,
}

impl ImageGroupingTransform {
    /// The number that stands for the transform in a file.
    pub open spec fn code(self) -> u8 {
        match self {
            ImageGroupingTransform::Raw => 0,
            ImageGroupingTransform::ForFirstPixel => 1,
            ImageGroupingTransform::ForMin => 2,
        }
    }

    /// The number that stands for the transform in a file.
    pub fn as_u8(self) -> (code: u8)
        ensures
            code == self.code(),
    {
        match self {
            ImageGroupingTransform::Raw => 0,
            ImageGroupingTransform::ForFirstPixel => 1,
            ImageGroupingTransform::ForMin => 2,
        }
    }

    /// The transform that a number in a file stands for, if it does.
    pub open spec fn of_code(value: u8) -> Option<ImageGroupingTransform> {
        if value == 0 {
            Some(ImageGroupingTransform::Raw)
        } else if value == 1 {
            Some(ImageGroupingTransform::ForFirstPixel)
        } else if value == 2 {
            Some(ImageGroupingTransform::ForMin)
        } else {
            None
        }
    }

    /// The transform that a number in a file stands for.
    pub fn from_u8(value: u8) -> (result: Result<ImageGroupingTransform, EntroGdError>)
        ensures
            match ImageGroupingTransform::of_code(value) {
                Some(transform) => result == Ok::<ImageGroupingTransform, EntroGdError>(transform),
                None => result matches Err(error) && error is InvalidMetadata,
            },
    {
        match value {
            0 => Ok(ImageGroupingTransform::Raw),
            1 => Ok(ImageGroupingTransform::ForFirstPixel),
            2 => Ok(ImageGroupingTransform::ForMin),
            _ => Err(
                EntroGdError::InvalidMetadata {
                    message: number_within(
                        "unsupported image grouping transform ",
                        value as usize,
                        " (expected 0, 1, or 2)",
                    ),
                },
            ),
        }
    }
}

/// How the colours of a pixel are stored.
#[derive(Debug, Clone, Copy, PartialEq, Eq, Structural)]
pub enum ImageColorModel {
    /// Red, green, blue.
    Rgb,
    /// Luma and two biased chroma channels, rounded.
    YCoCg,
    /// Luma and two wrapped and biased chroma channels, reversible.
    YCoCgR,
}

impl ImageColorModel {
    /// The number that stands for the colour model in a file.
    pub open spec fn code(self) -> u8 {
        match self {
            ImageColorModel::Rgb => 0,
            ImageColorModel::YCoCg => 1,
            ImageColorModel::YCoCgR => 2,
        }
    }

    /// The number that stands for the colour model in a file.
    pub fn as_u8(self) -> (code: u8)
        ensures
            code == self.code(),
    {
        match self {
            ImageColorModel::Rgb => 0,
            ImageColorModel::YCoCg => 1,
            ImageColorModel::YCoCgR => 2,
        }
    }

    /// The colour model that a number in a file stands for, if it does.
    pub open spec fn of_code(value: u8) -> Option<ImageColorModel> {
        if value == 0 {
            Some(ImageColorModel::Rgb)
        } else if value == 1 {
            Some(ImageColorModel::YCoCg)
        } else if value == 2 {
            Some(ImageColorModel::YCoCgR)
        } else {
            None
        }
    }

    /// The colour model that a number in a file stands for.
    pub fn from_u8(value: u8) -> (result: Result<ImageColorModel, EntroGdError>)
        ensures
            match ImageColorModel::of_code(value) {
                Some(model) => result == Ok::<ImageColorModel, EntroGdError>(model),
                None => result matches Err(error) && error is InvalidMetadata,
            },
    {
        match value {
            0 => Ok(ImageColorModel::Rgb),
            1 => Ok(ImageColorModel::YCoCg),
            2 => Ok(ImageColorModel::YCoCgR),
            _ => Err(
                EntroGdError::InvalidMetadata {
                    message: number_within(
                        "unsupported image color model ",
                        value as usize,
                        " (expected 0, 1, or 2)",
                    ),
                },
            ),
        }
    }
}

/// What is needed to turn rows back into an image.
#[derive(Debug, Clone, Copy, PartialEq, Eq, Structural)]
pub struct ImageReconstructionInfo {
    pub width: u32,
    pub height: u32,
    pub channels: u8,
    pub color_model: ImageColorModel,
    pub pixel_grouping: PixelGrouping,
    pub grouping_transform: ImageGroupingTransform,
    /// 0 for sRGB with linear alpha, 1 for all linear.
    pub colorspace: u8,
}

/// What is needed to turn rows back into a table or an image.
#[derive(Debug, PartialEq, Eq)]
pub enum BitDataReconstructionInfo {
    Tabular { column_names: Vec<String>, original_dtypes: Vec<ColumnDataType> },
    Image(ImageReconstructionInfo),
}

/// The content of reconstruction metadata.
pub enum ReconstructionView {
    Tabular { names: Seq<Seq<char>>, types: Seq<ColumnDataType> },
    Image(ImageReconstructionInfo),
}

/// The texts of a list of strings.
pub open spec fn texts(names: Seq<String>) -> Seq<Seq<char>> {
    Seq::new(names.len(), |i: int| names[i]@)
}

impl View for BitDataReconstructionInfo {
    type V = ReconstructionView;

    open spec fn view(&self) -> ReconstructionView {
        match *self {
            BitDataReconstructionInfo::Tabular { column_names, original_dtypes } => {
                ReconstructionView::Tabular {
                    names: texts(column_names@),
                    types: original_dtypes@,
                }
            },
            BitDataReconstructionInfo::Image(info) => ReconstructionView::Image(info),
        }
    }
}

pub(crate) fn copy_types(types: &Vec<ColumnDataType>) -> (copy: Vec<ColumnDataType>)
    ensures
        copy@ == types@,
{
    let mut copy: Vec<ColumnDataType> = Vec::new();
    let mut i: usize = 0;
    while i < types.len()
        invariant
            i <= types@.len(),
            copy@ == types@.take(i as int),
        decreases types@.len() - i,
    {
        copy.push(types[i]);
        assert(types@.take(i as int + 1) =~= types@.take(i as int).push(types@[i as int]));
        i += 1;
    }
    assert(types@.take(i as int) =~= types@);
    copy
}

pub(crate) fn copy_names(names: &Vec<String>) -> (copy: Vec<String>)
    ensures
        copy@ == names@,
{
    let mut copy: Vec<String> = Vec::new();
    let mut i: usize = 0;
    while i < names.len()
        invariant
            i <= names@.len(),
            copy@ == names@.take(i as int),
        decreases names@.len() - i,
    {
        copy.push(names[i].clone());
        assert(names@.take(i as int + 1) =~= names@.take(i as int).push(names@[i as int]));
        i += 1;
    }
    assert(names@.take(i as int) =~= names@);
    copy
}

pub(crate) fn copy_sizes(sizes: &Vec<usize>) -> (copy: Vec<usize>)
    ensures
        copy@ == sizes@,
{
    let mut copy: Vec<usize> = Vec::new();
    let mut i: usize = 0;
    while i < sizes.len()
        invariant
            i <= sizes@.len(),
            copy@ == sizes@.take(i as int),
        decreases sizes@.len() - i,
    {
        copy.push(sizes[i]);
        assert(sizes@.take(i as int + 1) =~= sizes@.take(i as int).push(sizes@[i as int]));
        i += 1;
    }
    assert(sizes@.take(i as int) =~= sizes@);
    copy
}

pub(crate) fn copy_features(features: &Vec<FeatureSpec>) -> (copy: Vec<FeatureSpec>)
    ensures
        copy@ == features@,
{
    let mut copy: Vec<FeatureSpec> = Vec::new();
    let mut i: usize = 0;
    while i < features.len()
        invariant
            i <= features@.len(),
            copy@ == features@.take(i as int),
        decreases features@.len() - i,
    {
        copy.push(features[i]);
        assert(features@.take(i as int + 1) =~= features@.take(i as int).push(features@[i as int]));
        i += 1;
    }
    assert(features@.take(i as int) =~= features@);
    copy
}

impl Clone for BitDataReconstructionInfo {
    fn clone(&self) -> (copy: BitDataReconstructionInfo)
        ensures
            copy@ == self@,
    {
        match self {
            BitDataReconstructionInfo::Tabular { column_names, original_dtypes } => {
                BitDataReconstructionInfo::Tabular {
                    column_names: copy_names(column_names),
                    original_dtypes: copy_types(original_dtypes),
                }
            },
            BitDataReconstructionInfo::Image(info) => BitDataReconstructionInfo::Image(*info),
        }
    }
}

/// The layout of rows, features first.
#[derive(Debug, PartialEq, Eq)]
pub struct BitDataCompressionInfo {
    pub features: Vec<FeatureSpec>,
    pub original_size_bits: usize,
    pub n_data_samples: usize,
    pub m_condensed_samples: Option<usize>,
    pub m_condensed_sample_weights: Option<Vec<usize>>,
    pub feature_offsets: Vec<usize>,
    pub chunk_size: usize,
    pub row_stride_bits: usize,
}

/// The metadata of a bit-packed dataset.
#[derive(Debug, PartialEq, Eq)]
pub struct BitDataInfo {
    pub compression: BitDataCompressionInfo,
    pub reconstruction: BitDataReconstructionInfo,
}

/// The content of the metadata of a dataset.
#[verifier::ext_equal]
pub struct InfoView {
    pub features: Seq<FeatureSpec>,
    pub original_size_bits: nat,
    pub row_stride: nat,
    pub weights: Option<Seq<usize>>,
    pub reconstruction: ReconstructionView,
}

/// The content of an optional list of weights.
pub open spec fn weights_view(weights: Option<Vec<usize>>) -> Option<Seq<usize>> {
    match weights {
        Some(list) => Some(list@),
        None => None,
    }
}

impl BitDataCompressionInfo {
    /// Whether offsets, widths and counts agree with the feature list.
    pub open spec fn valid(self) -> bool {
        &&& self.features@.len() > 0
        &&& self.feature_offsets@.len() == self.features@.len()
        &&& forall|i: int|
            0 <= i < self.features@.len() ==> #[trigger] self.feature_offsets@[i] == features_width(
                self.features@.take(i),
            )
        &&& self.chunk_size == features_width(self.features@)
        &&& self.chunk_size > 0
        &&& self.row_stride_bits >= self.chunk_size
        &&& self.n_data_samples == self.original_size_bits as int / self.chunk_size as int
        &&& match self.m_condensed_sample_weights {
            Some(weights) => self.m_condensed_samples == Some(weights@.len() as usize)
                && weights@.len() <= usize::MAX,
            None => self.m_condensed_samples is None,
        }
    }
}

impl BitDataInfo {
    /// Whether the metadata is consistent with itself.
    pub open spec fn valid(self) -> bool {
        self.compression.valid()
    }
}

impl View for BitDataInfo {
    type V = InfoView;

    open spec fn view(&self) -> InfoView {
        InfoView {
            features: self.compression.features@,
            original_size_bits: self.compression.original_size_bits as nat,
            row_stride: self.compression.row_stride_bits as nat,
            weights: weights_view(self.compression.m_condensed_sample_weights),
            reconstruction: self.reconstruction@,
        }
    }
}

impl Clone for BitDataInfo {
    fn clone(&self) -> (copy: BitDataInfo)
        ensures
            copy@ == self@,
            self.valid() ==> copy.valid(),
            copy.compression.chunk_size == self.compression.chunk_size,
    {
        let weights: Option<Vec<usize>> = match &self.compression.m_condensed_sample_weights {
            Some(list) => Some(copy_sizes(list)),
            None => None,
        };
        BitDataInfo {
            compression: BitDataCompressionInfo {
                features: copy_features(&self.compression.features),
                original_size_bits: self.compression.original_size_bits,
                n_data_samples: self.compression.n_data_samples,
                m_condensed_samples: self.compression.m_condensed_samples,
                m_condensed_sample_weights: weights,
                feature_offsets: copy_sizes(&self.compression.feature_offsets),
                chunk_size: self.compression.chunk_size,
                row_stride_bits: self.compression.row_stride_bits,
            },
            reconstruction: self.reconstruction.clone(),
        }
    }
}

impl BitDataInfo {
    /// Metadata of a table whose columns have no names.
    pub fn new(features: Vec<FeatureSpec>, original_size_bits: usize) -> (result: Result<
        BitDataInfo,
        EntroGdError,
    >)
        requires
            features@.len() > 0 ==> 0 < features_width(features@) <= usize::MAX,
        ensures
            result is Ok <==> features@.len() > 0,
            result matches Ok(info) ==> info.valid() && info@ == (InfoView {
                features: features@,
                original_size_bits: original_size_bits as nat,
                row_stride: features_width(features@),
                weights: None,
                reconstruction: ReconstructionView::Tabular {
                    names: Seq::empty(),
                    types: Seq::empty(),
                },
            }),
            result matches Err(error) ==> error is InvalidFeatureSpec,
    {
        let unnamed = BitDataReconstructionInfo::Tabular {
            column_names: Vec::new(),
            original_dtypes: Vec::new(),
        };
        proof {
            assert(texts(Seq::<String>::empty()) =~= Seq::<Seq<char>>::empty());
        }
        BitDataInfo::new_with_reconstruction_info(features, original_size_bits, unnamed)
    }

    /// Metadata of rows made of the given features, one behind the other.
    pub fn new_with_reconstruction_info(
        features: Vec<FeatureSpec>,
        original_size_bits: usize,
        reconstruction: BitDataReconstructionInfo,
    ) -> (result: Result<BitDataInfo, EntroGdError>)
        requires
            features@.len() > 0 ==> 0 < features_width(features@) <= usize::MAX,
        ensures
            result is Ok <==> features@.len() > 0,
            result matches Ok(info) ==> info.valid() && info@ == (InfoView {
                features: features@,
                original_size_bits: original_size_bits as nat,
                row_stride: features_width(features@),
                weights: None,
                reconstruction: reconstruction@,
            }),
            result matches Err(error) ==> error is InvalidFeatureSpec,
    {
        if features.len() == 0 {
            return Err(bad_features("features is empty"));
        }
        let mut offsets: Vec<usize> = Vec::new();
        let mut running: usize = 0;
        let mut i: usize = 0;
        while i < features.len()
            invariant
                i <= features@.len(),
                offsets@.len() == i,
                running == features_width(features@.take(i as int)),
                features_width(features@) <= usize::MAX,
                forall|k: int|
                    0 <= k < i ==> #[trigger] offsets@[k] == features_width(features@.take(k)),
            decreases features@.len() - i,
        {
            proof {
                features_width_step(features@, i as int);
                features_width_monotonic(features@, i as int + 1, features@.len() as int);
                assert(features@.take(features@.len() as int) =~= features@);
            }
            offsets.push(running);
            running += features[i].data_type.bits();
            i += 1;
        }
        assert(features@.take(i as int) =~= features@);
        Ok(
            BitDataInfo {
                compression: BitDataCompressionInfo {
                    features,
                    original_size_bits,
                    n_data_samples: original_size_bits / running,
                    m_condensed_samples: None,
                    m_condensed_sample_weights: None,
                    feature_offsets: offsets,
                    chunk_size: running,
                    row_stride_bits: running,
                },
                reconstruction,
            },
        )
    }

    /// The features of a row.
    pub fn features(&self) -> (features: &Vec<FeatureSpec>)
        ensures
            features@ == self@.features,
    {
        &self.compression.features
    }

    /// The schema entry of one feature.
    pub fn feature_spec(&self, feature_idx: usize) -> (spec: FeatureSpec)
        requires
            feature_idx < self@.features.len(),
        ensures
            spec == self@.features[feature_idx as int],
    {
        self.compression.features[feature_idx]
    }

    /// The bits of all original rows together.
    pub fn original_size_bits(&self) -> (bits: usize)
        ensures
            bits == self@.original_size_bits,
    {
        self.compression.original_size_bits
    }

    /// The number of original rows.
    pub fn n_data_samples(&self) -> (samples: usize)
        requires
            self.valid(),
        ensures
            samples == self@.original_size_bits as int / features_width(self@.features) as int,
    {
        self.compression.n_data_samples
    }

    /// The number of condensed samples, where there are any.
    pub fn m_condensed_samples(&self) -> (samples: Option<usize>)
        requires
            self.valid(),
        ensures
            samples == (match self@.weights {
                Some(weights) => Some(weights.len() as usize),
                None => None,
            }),
    {
        self.compression.m_condensed_samples
    }

    /// The weights of the condensed samples, where there are any.
    pub fn m_condensed_sample_weights(&self) -> (weights: &Option<Vec<usize>>)
        ensures
            weights_view(*weights) == self@.weights,
    {
        &self.compression.m_condensed_sample_weights
    }

    /// Replaces the weights of the condensed samples.
    pub fn set_condensed_sample_weights(&mut self, weights: Option<Vec<usize>>)
        requires
            old(self).valid(),
        ensures
            final(self).valid(),
            final(self)@ == (InfoView { weights: weights_view(weights), ..old(self)@ }),
            final(self).compression.chunk_size == old(self).compression.chunk_size,
    {
        let count: Option<usize> = match &weights {
            Some(list) => Some(list.len()),
            None => None,
        };
        self.compression.m_condensed_samples = count;
        self.compression.m_condensed_sample_weights = weights;
    }

    /// The number of features of a row.
    pub fn num_features(&self) -> (count: usize)
        ensures
            count == self@.features.len(),
    {
        self.compression.features.len()
    }

    /// The bits of a row.
    pub fn chunk_size(&self) -> (bits: usize)
        requires
            self.valid(),
        ensures
            bits == features_width(self@.features),
            bits > 0,
    {
        self.compression.chunk_size
    }

    /// The bits that a row takes in storage.
    pub fn row_stride(&self) -> (bits: usize)
        ensures
            bits == self@.row_stride,
    {
        self.compression.row_stride_bits
    }

    /// Whether rows carry padding.
    pub fn is_row_padded_to_word(&self) -> (padded: bool)
        requires
            self.valid(),
        ensures
            padded == (self@.row_stride > features_width(self@.features)),
    {
        self.compression.row_stride_bits > self.compression.chunk_size
    }

    /// The bits of one feature.
    pub fn feature_bits(&self, feature_idx: usize) -> (bits: usize)
        requires
            feature_idx < self@.features.len(),
        ensures
            bits == self@.features[feature_idx as int].data_type.width(),
    {
        self.compression.features[feature_idx].data_type.bits()
    }

    /// Where one feature starts inside a row.
    pub fn feature_offset(&self, feature_idx: usize) -> (offset: usize)
        requires
            self.valid(),
            feature_idx < self@.features.len(),
        ensures
            offset == features_width(self@.features.take(feature_idx as int)),
    {
        self.compression.feature_offsets[feature_idx]
    }

    /// The feature that holds a bit of the row.
    pub fn feature_index_for_bit(&self, bit_pos: usize) -> (index: Option<usize>)
        requires
            self.valid(),
        ensures
            index is Some <==> bit_pos < features_width(self@.features),
            index matches Some(i) ==> i < self@.features.len() && features_width(
                self@.features.take(i as int),
            ) <= bit_pos < features_width(self@.features.take(i as int + 1)),
    {
        if bit_pos >= self.compression.chunk_size {
            return None;
        }
        let ghost features = self.compression.features@;
        let mut i: usize = self.compression.feature_offsets.len();
        assert(features.take(features.len() as int) =~= features);
        while i > 0
            invariant
                self.valid(),
                features == self.compression.features@,
                i <= features.len(),
                bit_pos < self.compression.chunk_size,
                bit_pos < features_width(features.take(i as int)),
            decreases i,
        {
            i -= 1;
            if self.compression.feature_offsets[i] <= bit_pos {
                return Some(i);
            }
        }
        assert(features.take(0) =~= Seq::empty());
        None
    }

    /// The same layout with another amount of data.
    pub fn with_original_size_bits(&self, original_size_bits: usize) -> (info: BitDataInfo)
        requires
            self.valid(),
        ensures
            info.valid(),
            info@ == (InfoView { original_size_bits: original_size_bits as nat, ..self@ }),
    {
        self.with_original_size_bits_and_row_stride(original_size_bits, self.row_stride())
    }

    /// The same features with another amount of data and another storage width of a row.
    pub fn with_original_size_bits_and_row_stride(
        &self,
        original_size_bits: usize,
        row_stride_bits: usize,
    ) -> (info: BitDataInfo)
        requires
            self.valid(),
        ensures
            info.valid(),
            info@ == (InfoView {
                original_size_bits: original_size_bits as nat,
                row_stride: if row_stride_bits as nat >= features_width(self@.features) {
                    row_stride_bits as nat
                } else {
                    features_width(self@.features)
                },
                ..self@
            }),
    {
        let mut info = self.clone();
        info.compression.original_size_bits = original_size_bits;
        info.compression.n_data_samples = original_size_bits / info.compression.chunk_size;
        info.compression.row_stride_bits = if row_stride_bits >= info.compression.chunk_size {
            row_stride_bits
        } else {
            info.compression.chunk_size
        };
        info
    }
}

} // verus!
