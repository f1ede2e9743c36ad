//! Profiles of compression pipelines.
use vstd::prelude::*;
use vstd::std_specs::convert::FromSpec;

use crate::data::{ImageColorModel, ImageGroupingTransform};
use crate::error::EntroGdError;
use crate::image_preprocessor::builder::ImageColorSpace;
use crate::pipeline_profiles::choices::{
    ConfigEncodeImpl, ConfigFloatScalingMode, ConfigFloatStorage, ConfigImageColorModel,
    ConfigImageColorSpace, ConfigImageGroupingTransform, ConfigMissingValuePolicy,
    ConfigSelectBasesImpl, EncodeImpl, FloatStorage, MissingValuePolicy, SelectBasesImpl,
};
use crate::tabular_processor::columns::{FloatScalingMode, PreprocessOptions, MAX_DECIMAL_SCALE};
use crate::text::text_within;

verus! {

/// How tables are compressed.
#[derive(Debug, PartialEq, Eq)]
pub struct CsvPipelineProfile {
    pub name: String,
    pub has_headers: bool,
    pub float_storage: FloatStorage,
    pub missing_value_policy: MissingValuePolicy,
    pub preprocess: PreprocessOptions,
    /// The greatest number of condensed samples.
    pub m_max: usize,
    /// How many choices of base bits in a row may bring nothing.
    pub patience: usize,
    pub select_impl: SelectBasesImpl,
    pub encode_impl: EncodeImpl,
}

/// The content of a profile for tables.
#[verifier::ext_equal]
pub struct CsvProfileView {
    pub name: Seq<char>,
    pub has_headers: bool,
    pub float_storage: FloatStorage,
    pub missing_value_policy: MissingValuePolicy,
    pub preprocess: PreprocessOptions,
    pub m_max: int,
    pub patience: int,
    pub select_impl: SelectBasesImpl,
    pub encode_impl: EncodeImpl,
}

impl View for CsvPipelineProfile {
    type V = CsvProfileView;

    open spec fn view(&self) -> CsvProfileView {
        CsvProfileView {
            name: self.name@,
            has_headers: self.has_headers,
            float_storage: self.float_storage,
            missing_value_policy: self.missing_value_policy,
            preprocess: self.preprocess,
            m_max: self.m_max as int,
            patience: self.patience as int,
            select_impl: self.select_impl,
            encode_impl: self.encode_impl,
        }
    }
}

/// How the pixels of images are stored.
#[derive(Debug, Clone, Copy, PartialEq, Eq, Structural)]
pub struct ImageBuildConfig {
    pub colorspace: ImageColorSpace,
    pub color_model: ImageColorModel,
    pub pixel_grouping: u32,
    pub grouping_transform: ImageGroupingTransform,
}

/// How images are compressed.
#[derive(Debug, PartialEq, Eq)]
pub struct ImagePipelineProfile {
    pub name: String,
    pub build: ImageBuildConfig,
    /// The greatest number of condensed samples.
    pub m_max: usize,
    /// How many choices of base bits in a row may bring nothing.
    pub patience: usize,
    pub select_impl: SelectBasesImpl,
    pub encode_impl: EncodeImpl,
}

/// The content of a profile for images.
#[verifier::ext_equal]
pub struct ImageProfileView {
    pub name: Seq<char>,
    pub build: ImageBuildConfig,
    pub m_max: int,
    pub patience: int,
    pub select_impl: SelectBasesImpl,
    pub encode_impl: EncodeImpl,
}

impl View for ImagePipelineProfile {
    type V = ImageProfileView;

    open spec fn view(&self) -> ImageProfileView {
        ImageProfileView {
            name: self.name@,
            build: self.build,
            m_max: self.m_max as int,
            patience: self.patience as int,
            select_impl: self.select_impl,
            encode_impl: self.encode_impl,
        }
    }
}

/// The content of profiles for tables.
pub open spec fn csv_views(profiles: Seq<CsvPipelineProfile>) -> Seq<CsvProfileView> {
    Seq::new(profiles.len(), |k: int| profiles[k]@)
}

/// The content of profiles for images.
pub open spec fn image_views(profiles: Seq<ImagePipelineProfile>) -> Seq<ImageProfileView> {
    Seq::new(profiles.len(), |k: int| profiles[k]@)
}

/// Profiles for tables and for images.
#[derive(Debug, PartialEq, Eq)]
pub struct PipelineProfileSet {
    pub csv: Vec<CsvPipelineProfile>,
    pub image: Vec<ImagePipelineProfile>,
}

/// A profile for tables with headers, floats of 32 bits and no missing values.
pub open spec fn plain_csv(
    name: Seq<char>,
    m_max: int,
    patience: int,
    select_impl: SelectBasesImpl,
    encode_impl: EncodeImpl,
) -> CsvProfileView {
    CsvProfileView {
        name,
        has_headers: true,
        float_storage: FloatStorage::F32,
        missing_value_policy: MissingValuePolicy::Error,
        preprocess: PreprocessOptions {
            float_scaling: FloatScalingMode::ScaledOffsetSignedInt,
            decimal_scale: MAX_DECIMAL_SCALE,
            integer_zero_normalization: true,
        },
        m_max,
        patience,
        select_impl,
        encode_impl,
    }
}

/// The profiles for tables where none is configured.
pub open spec fn default_csv() -> Seq<CsvProfileView> {
    seq![
        plain_csv("csv_fast"@, 0, 6, SelectBasesImpl::OptimizedV3, EncodeImpl::Optimized),
        plain_csv("csv_balanced"@, 25, 10, SelectBasesImpl::OptimizedV2, EncodeImpl::Rle),
        plain_csv("csv_ratio"@, 75, 20, SelectBasesImpl::OptimizedV1, EncodeImpl::Rle),
    ]
}

/// A profile for images in the usual colour space.
pub open spec fn plain_image(
    name: Seq<char>,
    color_model: ImageColorModel,
    pixel_grouping: u32,
    grouping_transform: ImageGroupingTransform,
    m_max: int,
    patience: int,
    select_impl: SelectBasesImpl,
    encode_impl: EncodeImpl,
) -> ImageProfileView {
    ImageProfileView {
        name,
        build: ImageBuildConfig {
            colorspace: ImageColorSpace::SrgbWithLinearAlpha,
            color_model,
            pixel_grouping,
            grouping_transform,
        },
        m_max,
        patience,
        select_impl,
        encode_impl,
    }
}

/// The profiles for images where none is configured.
pub open spec fn default_image() -> Seq<ImageProfileView> {
    seq![
        plain_image(
            "img_fast"@,
            ImageColorModel::Rgb,
            1,
            ImageGroupingTransform::Raw,
            0,
            6,
            SelectBasesImpl::OptimizedV3,
            EncodeImpl::Optimized,
        ),
        plain_image(
            "img_balanced"@,
            ImageColorModel::YCoCgR,
            1,
            ImageGroupingTransform::ForFirstPixel,
            25,
            10,
            SelectBasesImpl::OptimizedV2,
            EncodeImpl::Rle,
        ),
        plain_image(
            "img_ratio"@,
            ImageColorModel::YCoCgR,
            2,
            ImageGroupingTransform::ForMin,
            75,
            20,
            SelectBasesImpl::OptimizedV1,
            EncodeImpl::Huffman,
        ),
    ]
}

fn csv_profile(
    name: &str,
    m_max: usize,
    patience: usize,
    select_impl: SelectBasesImpl,
    encode_impl: EncodeImpl,
) -> (profile: CsvPipelineProfile)
    ensures
        profile@ == plain_csv(name@, m_max as int, patience as int, select_impl, encode_impl),
{
    CsvPipelineProfile {
        name: name.to_owned(),
        has_headers: true,
        float_storage: FloatStorage::F32,
        missing_value_policy: MissingValuePolicy::Error,
        preprocess: PreprocessOptions::default(),
        m_max,
        patience,
        select_impl,
        encode_impl,
    }
}

fn image_profile(
    name: &str,
    color_model: ImageColorModel,
    pixel_grouping: u32,
    grouping_transform: ImageGroupingTransform,
    m_max: usize,
    patience: usize,
    select_impl: SelectBasesImpl,
    encode_impl: EncodeImpl,
) -> (profile: ImagePipelineProfile)
    ensures
        profile@ == plain_image(
            name@,
            color_model,
            pixel_grouping,
            grouping_transform,
            m_max as int,
            patience as int,
            select_impl,
            encode_impl,
        ),
{
    ImagePipelineProfile {
        name: name.to_owned(),
        build: ImageBuildConfig {
            colorspace: ImageColorSpace::SrgbWithLinearAlpha,
            color_model,
            pixel_grouping,
            grouping_transform,
        },
        m_max,
        patience,
        select_impl,
        encode_impl,
    }
}

impl PipelineProfileSet {
    /// The profiles where none is configured.
    pub fn default_profiles() -> (profiles: PipelineProfileSet)
        ensures
            csv_views(profiles.csv@) == default_csv(),
            image_views(profiles.image@) == default_image(),
    {
        let mut csv: Vec<CsvPipelineProfile> = Vec::new();
        csv.push(
            csv_profile("csv_fast", 0, 6, SelectBasesImpl::OptimizedV3, EncodeImpl::Optimized),
        );
        csv.push(
            csv_profile("csv_balanced", 25, 10, SelectBasesImpl::OptimizedV2, EncodeImpl::Rle),
        );
        csv.push(csv_profile("csv_ratio", 75, 20, SelectBasesImpl::OptimizedV1, EncodeImpl::Rle));
        let mut image: Vec<ImagePipelineProfile> = Vec::new();
        image.push(
            image_profile(
                "img_fast",
                ImageColorModel::Rgb,
                1,
                ImageGroupingTransform::Raw,
                0,
                6,
                SelectBasesImpl::OptimizedV3,
                EncodeImpl::Optimized,
            ),
        );
        image.push(
            image_profile(
                "img_balanced",
                ImageColorModel::YCoCgR,
                1,
                ImageGroupingTransform::ForFirstPixel,
                25,
                10,
                SelectBasesImpl::OptimizedV2,
                EncodeImpl::Rle,
            ),
        );
        image.push(
            image_profile(
                "img_ratio",
                ImageColorModel::YCoCgR,
                2,
                ImageGroupingTransform::ForMin,
                75,
                20,
                SelectBasesImpl::OptimizedV1,
                EncodeImpl::Huffman,
            ),
        );
        assert(csv_views(csv@) =~= default_csv());
        assert(image_views(image@) =~= default_image());
        PipelineProfileSet { csv, image }
    }
}

/// How columns are prepared, as a configuration says it.
#[derive(Debug, Clone, Copy, PartialEq, Eq)]
pub struct CsvPreprocessConfig {
    pub float_scaling: Option<ConfigFloatScalingMode>,
    pub max_decimal_scale: Option<u8>,
    pub integer_zero_normalization: Option<bool>,
}

/// A profile for tables, as a configuration gives it.
#[derive(Debug, PartialEq, Eq)]
pub struct CsvPipelineProfileConfig {
    pub name: String,
    pub has_headers: Option<bool>,
    pub float_storage: Option<ConfigFloatStorage>,
    pub missing_value_policy: Option<ConfigMissingValuePolicy>,
    pub preprocess: Option<CsvPreprocessConfig>,
    pub m_max: usize,
    pub patience: usize,
    pub select_impl: ConfigSelectBasesImpl,
    pub encode_impl: ConfigEncodeImpl,
}

/// How the pixels of images are stored, as a configuration says it.
#[derive(Debug, Clone, Copy, PartialEq, Eq, Structural)]
pub struct ImageBuildConfigSerializable {
    pub colorspace: ConfigImageColorSpace,
    pub color_model: ConfigImageColorModel,
    pub pixel_grouping: u32,
    pub grouping_transform: ConfigImageGroupingTransform,
}

/// A profile for images, as a configuration gives it.
#[derive(Debug, PartialEq, Eq)]
pub struct ImagePipelineProfileConfig {
    pub name: String,
    pub build: ImageBuildConfigSerializable,
    pub m_max: usize,
    pub patience: usize,
    pub select_impl: ConfigSelectBasesImpl,
    pub encode_impl: ConfigEncodeImpl,
}

/// How columns are prepared, with the usual choice wherever a configuration makes none.
pub open spec fn preprocess_of(config: Option<CsvPreprocessConfig>) -> PreprocessOptions {
    match config {
        Some(config) => PreprocessOptions {
            float_scaling: match config.float_scaling {
                Some(mode) => FloatScalingMode::from_spec(mode),
                None => FloatScalingMode::ScaledOffsetSignedInt,
            },
            decimal_scale: match config.max_decimal_scale {
                Some(scale) => scale,
                None => MAX_DECIMAL_SCALE,
            },
            integer_zero_normalization: match config.integer_zero_normalization {
                Some(normalize) => normalize,
                None => true,
            },
        },
        None => PreprocessOptions {
            float_scaling: FloatScalingMode::ScaledOffsetSignedInt,
            decimal_scale: MAX_DECIMAL_SCALE,
            integer_zero_normalization: true,
        },
    }
}

impl CsvPipelineProfileConfig {
    /// The profile that a configuration asks for.
    pub open spec fn profile(self) -> CsvProfileView {
        CsvProfileView {
            name: self.name@,
            has_headers: match self.has_headers {
                Some(has_headers) => has_headers,
                None => true,
            },
            float_storage: match self.float_storage {
                Some(storage) => FloatStorage::from_spec(storage),
                None => FloatStorage::F32,
            },
            missing_value_policy: match self.missing_value_policy {
                Some(policy) => MissingValuePolicy::from_spec(policy),
                None => MissingValuePolicy::Error,
            },
            preprocess: preprocess_of(self.preprocess),
            m_max: self.m_max as int,
            patience: self.patience as int,
            select_impl: SelectBasesImpl::from_spec(self.select_impl),
            encode_impl: EncodeImpl::from_spec(self.encode_impl),
        }
    }
}

impl ImagePipelineProfileConfig {
    /// The profile that a configuration asks for.
    pub open spec fn profile(self) -> ImageProfileView {
        ImageProfileView {
            name: self.name@,
            build: ImageBuildConfig {
                colorspace: ImageColorSpace::from_spec(self.build.colorspace),
                color_model: ImageColorModel::from_spec(self.build.color_model),
                pixel_grouping: self.build.pixel_grouping,
                grouping_transform: ImageGroupingTransform::from_spec(
                    self.build.grouping_transform,
                ),
            },
            m_max: self.m_max as int,
            patience: self.patience as int,
            select_impl: SelectBasesImpl::from_spec(self.select_impl),
            encode_impl: EncodeImpl::from_spec(self.encode_impl),
        }
    }
}

/// How columns are prepared.
fn resolve_preprocess(config: &Option<CsvPreprocessConfig>) -> (options: PreprocessOptions)
    ensures
        options == preprocess_of(*config),
{
    let mut options = PreprocessOptions::default();
    if let Some(config) = config {
        if let Some(mode) = config.float_scaling {
            options.float_scaling = FloatScalingMode::from(mode);
        }
        if let Some(scale) = config.max_decimal_scale {
            options.decimal_scale = scale;
        }
        if let Some(normalize) = config.integer_zero_normalization {
            options.integer_zero_normalization = normalize;
        }
    }
    options
}

impl CsvPipelineProfile {
    /// The profile that a configuration asks for. Tables cannot be encoded with prefix codes.
    pub fn from_config(config: &CsvPipelineProfileConfig) -> (result: Result<
        CsvPipelineProfile,
        EntroGdError,
    >)
        ensures
            result is Ok <==> config.encode_impl != ConfigEncodeImpl::Huffman,
            result matches Ok(profile) ==> profile@ == config.profile(),
            result matches Err(error) ==> error is InvalidMetadata,
    {
        if config.encode_impl == ConfigEncodeImpl::Huffman {
            return Err(
                EntroGdError::InvalidMetadata {
                    message: text_within(
                        "CSV profile '",
                        config.name.as_str(),
                        "' uses Huffman, which is currently disabled for CSV",
                    ),
                },
            );
        }
        let has_headers: bool = match config.has_headers {
            Some(has_headers) => has_headers,
            None => true,
        };
        let float_storage: FloatStorage = match config.float_storage {
            Some(storage) => FloatStorage::from(storage),
            None => FloatStorage::F32,
        };
        let missing_value_policy: MissingValuePolicy = match config.missing_value_policy {
            Some(policy) => MissingValuePolicy::from(policy),
            None => MissingValuePolicy::Error,
        };
        Ok(
            CsvPipelineProfile {
                name: config.name.clone(),
                has_headers,
                float_storage,
                missing_value_policy,
                preprocess: resolve_preprocess(&config.preprocess),
                m_max: config.m_max,
                patience: config.patience,
                select_impl: SelectBasesImpl::from(config.select_impl),
                encode_impl: EncodeImpl::from(config.encode_impl),
            },
        )
    }
}

impl ImagePipelineProfile {
    /// The profile that a configuration asks for.
    pub fn from_config(config: &ImagePipelineProfileConfig) -> (result: Result<
        ImagePipelineProfile,
        EntroGdError,
    >)
        ensures
            result is Ok <==> config.build.pixel_grouping != 0,
            result matches Ok(profile) ==> profile@ == config.profile(),
            result matches Err(error) ==> error is InvalidMetadata,
    {
        if config.build.pixel_grouping == 0 {
            return Err(
                EntroGdError::InvalidMetadata {
                    message: text_within(
                        "image profile '",
                        config.name.as_str(),
                        "' has invalid pixel_grouping=0",
                    ),
                },
            );
        }
        Ok(
            ImagePipelineProfile {
                name: config.name.clone(),
                build: ImageBuildConfig {
                    colorspace: ImageColorSpace::from(config.build.colorspace),
                    color_model: ImageColorModel::from(config.build.color_model),
                    pixel_grouping: config.build.pixel_grouping,
                    grouping_transform: ImageGroupingTransform::from(
                        config.build.grouping_transform,
                    ),
                },
                m_max: config.m_max,
                patience: config.patience,
                select_impl: SelectBasesImpl::from(config.select_impl),
                encode_impl: EncodeImpl::from(config.encode_impl),
            },
        )
    }
}

} // verus!
