//! Groups of profiles, one for each choice of settings.
use vstd::prelude::*;
use vstd::std_specs::convert::FromSpec;

use crate::data::{ImageColorModel, ImageGroupingTransform};
use crate::error::EntroGdError;
use crate::image_preprocessor::builder::ImageColorSpace;
use crate::pipeline_profiles::choices::{
    ConfigEncodeImpl, ConfigFloatScalingMode, ConfigFloatStorage, ConfigImageColorModel,
    ConfigImageColorSpace, ConfigImageGroupingTransform, ConfigMissingValuePolicy,
    ConfigSelectBasesImpl, EncodeImpl, FloatStorage, MissingValuePolicy, SelectBasesImpl,
};
use crate::pipeline_profiles::combinations::{choice_at, for_each_combination, inside, product};
use crate::pipeline_profiles::profiles::{
    csv_views, image_views, CsvPipelineProfile, CsvProfileView, ImageBuildConfig,
    ImagePipelineProfile, ImageProfileView,
};
use crate::pipeline_profiles::sweeps::{
    expand_u32_sweep, expand_u8_sweep, expand_usize_sweep, u32_numbers, u32_sweep, u8_numbers,
    u8_sweep, usize_numbers, usize_sweep, IntegerSweepU32, IntegerSweepU8, IntegerSweepUsize,
};
use crate::tabular_processor::columns::{FloatScalingMode, PreprocessOptions};
use crate::text::{
    append_labelled, append_numbered, append_text, append_three_digits, decimal, text_within,
    three_digits,
};

verus! {

/// How columns are prepared, with several choices for each setting.
#[derive(Debug, PartialEq, Eq)]
pub struct CsvPreprocessSweepConfig {
    pub float_scaling: Option<Vec<ConfigFloatScalingMode>>,
    pub max_decimal_scale: Option<IntegerSweepU8>,
    pub integer_zero_normalization: Option<Vec<bool>>,
}

/// A group of profiles for tables.
#[derive(Debug, PartialEq, Eq)]
pub struct CsvProfileGroupConfig {
    pub name: String,
    pub has_headers: Option<Vec<bool>>,
    pub float_storage: Option<Vec<ConfigFloatStorage>>,
    pub missing_value_policy: Option<Vec<ConfigMissingValuePolicy>>,
    pub preprocess: Option<CsvPreprocessSweepConfig>,
    pub m_max: Option<IntegerSweepUsize>,
    pub patience: Option<IntegerSweepUsize>,
    pub select_impl: Option<Vec<ConfigSelectBasesImpl>>,
    pub encode_impl: Option<Vec<ConfigEncodeImpl>>,
}

/// How the pixels of images are stored, with several choices for each setting.
#[derive(Debug, PartialEq, Eq)]
pub struct ImageBuildSweepConfig {
    pub colorspace: Option<Vec<ConfigImageColorSpace>>,
    pub color_model: Option<Vec<ConfigImageColorModel>>,
    pub pixel_grouping: Option<IntegerSweepU32>,
    pub grouping_transform: Option<Vec<ConfigImageGroupingTransform>>,
}

/// A group of profiles for images.
#[derive(Debug, PartialEq, Eq)]
pub struct ImageProfileGroupConfig {
    pub name: String,
    pub build: Option<ImageBuildSweepConfig>,
    pub m_max: Option<IntegerSweepUsize>,
    pub patience: Option<IntegerSweepUsize>,
    pub select_impl: Option<Vec<ConfigSelectBasesImpl>>,
    pub encode_impl: Option<Vec<ConfigEncodeImpl>>,
}

/// A list, or the default as its only entry.
pub open spec fn list_of<T>(list: Option<Vec<T>>, default_value: T) -> Seq<T> {
    match list {
        Some(values) => values@,
        None => seq![default_value],
    }
}

/// A list, or the default as its only entry.
fn list_or<T: Copy>(list: &Option<Vec<T>>, default_value: T) -> (values: Vec<T>)
    ensures
        values@ == list_of(*list, default_value),
{
    let mut values: Vec<T> = Vec::new();
    match list {
        Some(given) => {
            let mut i: usize = 0;
            while i < given.len()
                invariant
                    i <= given@.len(),
                    values@ == given@.take(i as int),
                decreases given@.len() - i,
            {
                values.push(given[i]);
                assert(given@.take(i as int + 1) =~= given@.take(i as int).push(given@[i as int]));
                i += 1;
            }
            assert(given@.take(i as int) =~= given@);
        },
        None => {
            values.push(default_value);
            assert(values@ =~= seq![default_value]);
        },
    }
    values
}

/// The choices of a group of profiles for tables.
pub struct CsvAxesView {
    pub has_headers: Seq<bool>,
    pub float_storage: Seq<ConfigFloatStorage>,
    pub missing_value_policy: Seq<ConfigMissingValuePolicy>,
    pub float_scaling: Seq<ConfigFloatScalingMode>,
    pub decimal_scale: Seq<int>,
    pub integer_zero_normalization: Seq<bool>,
    pub m_max: Seq<int>,
    pub patience: Seq<int>,
    pub select_impl: Seq<ConfigSelectBasesImpl>,
    pub encode_impl: Seq<ConfigEncodeImpl>,
}

/// The choices of a group of profiles for tables.
struct CsvAxes {
    has_headers: Vec<bool>,
    float_storage: Vec<ConfigFloatStorage>,
    missing_value_policy: Vec<ConfigMissingValuePolicy>,
    float_scaling: Vec<ConfigFloatScalingMode>,
    decimal_scale: Vec<u8>,
    integer_zero_normalization: Vec<bool>,
    m_max: Vec<usize>,
    patience: Vec<usize>,
    select_impl: Vec<ConfigSelectBasesImpl>,
    encode_impl: Vec<ConfigEncodeImpl>,
}

impl View for CsvAxes {
    type V = CsvAxesView;

    closed spec fn view(&self) -> CsvAxesView {
        CsvAxesView {
            has_headers: self.has_headers@,
            float_storage: self.float_storage@,
            missing_value_policy: self.missing_value_policy@,
            float_scaling: self.float_scaling@,
            decimal_scale: u8_numbers(self.decimal_scale@),
            integer_zero_normalization: self.integer_zero_normalization@,
            m_max: usize_numbers(self.m_max@),
            patience: usize_numbers(self.patience@),
            select_impl: self.select_impl@,
            encode_impl: self.encode_impl@,
        }
    }
}

impl CsvAxesView {
    /// The number of choices for each setting.
    pub open spec fn lengths(self) -> Seq<usize> {
        seq![
            self.has_headers.len() as usize,
            self.float_storage.len() as usize,
            self.missing_value_policy.len() as usize,
            self.float_scaling.len() as usize,
            self.decimal_scale.len() as usize,
            self.integer_zero_normalization.len() as usize,
            self.m_max.len() as usize,
            self.patience.len() as usize,
            self.select_impl.len() as usize,
            self.encode_impl.len() as usize,
        ]
    }

    /// Profile number `k` of the group.
    pub open spec fn profile(self, name: Seq<char>, k: int) -> CsvProfileView {
        let at = choice_at(self.lengths(), k);
        let select = self.select_impl[at[8] as int];
        let encode = self.encode_impl[at[9] as int];
        let m_max = self.m_max[at[6] as int];
        let patience = self.patience[at[7] as int];
        CsvProfileView {
            name: name + "__"@ + three_digits(k as nat) + "_m"@ + decimal(m_max as nat) + "_p"@
                + decimal(patience as nat) + "_sel"@ + select.label() + "_enc"@ + encode.label(),
            has_headers: self.has_headers[at[0] as int],
            float_storage: FloatStorage::from_spec(self.float_storage[at[1] as int]),
            missing_value_policy: MissingValuePolicy::from_spec(
                self.missing_value_policy[at[2] as int],
            ),
            preprocess: PreprocessOptions {
                float_scaling: FloatScalingMode::from_spec(self.float_scaling[at[3] as int]),
                decimal_scale: self.decimal_scale[at[4] as int] as u8,
                integer_zero_normalization: self.integer_zero_normalization[at[5] as int],
            },
            m_max,
            patience,
            select_impl: SelectBasesImpl::from_spec(select),
            encode_impl: EncodeImpl::from_spec(encode),
        }
    }
}

impl CsvProfileGroupConfig {
    /// The choices of the group; `None` where a list of numbers cannot be made or prefix codes
    /// are asked for, which tables cannot be encoded with.
    pub open spec fn axes(self) -> Option<CsvAxesView> {
        let encode_impl = list_of(self.encode_impl, ConfigEncodeImpl::Optimized);
        let decimal_scale = match self.preprocess {
            Some(preprocess) => u8_sweep(preprocess.max_decimal_scale, 9),
            None => u8_sweep(None, 9),
        };
        let m_max = usize_sweep(self.m_max, 0);
        let patience = usize_sweep(self.patience, 10);
        if encode_impl.contains(ConfigEncodeImpl::Huffman) || decimal_scale is None || m_max is None
            || patience is None {
            None
        } else {
            Some(
                CsvAxesView {
                    has_headers: list_of(self.has_headers, true),
                    float_storage: list_of(self.float_storage, ConfigFloatStorage::F32),
                    missing_value_policy: list_of(
                        self.missing_value_policy,
                        ConfigMissingValuePolicy::Error,
                    ),
                    float_scaling: match self.preprocess {
                        Some(preprocess) => list_of(
                            preprocess.float_scaling,
                            ConfigFloatScalingMode::ScaledOffsetSignedInt,
                        ),
                        None => seq![ConfigFloatScalingMode::ScaledOffsetSignedInt],
                    },
                    decimal_scale: decimal_scale->0,
                    integer_zero_normalization: match self.preprocess {
                        Some(preprocess) => list_of(preprocess.integer_zero_normalization, true),
                        None => seq![true],
                    },
                    m_max: m_max->0,
                    patience: patience->0,
                    select_impl: list_of(self.select_impl, ConfigSelectBasesImpl::OptimizedV1),
                    encode_impl,
                },
            )
        }
    }

    /// The profiles of the group, if it has any.
    pub open spec fn profiles(self) -> Option<Seq<CsvProfileView>> {
        match self.axes() {
            Some(axes) => if product(axes.lengths()) == 0 {
                None
            } else {
                Some(Seq::new(product(axes.lengths()), |k: int| axes.profile(self.name@, k)))
            },
            None => None,
        }
    }
}

/// Whether prefix codes are among the encodings.
fn has_huffman(encodings: &Vec<ConfigEncodeImpl>) -> (has: bool)
    ensures
        has == encodings@.contains(ConfigEncodeImpl::Huffman),
{
    let mut i: usize = 0;
    while i < encodings.len()
        invariant
            i <= encodings@.len(),
            forall|k: int| 0 <= k < i ==> #[trigger] encodings@[k] != ConfigEncodeImpl::Huffman,
        decreases encodings@.len() - i,
    {
        if encodings[i] == ConfigEncodeImpl::Huffman {
            return true;
        }
        i += 1;
    }
    false
}

/// The choices of a group of profiles for tables.
fn resolve_csv_axes(group: &CsvProfileGroupConfig) -> (result: Result<CsvAxes, EntroGdError>)
    ensures
        match group.axes() {
            Some(axes) => result matches Ok(found) && found@ == axes,
            None => result matches Err(error) && error is InvalidMetadata,
        },
{
    let m_max = match expand_usize_sweep(&group.m_max, 0) {
        Ok(values) => values,
        Err(error) => {
            return Err(error);
        },
    };
    let patience = match expand_usize_sweep(&group.patience, 10) {
        Ok(values) => values,
        Err(error) => {
            return Err(error);
        },
    };
    let encode_impl = list_or(&group.encode_impl, ConfigEncodeImpl::Optimized);
    if has_huffman(&encode_impl) {
        return Err(
            EntroGdError::InvalidMetadata {
                message: text_within(
                    "CSV group '",
                    group.name.as_str(),
                    "' includes Huffman, which is currently disabled for CSV",
                ),
            },
        );
    }
    let offset_mode = ConfigFloatScalingMode::ScaledOffsetSignedInt;
    let (float_scaling, decimal, integer_zero_normalization) = match &group.preprocess {
        Some(preprocess) => (
            list_or(&preprocess.float_scaling, offset_mode),
            expand_u8_sweep(&preprocess.max_decimal_scale, 9),
            list_or(&preprocess.integer_zero_normalization, true),
        ),
        None => (list_or(&None, offset_mode), expand_u8_sweep(&None, 9), list_or(&None, true)),
    };
    let decimal_scale = match decimal {
        Ok(values) => values,
        Err(error) => {
            return Err(error);
        },
    };
    Ok(
        CsvAxes {
            has_headers: list_or(&group.has_headers, true),
            float_storage: list_or(&group.float_storage, ConfigFloatStorage::F32),
            missing_value_policy: list_or(
                &group.missing_value_policy,
                ConfigMissingValuePolicy::Error,
            ),
            float_scaling,
            decimal_scale,
            integer_zero_normalization,
            m_max,
            patience,
            select_impl: list_or(&group.select_impl, ConfigSelectBasesImpl::OptimizedV1),
            encode_impl,
        },
    )
}

/// The number of choices for each setting.
fn csv_axis_lengths(axes: &CsvAxes) -> (lengths: Vec<usize>)
    ensures
        lengths@ == axes@.lengths(),
{
    let mut lengths: Vec<usize> = Vec::new();
    lengths.push(axes.has_headers.len());
    lengths.push(axes.float_storage.len());
    lengths.push(axes.missing_value_policy.len());
    lengths.push(axes.float_scaling.len());
    lengths.push(axes.decimal_scale.len());
    lengths.push(axes.integer_zero_normalization.len());
    lengths.push(axes.m_max.len());
    lengths.push(axes.patience.len());
    lengths.push(axes.select_impl.len());
    lengths.push(axes.encode_impl.len());
    assert(lengths@ =~= axes@.lengths());
    lengths
}

/// The profile for one choice of settings.
fn csv_profile_at(axes: &CsvAxes, name: &String, run_idx: usize, at: &Vec<usize>) -> (profile:
    CsvPipelineProfile)
    requires
        at@ == choice_at(axes@.lengths(), run_idx as int),
        inside(axes@.lengths(), at@),
    ensures
        profile@ == axes@.profile(name@, run_idx as int),
{
    proof {
        let lengths = axes@.lengths();
        assert(at@[0] < lengths[0] && at@[1] < lengths[1] && at@[2] < lengths[2] && at@[3]
            < lengths[3] && at@[4] < lengths[4] && at@[5] < lengths[5] && at@[6] < lengths[6]
            && at@[7] < lengths[7] && at@[8] < lengths[8] && at@[9] < lengths[9]);
    }
    let select = axes.select_impl[at[8]];
    let encode = axes.encode_impl[at[9]];
    let m_max: usize = axes.m_max[at[6]];
    let patience: usize = axes.patience[at[7]];
    let mut text = name.clone();
    append_text(&mut text, "__");
    append_three_digits(&mut text, run_idx);
    append_numbered(&mut text, "_m", m_max);
    append_numbered(&mut text, "_p", patience);
    append_labelled(&mut text, "_sel", select.name());
    append_labelled(&mut text, "_enc", encode.name());
    CsvPipelineProfile {
        name: text,
        has_headers: axes.has_headers[at[0]],
        float_storage: FloatStorage::from(axes.float_storage[at[1]]),
        missing_value_policy: MissingValuePolicy::from(axes.missing_value_policy[at[2]]),
        preprocess: PreprocessOptions {
            float_scaling: FloatScalingMode::from(axes.float_scaling[at[3]]),
            decimal_scale: axes.decimal_scale[at[4]],
            integer_zero_normalization: axes.integer_zero_normalization[at[5]],
        },
        m_max,
        patience,
        select_impl: SelectBasesImpl::from(select),
        encode_impl: EncodeImpl::from(encode),
    }
}

/// The profiles of a group for tables, one for each choice of settings.
pub fn expand_csv_group(group: &CsvProfileGroupConfig) -> (result: Result<
    Vec<CsvPipelineProfile>,
    EntroGdError,
>)
    ensures
        match group.profiles() {
            Some(profiles) => result matches Ok(found) && csv_views(found@) == profiles,
            None => result matches Err(error) && error is InvalidMetadata,
        },
{
    let axes = match resolve_csv_axes(group) {
        Ok(axes) => axes,
        Err(error) => {
            return Err(error);
        },
    };
    let lengths = csv_axis_lengths(&axes);
    let choices = for_each_combination(&lengths);
    let mut profiles: Vec<CsvPipelineProfile> = Vec::new();
    let mut k: usize = 0;
    while k < choices.len()
        invariant
            k <= choices@.len(),
            forall|j: int|
                0 <= j < choices@.len() ==> (#[trigger] choices@[j])@ == choice_at(
                    axes@.lengths(),
                    j,
                ) && inside(axes@.lengths(), choices@[j]@),
            profiles@.len() == k,
            forall|j: int|
                0 <= j < k ==> (#[trigger] profiles@[j])@ == axes@.profile(group.name@, j),
        decreases choices@.len() - k,
    {
        profiles.push(csv_profile_at(&axes, &group.name, k, &choices[k]));
        k += 1;
    }
    if profiles.len() == 0 {
        return Err(
            EntroGdError::InvalidMetadata {
                message: text_within("CSV group '", group.name.as_str(), "' produced no profiles"),
            },
        );
    }
    assert(csv_views(profiles@) =~= group.profiles()->0);
    Ok(profiles)
}

/// The choices of a group of profiles for images.
pub struct ImageAxesView {
    pub colorspace: Seq<ConfigImageColorSpace>,
    pub color_model: Seq<ConfigImageColorModel>,
    pub pixel_grouping: Seq<int>,
    pub grouping_transform: Seq<ConfigImageGroupingTransform>,
    pub m_max: Seq<int>,
    pub patience: Seq<int>,
    pub select_impl: Seq<ConfigSelectBasesImpl>,
    pub encode_impl: Seq<ConfigEncodeImpl>,
}

/// The choices of a group of profiles for images.
struct ImageAxes {
    colorspace: Vec<ConfigImageColorSpace>,
    color_model: Vec<ConfigImageColorModel>,
    pixel_grouping: Vec<u32>,
    grouping_transform: Vec<ConfigImageGroupingTransform>,
    m_max: Vec<usize>,
    patience: Vec<usize>,
    select_impl: Vec<ConfigSelectBasesImpl>,
    encode_impl: Vec<ConfigEncodeImpl>,
}

impl View for ImageAxes {
    type V = ImageAxesView;

    closed spec fn view(&self) -> ImageAxesView {
        ImageAxesView {
            colorspace: self.colorspace@,
            color_model: self.color_model@,
            pixel_grouping: u32_numbers(self.pixel_grouping@),
            grouping_transform: self.grouping_transform@,
            m_max: usize_numbers(self.m_max@),
            patience: usize_numbers(self.patience@),
            select_impl: self.select_impl@,
            encode_impl: self.encode_impl@,
        }
    }
}

impl ImageAxesView {
    /// The number of choices for each setting.
    pub open spec fn lengths(self) -> Seq<usize> {
        seq![
            self.colorspace.len() as usize,
            self.color_model.len() as usize,
            self.pixel_grouping.len() as usize,
            self.grouping_transform.len() as usize,
            self.m_max.len() as usize,
            self.patience.len() as usize,
            self.select_impl.len() as usize,
            self.encode_impl.len() as usize,
        ]
    }

    /// Profile number `k` of the group.
    pub open spec fn profile(self, name: Seq<char>, k: int) -> ImageProfileView {
        let at = choice_at(self.lengths(), k);
        let color_model = self.color_model[at[1] as int];
        let pixel_grouping = self.pixel_grouping[at[2] as int];
        let transform = self.grouping_transform[at[3] as int];
        let select = self.select_impl[at[6] as int];
        let encode = self.encode_impl[at[7] as int];
        ImageProfileView {
            name: name + "__"@ + three_digits(k as nat) + "_cm"@ + color_model.label() + "_pg"@
                + decimal(pixel_grouping as nat) + "_gt"@ + transform.label() + "_sel"@
                + select.label() + "_enc"@ + encode.label(),
            build: ImageBuildConfig {
                colorspace: ImageColorSpace::from_spec(self.colorspace[at[0] as int]),
                color_model: ImageColorModel::from_spec(color_model),
                pixel_grouping: pixel_grouping as u32,
                grouping_transform: ImageGroupingTransform::from_spec(transform),
            },
            m_max: self.m_max[at[4] as int],
            patience: self.patience[at[5] as int],
            select_impl: SelectBasesImpl::from_spec(select),
            encode_impl: EncodeImpl::from_spec(encode),
        }
    }
}

impl ImageProfileGroupConfig {
    /// The choices of the group; `None` where a list of numbers cannot be made or groups without
    /// pixels are asked for.
    pub open spec fn axes(self) -> Option<ImageAxesView> {
        let pixel_grouping = match self.build {
            Some(build) => u32_sweep(build.pixel_grouping, 1),
            None => u32_sweep(None, 1),
        };
        let m_max = usize_sweep(self.m_max, 0);
        let patience = usize_sweep(self.patience, 10);
        if pixel_grouping is None || m_max is None || patience is None || (
        pixel_grouping->0).contains(0) {
            None
        } else {
            Some(
                ImageAxesView {
                    colorspace: match self.build {
                        Some(build) => list_of(
                            build.colorspace,
                            ConfigImageColorSpace::SrgbWithLinearAlpha,
                        ),
                        None => seq![ConfigImageColorSpace::SrgbWithLinearAlpha],
                    },
                    color_model: match self.build {
                        Some(build) => list_of(build.color_model, ConfigImageColorModel::Rgb),
                        None => seq![ConfigImageColorModel::Rgb],
                    },
                    pixel_grouping: pixel_grouping->0,
                    grouping_transform: match self.build {
                        Some(build) => list_of(
                            build.grouping_transform,
                            ConfigImageGroupingTransform::Raw,
                        ),
                        None => seq![ConfigImageGroupingTransform::Raw],
                    },
                    m_max: m_max->0,
                    patience: patience->0,
                    select_impl: list_of(self.select_impl, ConfigSelectBasesImpl::OptimizedV1),
                    encode_impl: list_of(self.encode_impl, ConfigEncodeImpl::Optimized),
                },
            )
        }
    }

    /// The profiles of the group, if it has any.
    pub open spec fn profiles(self) -> Option<Seq<ImageProfileView>> {
        match self.axes() {
            Some(axes) => if product(axes.lengths()) == 0 {
                None
            } else {
                Some(Seq::new(product(axes.lengths()), |k: int| axes.profile(self.name@, k)))
            },
            None => None,
        }
    }
}

/// Whether zero is among some numbers.
fn has_zero(values: &Vec<u32>) -> (has: bool)
    ensures
        has == u32_numbers(values@).contains(0),
{
    let mut i: usize = 0;
    while i < values.len()
        invariant
            i <= values@.len(),
            forall|k: int| 0 <= k < i ==> #[trigger] u32_numbers(values@)[k] != 0,
        decreases values@.len() - i,
    {
        if values[i] == 0 {
            assert(u32_numbers(values@)[i as int] == 0);
            return true;
        }
        i += 1;
    }
    false
}

/// The choices of a group of profiles for images.
fn resolve_image_axes(group: &ImageProfileGroupConfig) -> (result: Result<ImageAxes, EntroGdError>)
    ensures
        match group.axes() {
            Some(axes) => result matches Ok(found) && found@ == axes,
            None => result matches Err(error) && error is InvalidMetadata,
        },
{
    let usual_space = ConfigImageColorSpace::SrgbWithLinearAlpha;
    let usual_model = ConfigImageColorModel::Rgb;
    let usual_transform = ConfigImageGroupingTransform::Raw;
    let (colorspace, color_model, grouping, grouping_transform) = match &group.build {
        Some(build) => (
            list_or(&build.colorspace, usual_space),
            list_or(&build.color_model, usual_model),
            expand_u32_sweep(&build.pixel_grouping, 1),
            list_or(&build.grouping_transform, usual_transform),
        ),
        None => (
            list_or(&None, usual_space),
            list_or(&None, usual_model),
            expand_u32_sweep(&None, 1),
            list_or(&None, usual_transform),
        ),
    };
    let pixel_grouping = match grouping {
        Ok(values) => values,
        Err(error) => {
            return Err(error);
        },
    };
    let m_max = match expand_usize_sweep(&group.m_max, 0) {
        Ok(values) => values,
        Err(error) => {
            return Err(error);
        },
    };
    let patience = match expand_usize_sweep(&group.patience, 10) {
        Ok(values) => values,
        Err(error) => {
            return Err(error);
        },
    };
    if has_zero(&pixel_grouping) {
        return Err(
            EntroGdError::InvalidMetadata {
                message: text_within(
                    "image group '",
                    group.name.as_str(),
                    "' has invalid pixel_grouping=0",
                ),
            },
        );
    }
    Ok(
        ImageAxes {
            colorspace,
            color_model,
            pixel_grouping,
            grouping_transform,
            m_max,
            patience,
            select_impl: list_or(&group.select_impl, ConfigSelectBasesImpl::OptimizedV1),
            encode_impl: list_or(&group.encode_impl, ConfigEncodeImpl::Optimized),
        },
    )
}

/// The number of choices for each setting.
fn image_axis_lengths(axes: &ImageAxes) -> (lengths: Vec<usize>)
    ensures
        lengths@ == axes@.lengths(),
{
    let mut lengths: Vec<usize> = Vec::new();
    lengths.push(axes.colorspace.len());
    lengths.push(axes.color_model.len());
    lengths.push(axes.pixel_grouping.len());
    lengths.push(axes.grouping_transform.len());
    lengths.push(axes.m_max.len());
    lengths.push(axes.patience.len());
    lengths.push(axes.select_impl.len());
    lengths.push(axes.encode_impl.len());
    assert(lengths@ =~= axes@.lengths());
    lengths
}

/// The profile for one choice of settings.
fn image_profile_at(axes: &ImageAxes, name: &String, run_idx: usize, at: &Vec<usize>) -> (profile:
    ImagePipelineProfile)
    requires
        at@ == choice_at(axes@.lengths(), run_idx as int),
        inside(axes@.lengths(), at@),
    ensures
        profile@ == axes@.profile(name@, run_idx as int),
{
    proof {
        let lengths = axes@.lengths();
        assert(at@[0] < lengths[0] && at@[1] < lengths[1] && at@[2] < lengths[2] && at@[3]
            < lengths[3] && at@[4] < lengths[4] && at@[5] < lengths[5] && at@[6] < lengths[6]
            && at@[7] < lengths[7]);
    }
    let color_model = axes.color_model[at[1]];
    let pixel_grouping: u32 = axes.pixel_grouping[at[2]];
    let transform = axes.grouping_transform[at[3]];
    let select = axes.select_impl[at[6]];
    let encode = axes.encode_impl[at[7]];
    let mut text = name.clone();
    append_text(&mut text, "__");
    append_three_digits(&mut text, run_idx);
    append_labelled(&mut text, "_cm", color_model.name());
    append_numbered(&mut text, "_pg", pixel_grouping as usize);
    append_labelled(&mut text, "_gt", transform.name());
    append_labelled(&mut text, "_sel", select.name());
    append_labelled(&mut text, "_enc", encode.name());
    ImagePipelineProfile {
        name: text,
        build: ImageBuildConfig {
            colorspace: ImageColorSpace::from(axes.colorspace[at[0]]),
            color_model: ImageColorModel::from(color_model),
            pixel_grouping,
            grouping_transform: ImageGroupingTransform::from(transform),
        },
        m_max: axes.m_max[at[4]],
        patience: axes.patience[at[5]],
        select_impl: SelectBasesImpl::from(select),
        encode_impl: EncodeImpl::from(encode),
    }
}

/// The profiles of a group for images, one for each choice of settings.
pub fn expand_image_group(group: &ImageProfileGroupConfig) -> (result: Result<
    Vec<ImagePipelineProfile>,
    EntroGdError,
>)
    ensures
        match group.profiles() {
            Some(profiles) => result matches Ok(found) && image_views(found@) == profiles,
            None => result matches Err(error) && error is InvalidMetadata,
        },
{
    let axes = match resolve_image_axes(group) {
        Ok(axes) => axes,
        Err(error) => {
            return Err(error);
        },
    };
    let lengths = image_axis_lengths(&axes);
    let choices = for_each_combination(&lengths);
    let mut profiles: Vec<ImagePipelineProfile> = Vec::new();
    let mut k: usize = 0;
    while k < choices.len()
        invariant
            k <= choices@.len(),
            forall|j: int|
                0 <= j < choices@.len() ==> (#[trigger] choices@[j])@ == choice_at(
                    axes@.lengths(),
                    j,
                ) && inside(axes@.lengths(), choices@[j]@),
            profiles@.len() == k,
            forall|j: int|
                0 <= j < k ==> (#[trigger] profiles@[j])@ == axes@.profile(group.name@, j),
        decreases choices@.len() - k,
    {
        profiles.push(image_profile_at(&axes, &group.name, k, &choices[k]));
        k += 1;
    }
    if profiles.len() == 0 {
        return Err(
            EntroGdError::InvalidMetadata {
                message: text_within(
                    "image group '",
                    group.name.as_str(),
                    "' produced no profiles",
                ),
            },
        );
    }
    assert(image_views(profiles@) =~= group.profiles()->0);
    Ok(profiles)
}

} // verus!
