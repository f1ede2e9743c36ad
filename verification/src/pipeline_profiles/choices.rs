//! The choices that a pipeline profile makes, and their names in a configuration file.
use vstd::prelude::*;
use vstd::std_specs::convert::FromSpecImpl;

use crate::data::{ImageColorModel, ImageGroupingTransform};
use crate::image_preprocessor::builder::ImageColorSpace;
use crate::tabular_processor::columns::FloatScalingMode;

verus! {

/// How the base bits are chosen.
#[derive(Debug, Clone, Copy, PartialEq, Eq, Structural)]
pub enum SelectBasesImpl {
    Naive,
    OptimizedV1,
    OptimizedV2,
    OptimizedV3,
}

/// How rows are encoded.
#[derive(Debug, Clone, Copy, PartialEq, Eq, Structural)]
pub enum EncodeImpl {
    Naive,
    Optimized,
    Rle,
    Huffman,
}

/// The type that floats of a table are read as.
#[derive(Debug, Clone, Copy, PartialEq, Eq, Structural)]
pub enum FloatStorage {
    F32,
    F64,
}

/// What is made of a missing value.
#[derive(Debug, Clone, Copy, PartialEq, Eq, Structural)]
pub enum MissingValuePolicy {
    Error,
    Zero,
}

/// How the base bits are chosen, as a configuration names it.
#[derive(Debug, Clone, Copy, PartialEq, Eq, Structural)]
pub enum ConfigSelectBasesImpl {
    Naive,
    OptimizedV1,
    OptimizedV2,
    OptimizedV3,
}

impl FromSpecImpl<ConfigSelectBasesImpl> for SelectBasesImpl {
    open spec fn obeys_from_spec() -> bool {
        true
    }

    open spec fn from_spec(value: ConfigSelectBasesImpl) -> SelectBasesImpl {
        match value {
            ConfigSelectBasesImpl::Naive => SelectBasesImpl::Naive,
            ConfigSelectBasesImpl::OptimizedV1 => SelectBasesImpl::OptimizedV1,
            ConfigSelectBasesImpl::OptimizedV2 => SelectBasesImpl::OptimizedV2,
            ConfigSelectBasesImpl::OptimizedV3 => SelectBasesImpl::OptimizedV3,
        }
    }
}

impl From<ConfigSelectBasesImpl> for SelectBasesImpl {
    fn from(value: ConfigSelectBasesImpl) -> (chosen: SelectBasesImpl) {
        match value {
            ConfigSelectBasesImpl::Naive => SelectBasesImpl::Naive,
            ConfigSelectBasesImpl::OptimizedV1 => SelectBasesImpl::OptimizedV1,
            ConfigSelectBasesImpl::OptimizedV2 => SelectBasesImpl::OptimizedV2,
            ConfigSelectBasesImpl::OptimizedV3 => SelectBasesImpl::OptimizedV3,
        }
    }
}

impl ConfigSelectBasesImpl {
    /// The name of the choice.
    pub open spec fn label(self) -> Seq<char> {
        match self {
            ConfigSelectBasesImpl::Naive => "Naive"@,
            ConfigSelectBasesImpl::OptimizedV1 => "OptimizedV1"@,
            ConfigSelectBasesImpl::OptimizedV2 => "OptimizedV2"@,
            ConfigSelectBasesImpl::OptimizedV3 => "OptimizedV3"@,
        }
    }

    /// The name of the choice.
    pub fn name(self) -> (text: &'static str)
        ensures
            text@ == self.label(),
    {
        match self {
            ConfigSelectBasesImpl::Naive => "Naive",
            ConfigSelectBasesImpl::OptimizedV1 => "OptimizedV1",
            ConfigSelectBasesImpl::OptimizedV2 => "OptimizedV2",
            ConfigSelectBasesImpl::OptimizedV3 => "OptimizedV3",
        }
    }
}

/// How rows are encoded, as a configuration names it.
#[derive(Debug, Clone, Copy, PartialEq, Eq, Structural)]
pub enum ConfigEncodeImpl {
    Naive,
    Optimized,
    Rle,
    Huffman,
}

impl FromSpecImpl<ConfigEncodeImpl> for EncodeImpl {
    open spec fn obeys_from_spec() -> bool {
        true
    }

    open spec fn from_spec(value: ConfigEncodeImpl) -> EncodeImpl {
        match value {
            ConfigEncodeImpl::Naive => EncodeImpl::Naive,
            ConfigEncodeImpl::Optimized => EncodeImpl::Optimized,
            ConfigEncodeImpl::Rle => EncodeImpl::Rle,
            ConfigEncodeImpl::Huffman => EncodeImpl::Huffman,
        }
    }
}

impl From<ConfigEncodeImpl> for EncodeImpl {
    fn from(value: ConfigEncodeImpl) -> (chosen: EncodeImpl) {
        match value {
            ConfigEncodeImpl::Naive => EncodeImpl::Naive,
            ConfigEncodeImpl::Optimized => EncodeImpl::Optimized,
            ConfigEncodeImpl::Rle => EncodeImpl::Rle,
            ConfigEncodeImpl::Huffman => EncodeImpl::Huffman,
        }
    }
}

impl ConfigEncodeImpl {
    /// The name of the choice.
    pub open spec fn label(self) -> Seq<char> {
        match self {
            ConfigEncodeImpl::Naive => "Naive"@,
            ConfigEncodeImpl::Optimized => "Optimized"@,
            ConfigEncodeImpl::Rle => "Rle"@,
            ConfigEncodeImpl::Huffman => "Huffman"@,
        }
    }

    /// The name of the choice.
    pub fn name(self) -> (text: &'static str)
        ensures
            text@ == self.label(),
    {
        match self {
            ConfigEncodeImpl::Naive => "Naive",
            ConfigEncodeImpl::Optimized => "Optimized",
            ConfigEncodeImpl::Rle => "Rle",
            ConfigEncodeImpl::Huffman => "Huffman",
        }
    }
}

/// The type that floats are read as, as a configuration names it.
#[derive(Debug, Clone, Copy, PartialEq, Eq, Structural)]
pub enum ConfigFloatStorage {
    F32,
    F64,
}

impl FromSpecImpl<ConfigFloatStorage> for FloatStorage {
    open spec fn obeys_from_spec() -> bool {
        true
    }

    open spec fn from_spec(value: ConfigFloatStorage) -> FloatStorage {
        match value {
            ConfigFloatStorage::F32 => FloatStorage::F32,
            ConfigFloatStorage::F64 => FloatStorage::F64,
        }
    }
}

impl From<ConfigFloatStorage> for FloatStorage {
    fn from(value: ConfigFloatStorage) -> (chosen: FloatStorage) {
        match value {
            ConfigFloatStorage::F32 => FloatStorage::F32,
            ConfigFloatStorage::F64 => FloatStorage::F64,
        }
    }
}

/// What is made of a missing value, as a configuration names it.
#[derive(Debug, Clone, Copy, PartialEq, Eq, Structural)]
pub enum ConfigMissingValuePolicy {
    Error,
    Zero,
}

impl FromSpecImpl<ConfigMissingValuePolicy> for MissingValuePolicy {
    open spec fn obeys_from_spec() -> bool {
        true
    }

    open spec fn from_spec(value: ConfigMissingValuePolicy) -> MissingValuePolicy {
        match value {
            ConfigMissingValuePolicy::Error => MissingValuePolicy::Error,
            ConfigMissingValuePolicy::Zero => MissingValuePolicy::Zero,
        }
    }
}

impl From<ConfigMissingValuePolicy> for MissingValuePolicy {
    fn from(value: ConfigMissingValuePolicy) -> (chosen: MissingValuePolicy) {
        match value {
            ConfigMissingValuePolicy::Error => MissingValuePolicy::Error,
            ConfigMissingValuePolicy::Zero => MissingValuePolicy::Zero,
        }
    }
}

/// How floats become integers, as a configuration names it.
#[derive(Debug, Clone, Copy, PartialEq, Eq, Structural)]
pub enum ConfigFloatScalingMode {
    Disabled,
    ScaledSignedInt,
    ScaledOffsetSignedInt,
}

impl FromSpecImpl<ConfigFloatScalingMode> for FloatScalingMode {
    open spec fn obeys_from_spec() -> bool {
        true
    }

    open spec fn from_spec(value: ConfigFloatScalingMode) -> FloatScalingMode {
        match value {
            ConfigFloatScalingMode::Disabled => FloatScalingMode::Disabled,
            ConfigFloatScalingMode::ScaledSignedInt => FloatScalingMode::ScaledSignedInt,
            ConfigFloatScalingMode::ScaledOffsetSignedInt => FloatScalingMode::ScaledOffsetSignedInt,
        }
    }
}

impl From<ConfigFloatScalingMode> for FloatScalingMode {
    fn from(value: ConfigFloatScalingMode) -> (chosen: FloatScalingMode) {
        match value {
            ConfigFloatScalingMode::Disabled => FloatScalingMode::Disabled,
            ConfigFloatScalingMode::ScaledSignedInt => FloatScalingMode::ScaledSignedInt,
            ConfigFloatScalingMode::ScaledOffsetSignedInt => FloatScalingMode::ScaledOffsetSignedInt,
        }
    }
}

/// The colour space of an image, as a configuration names it.
#[derive(Debug, Clone, Copy, PartialEq, Eq, Structural)]
pub enum ConfigImageColorSpace {
    SrgbWithLinearAlpha,
    Linear,
}

impl FromSpecImpl<ConfigImageColorSpace> for ImageColorSpace {
    open spec fn obeys_from_spec() -> bool {
        true
    }

    open spec fn from_spec(value: ConfigImageColorSpace) -> ImageColorSpace {
        match value {
            ConfigImageColorSpace::SrgbWithLinearAlpha => ImageColorSpace::SrgbWithLinearAlpha,
            ConfigImageColorSpace::Linear => ImageColorSpace::Linear,
        }
    }
}

impl From<ConfigImageColorSpace> for ImageColorSpace {
    fn from(value: ConfigImageColorSpace) -> (chosen: ImageColorSpace) {
        match value {
            ConfigImageColorSpace::SrgbWithLinearAlpha => ImageColorSpace::SrgbWithLinearAlpha,
            ConfigImageColorSpace::Linear => ImageColorSpace::Linear,
        }
    }
}

/// The colour model of an image, as a configuration names it.
#[derive(Debug, Clone, Copy, PartialEq, Eq, Structural)]
pub enum ConfigImageColorModel {
    Rgb,
    YCoCg,
    YCoCgR,
}

impl FromSpecImpl<ConfigImageColorModel> for ImageColorModel {
    open spec fn obeys_from_spec() -> bool {
        true
    }

    open spec fn from_spec(value: ConfigImageColorModel) -> ImageColorModel {
        match value {
            ConfigImageColorModel::Rgb => ImageColorModel::Rgb,
            ConfigImageColorModel::YCoCg => ImageColorModel::YCoCg,
            ConfigImageColorModel::YCoCgR => ImageColorModel::YCoCgR,
        }
    }
}

impl From<ConfigImageColorModel> for ImageColorModel {
    fn from(value: ConfigImageColorModel) -> (chosen: ImageColorModel) {
        match value {
            ConfigImageColorModel::Rgb => ImageColorModel::Rgb,
            ConfigImageColorModel::YCoCg => ImageColorModel::YCoCg,
            ConfigImageColorModel::YCoCgR => ImageColorModel::YCoCgR,
        }
    }
}

impl ConfigImageColorModel {
    /// The name of the choice.
    pub open spec fn label(self) -> Seq<char> {
        match self {
            ConfigImageColorModel::Rgb => "Rgb"@,
            ConfigImageColorModel::YCoCg => "YCoCg"@,
            ConfigImageColorModel::YCoCgR => "YCoCgR"@,
        }
    }

    /// The name of the choice.
    pub fn name(self) -> (text: &'static str)
        ensures
            text@ == self.label(),
    {
        match self {
            ConfigImageColorModel::Rgb => "Rgb",
            ConfigImageColorModel::YCoCg => "YCoCg",
            ConfigImageColorModel::YCoCgR => "YCoCgR",
        }
    }
}

/// How grouped pixels are stored, as a configuration names it.
#[derive(Debug, Clone, Copy, PartialEq, Eq, Structural)]
pub enum ConfigImageGroupingTransform {
    Raw,
    ForFirstPixel,
    ForMin,
}

impl FromSpecImpl<ConfigImageGroupingTransform> for ImageGroupingTransform {
    open spec fn obeys_from_spec() -> bool {
        true
    }

    open spec fn from_spec(value: ConfigImageGroupingTransform) -> ImageGroupingTransform {
        match value {
            ConfigImageGroupingTransform::Raw => ImageGroupingTransform::Raw,
            ConfigImageGroupingTransform::ForFirstPixel => ImageGroupingTransform::ForFirstPixel,
            ConfigImageGroupingTransform::ForMin => ImageGroupingTransform::ForMin,
        }
    }
}

impl From<ConfigImageGroupingTransform> for ImageGroupingTransform {
    fn from(value: ConfigImageGroupingTransform) -> (chosen: ImageGroupingTransform) {
        match value {
            ConfigImageGroupingTransform::Raw => ImageGroupingTransform::Raw,
            ConfigImageGroupingTransform::ForFirstPixel => ImageGroupingTransform::ForFirstPixel,
            ConfigImageGroupingTransform::ForMin => ImageGroupingTransform::ForMin,
        }
    }
}

impl ConfigImageGroupingTransform {
    /// The name of the choice.
    pub open spec fn label(self) -> Seq<char> {
        match self {
            ConfigImageGroupingTransform::Raw => "Raw"@,
            ConfigImageGroupingTransform::ForFirstPixel => "ForFirstPixel"@,
            ConfigImageGroupingTransform::ForMin => "ForMin"@,
        }
    }

    /// The name of the choice.
    pub fn name(self) -> (text: &'static str)
        ensures
            text@ == self.label(),
    {
        match self {
            ConfigImageGroupingTransform::Raw => "Raw",
            ConfigImageGroupingTransform::ForFirstPixel => "ForFirstPixel",
            ConfigImageGroupingTransform::ForMin => "ForMin",
        }
    }
}

} // verus!
