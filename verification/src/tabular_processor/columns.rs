//! The values of a column as the numbers that are stored for them.
use vstd::prelude::*;

use crate::data::{
    narrowest_unsigned, verbatim_type, ColumnDataType, FeatureDataType, FeatureSpec,
    FeatureTransform,
};
use crate::error::{bad_features, EntroGdError};
use crate::utils::signed_as_word;

verus! {

/// The greatest number of decimal places that scaling keeps.
pub const MAX_DECIMAL_SCALE: u8 = 9;

/// How floats become integers.
#[derive(Debug, Clone, Copy, PartialEq, Eq, Structural)]
pub enum FloatScalingMode {
    /// They do not: their bit patterns are stored.
    Disabled,
    /// Scaled, then biased by the least 64-bit number.
    ScaledSignedInt,
    /// Scaled, then less the least scaled value of the column.
    ScaledOffsetSignedInt,
}

/// How columns are prepared for storage.
#[derive(Debug, Clone, Copy, PartialEq, Eq, Structural)]
pub struct PreprocessOptions {
    pub float_scaling: FloatScalingMode,
    /// The decimal places that scaling keeps.
    pub decimal_scale: u8,
    /// Whether integers are stored less the least value of their column. Signed integers are
    /// otherwise biased by the least number of their type.
    pub integer_zero_normalization: bool,
}

impl Default for PreprocessOptions {
    fn default() -> (options: PreprocessOptions)
        ensures
            options == (PreprocessOptions {
                float_scaling: FloatScalingMode::ScaledOffsetSignedInt,
                decimal_scale: MAX_DECIMAL_SCALE,
                integer_zero_normalization: true,
            }),
    {
        PreprocessOptions {
            float_scaling: FloatScalingMode::ScaledOffsetSignedInt,
            decimal_scale: MAX_DECIMAL_SCALE,
            integer_zero_normalization: true,
        }
    }
}

/// The values of a column, one for each row.
#[derive(Debug, PartialEq, Eq)]
pub enum ColumnValues {
    Signed(Vec<i64>),
    Unsigned(Vec<u64>),
    /// The bit patterns of floats.
    FloatBits(Vec<u64>),
    /// Floats times a power of ten, rounded.
    Scaled(Vec<i64>),
}

/// The content of the values of a column.
pub enum ValuesView {
    Signed(Seq<i64>),
    Unsigned(Seq<u64>),
    FloatBits(Seq<u64>),
    Scaled(Seq<i64>),
}

impl View for ColumnValues {
    type V = ValuesView;

    open spec fn view(&self) -> ValuesView {
        match *self {
            ColumnValues::Signed(values) => ValuesView::Signed(values@),
            ColumnValues::Unsigned(values) => ValuesView::Unsigned(values@),
            ColumnValues::FloatBits(values) => ValuesView::FloatBits(values@),
            ColumnValues::Scaled(values) => ValuesView::Scaled(values@),
        }
    }
}

impl ValuesView {
    /// The number of rows.
    pub open spec fn rows(self) -> nat {
        match self {
            ValuesView::Signed(values) => values.len(),
            ValuesView::Unsigned(values) => values.len(),
            ValuesView::FloatBits(values) => values.len(),
            ValuesView::Scaled(values) => values.len(),
        }
    }
}

impl ColumnValues {
    /// The number of rows.
    pub fn rows(&self) -> (count: usize)
        ensures
            count == self@.rows(),
    {
        match self {
            ColumnValues::Signed(values) => values.len(),
            ColumnValues::Unsigned(values) => values.len(),
            ColumnValues::FloatBits(values) => values.len(),
            ColumnValues::Scaled(values) => values.len(),
        }
    }
}

/// A column of a table.
#[derive(Debug, PartialEq, Eq)]
pub struct Column {
    pub name: String,
    /// The type of the column in its source.
    pub data_type: ColumnDataType,
    pub values: ColumnValues,
}

/// A column as it is stored.
#[derive(Debug, PartialEq, Eq)]
pub struct TransformedColumn {
    pub spec: FeatureSpec,
    /// The stored number of each row.
    pub values: Vec<u64>,
}

/// The least of some signed numbers, the greatest number there is for none.
pub open spec fn least_signed(values: Seq<i64>) -> i64
    decreases values.len(),
{
    if values.len() == 0 {
        i64::MAX
    } else {
        let before = least_signed(values.drop_last());
        if values.last() < before {
            values.last()
        } else {
            before
        }
    }
}

/// The least of some unsigned numbers, the greatest number there is for none.
pub open spec fn least_unsigned(values: Seq<u64>) -> u64
    decreases values.len(),
{
    if values.len() == 0 {
        u64::MAX
    } else {
        let before = least_unsigned(values.drop_last());
        if values.last() < before {
            values.last()
        } else {
            before
        }
    }
}

/// The greatest of some unsigned numbers, zero for none.
pub open spec fn greatest_unsigned(values: Seq<u64>) -> u64
    decreases values.len(),
{
    if values.len() == 0 {
        0
    } else {
        let before = greatest_unsigned(values.drop_last());
        if values.last() > before {
            values.last()
        } else {
            before
        }
    }
}

/// The least number is none of the greater ones, and there where there are numbers.
pub proof fn least_signed_bounds(values: Seq<i64>)
    ensures
        forall|i: int| 0 <= i < values.len() ==> least_signed(values) <= #[trigger] values[i],
        values.len() > 0 ==> exists|i: int|
            0 <= i < values.len() && #[trigger] values[i] == least_signed(values),
    decreases values.len(),
{
    if values.len() > 0 {
        let before = values.drop_last();
        least_signed_bounds(before);
        assert forall|i: int| 0 <= i < values.len() implies least_signed(values)
            <= #[trigger] values[i] by {
            if i < before.len() {
                assert(before[i] == values[i]);
            }
        }
        if before.len() > 0 && values.last() >= least_signed(before) {
            let i = choose|i: int| 0 <= i < before.len() && #[trigger] before[i] == least_signed(
                before,
            );
            assert(values[i] == least_signed(values));
        } else {
            assert(values[values.len() - 1] == least_signed(values));
        }
    }
}

/// The least number is none of the greater ones, and there where there are numbers.
pub proof fn least_unsigned_bounds(values: Seq<u64>)
    ensures
        forall|i: int| 0 <= i < values.len() ==> least_unsigned(values) <= #[trigger] values[i],
        values.len() > 0 ==> exists|i: int|
            0 <= i < values.len() && #[trigger] values[i] == least_unsigned(values),
    decreases values.len(),
{
    if values.len() > 0 {
        let before = values.drop_last();
        least_unsigned_bounds(before);
        assert forall|i: int| 0 <= i < values.len() implies least_unsigned(values)
            <= #[trigger] values[i] by {
            if i < before.len() {
                assert(before[i] == values[i]);
            }
        }
        if before.len() > 0 && values.last() >= least_unsigned(before) {
            let i = choose|i: int|
                0 <= i < before.len() && #[trigger] before[i] == least_unsigned(before);
            assert(values[i] == least_unsigned(values));
        } else {
            assert(values[values.len() - 1] == least_unsigned(values));
        }
    }
}

/// The greatest number is none of the lesser ones, and there where there are numbers.
pub proof fn greatest_unsigned_bounds(values: Seq<u64>)
    ensures
        forall|i: int| 0 <= i < values.len() ==> greatest_unsigned(values) >= #[trigger] values[i],
        values.len() > 0 ==> exists|i: int|
            0 <= i < values.len() && #[trigger] values[i] == greatest_unsigned(values),
    decreases values.len(),
{
    if values.len() > 0 {
        let before = values.drop_last();
        greatest_unsigned_bounds(before);
        assert forall|i: int| 0 <= i < values.len() implies greatest_unsigned(values)
            >= #[trigger] values[i] by {
            if i < before.len() {
                assert(before[i] == values[i]);
            }
        }
        if before.len() > 0 && values.last() <= greatest_unsigned(before) {
            let i = choose|i: int|
                0 <= i < before.len() && #[trigger] before[i] == greatest_unsigned(before);
            assert(values[i] == greatest_unsigned(values));
        } else {
            assert(values[values.len() - 1] == greatest_unsigned(values));
        }
    }
}

/// A signed number less another one, as a 64-bit word that wraps around.
pub open spec fn word_difference(value: i64, less: i64) -> u64 {
    ((value - less) % 0x1_0000_0000_0000_0000) as u64
}

/// The least number of a signed type, zero for other types.
pub open spec fn least_of_type(data_type: ColumnDataType) -> i64 {
    match data_type {
        ColumnDataType::Int8 => i8::MIN as i64,
        ColumnDataType::Int16 => i16::MIN as i64,
        ColumnDataType::Int32 => i32::MIN as i64,
        ColumnDataType::Int64 => i64::MIN,
        _ => 0,
    }
}

/// Signed numbers less another one.
pub open spec fn differences(values: Seq<i64>, less: i64) -> Seq<u64> {
    Seq::new(values.len(), |i: int| word_difference(values[i], less))
}

/// The decimal places that scaling keeps.
pub open spec fn kept_scale(options: PreprocessOptions) -> u8 {
    if options.decimal_scale <= MAX_DECIMAL_SCALE {
        options.decimal_scale
    } else {
        MAX_DECIMAL_SCALE
    }
}

/// How a column is stored, and the stored numbers; `None` where its values are not of the kind
/// that its type and the options ask for, or where there are none to find the least one of.
pub open spec fn stored_column(
    data_type: ColumnDataType,
    values: ValuesView,
    options: PreprocessOptions,
) -> Option<(FeatureTransform, FeatureDataType, Seq<u64>)> {
    match values {
        ValuesView::Signed(numbers) => if !is_signed(data_type) || (
        options.integer_zero_normalization && numbers.len() == 0) {
            None
        } else {
            let least = if options.integer_zero_normalization {
                least_signed(numbers)
            } else {
                least_of_type(data_type)
            };
            let stored = differences(numbers, least);
            Some(
                (
                    FeatureTransform::OffsetSignedInt { min_value: least },
                    narrowest_unsigned(greatest_unsigned(stored) as nat),
                    stored,
                ),
            )
        },
        ValuesView::Unsigned(numbers) => if !is_unsigned(data_type) || numbers.len() == 0 {
            None
        } else if options.integer_zero_normalization {
            let least = least_unsigned(numbers);
            let stored = Seq::new(numbers.len(), |i: int| (numbers[i] - least) as u64);
            Some(
                (
                    FeatureTransform::OffsetUnsignedInt { min_value: least },
                    narrowest_unsigned(greatest_unsigned(stored) as nat),
                    stored,
                ),
            )
        } else {
            Some(
                (
                    FeatureTransform::Verbatim,
                    narrowest_unsigned(greatest_unsigned(numbers) as nat),
                    numbers,
                ),
            )
        },
        ValuesView::FloatBits(patterns) => if !is_float(data_type) || options.float_scaling
            != FloatScalingMode::Disabled {
            None
        } else {
            Some((FeatureTransform::Verbatim, verbatim_type(data_type)->0, patterns))
        },
        ValuesView::Scaled(numbers) => if !is_float(data_type) {
            None
        } else {
            let scale = kept_scale(options);
            match options.float_scaling {
                FloatScalingMode::Disabled => None,
                FloatScalingMode::ScaledSignedInt => {
                    let stored = differences(numbers, i64::MIN);
                    Some(
                        (
                            FeatureTransform::ScaledSignedInt { decimal_scale: scale },
                            narrowest_unsigned(greatest_unsigned(stored) as nat),
                            stored,
                        ),
                    )
                },
                FloatScalingMode::ScaledOffsetSignedInt => {
                    let least = least_signed(numbers);
                    let stored = differences(numbers, least);
                    Some(
                        (
                            FeatureTransform::ScaledOffsetSignedInt {
                                decimal_scale: scale,
                                min_value: least,
                            },
                            narrowest_unsigned(greatest_unsigned(stored) as nat),
                            stored,
                        ),
                    )
                },
            }
        },
    }
}

/// Whether values have the kind that their type and the options ask for.
pub open spec fn has_kind(
    data_type: ColumnDataType,
    values: ValuesView,
    options: PreprocessOptions,
) -> bool {
    match values {
        ValuesView::Signed(numbers) => is_signed(data_type),
        ValuesView::Unsigned(numbers) => is_unsigned(data_type),
        ValuesView::FloatBits(patterns) => is_float(data_type) && options.float_scaling
            == FloatScalingMode::Disabled,
        ValuesView::Scaled(numbers) => is_float(data_type) && options.float_scaling
            != FloatScalingMode::Disabled,
    }
}

/// Whether a type is one of signed integers.
pub open spec fn is_signed(data_type: ColumnDataType) -> bool {
    data_type == ColumnDataType::Int8 || data_type == ColumnDataType::Int16 || data_type
        == ColumnDataType::Int32 || data_type == ColumnDataType::Int64
}

/// Whether a type is one of unsigned integers.
pub open spec fn is_unsigned(data_type: ColumnDataType) -> bool {
    data_type == ColumnDataType::UInt8 || data_type == ColumnDataType::UInt16 || data_type
        == ColumnDataType::UInt32 || data_type == ColumnDataType::UInt64
}

/// Whether a type is one of floats.
pub open spec fn is_float(data_type: ColumnDataType) -> bool {
    data_type == ColumnDataType::Float16 || data_type == ColumnDataType::Float32 || data_type
        == ColumnDataType::Float64
}

/// The least of some signed numbers.
fn find_least_signed(values: &Vec<i64>) -> (least: i64)
    ensures
        least == least_signed(values@),
{
    let mut least: i64 = i64::MAX;
    let mut i: usize = 0;
    while i < values.len()
        invariant
            i <= values@.len(),
            least == least_signed(values@.take(i as int)),
        decreases values@.len() - i,
    {
        assert(values@.take(i as int + 1).drop_last() =~= values@.take(i as int));
        if values[i] < least {
            least = values[i];
        }
        i += 1;
    }
    assert(values@.take(i as int) =~= values@);
    least
}

/// The least of some unsigned numbers.
fn find_least_unsigned(values: &Vec<u64>) -> (least: u64)
    ensures
        least == least_unsigned(values@),
{
    let mut least: u64 = u64::MAX;
    let mut i: usize = 0;
    while i < values.len()
        invariant
            i <= values@.len(),
            least == least_unsigned(values@.take(i as int)),
        decreases values@.len() - i,
    {
        assert(values@.take(i as int + 1).drop_last() =~= values@.take(i as int));
        if values[i] < least {
            least = values[i];
        }
        i += 1;
    }
    assert(values@.take(i as int) =~= values@);
    least
}

/// The greatest of some unsigned numbers.
fn find_greatest(values: &Vec<u64>) -> (greatest: u64)
    ensures
        greatest == greatest_unsigned(values@),
{
    let mut greatest: u64 = 0;
    let mut i: usize = 0;
    while i < values.len()
        invariant
            i <= values@.len(),
            greatest == greatest_unsigned(values@.take(i as int)),
        decreases values@.len() - i,
    {
        assert(values@.take(i as int + 1).drop_last() =~= values@.take(i as int));
        if values[i] > greatest {
            greatest = values[i];
        }
        i += 1;
    }
    assert(values@.take(i as int) =~= values@);
    greatest
}

/// Signed numbers less another one.
fn subtract_signed(values: &Vec<i64>, less: i64) -> (out: Vec<u64>)
    ensures
        out@ == differences(values@, less),
{
    let mut out: Vec<u64> = Vec::new();
    let mut i: usize = 0;
    while i < values.len()
        invariant
            i <= values@.len(),
            out@.len() == i,
            forall|k: int| 0 <= k < i ==> #[trigger] out@[k] == word_difference(values@[k], less),
        decreases values@.len() - i,
    {
        let value: i64 = values[i];
        let word: u64 = signed_as_word(value).wrapping_sub(signed_as_word(less));
        assert(word == word_difference(value, less));
        out.push(word);
        i += 1;
    }
    assert(out@ =~= differences(values@, less));
    out
}

/// Unsigned numbers less one that none of them is below.
fn subtract_unsigned(values: &Vec<u64>, less: u64) -> (out: Vec<u64>)
    requires
        forall|i: int| 0 <= i < values@.len() ==> less <= #[trigger] values@[i],
    ensures
        out@ == Seq::new(values@.len(), |i: int| (values@[i] - less) as u64),
{
    let mut out: Vec<u64> = Vec::new();
    let mut i: usize = 0;
    while i < values.len()
        invariant
            i <= values@.len(),
            out@.len() == i,
            forall|k: int| 0 <= k < values@.len() ==> less <= #[trigger] values@[k],
            forall|k: int| 0 <= k < i ==> #[trigger] out@[k] == (values@[k] - less) as u64,
        decreases values@.len() - i,
    {
        out.push(values[i] - less);
        i += 1;
    }
    assert(out@ =~= Seq::new(values@.len(), |i: int| (values@[i] - less) as u64));
    out
}

/// A column with the narrowest type for its stored numbers.
fn narrowed(values: Vec<u64>, transform: FeatureTransform) -> (column: TransformedColumn)
    ensures
        column.values@ == values@,
        column.spec.transform == transform,
        column.spec.data_type == narrowest_unsigned(greatest_unsigned(values@) as nat),
{
    let range: u64 = find_greatest(&values);
    TransformedColumn {
        spec: FeatureSpec { data_type: FeatureDataType::smallest_unsigned_for(range), transform },
        values,
    }
}

/// The least number of a signed type, zero for other types.
pub fn fixed_signed_bias(data_type: ColumnDataType) -> (bias: i64)
    ensures
        bias == least_of_type(data_type),
{
    match data_type {
        ColumnDataType::Int8 => -128,
        ColumnDataType::Int16 => -32768,
        ColumnDataType::Int32 => -2147483648,
        ColumnDataType::Int64 => i64::MIN,
        _ => 0,
    }
}

/// The error for a column whose values do not have the kind that its type asks for.
fn wrong_kind() -> (error: EntroGdError)
    ensures
        error is InvalidDataType,
{
    EntroGdError::InvalidDataType {
        message: "column values do not have the kind of the column type".to_owned(),
    }
}

/// A column of signed integers as it is stored.
pub fn transform_signed_column(
    values: &Vec<i64>,
    data_type: ColumnDataType,
    options: &PreprocessOptions,
) -> (result: Result<TransformedColumn, EntroGdError>)
    requires
        is_signed(data_type),
    ensures
        match stored_column(data_type, ValuesView::Signed(values@), *options) {
            Some((transform, stored_type, stored)) => result matches Ok(column)
                && column.spec.transform == transform && column.spec.data_type == stored_type
                && column.values@ == stored,
            None => result matches Err(error) && error is InvalidFeatureSpec,
        },
{
    let min_value: i64 = if options.integer_zero_normalization {
        if values.len() == 0 {
            return Err(bad_features("column has no rows to derive a range from"));
        }
        find_least_signed(values)
    } else {
        fixed_signed_bias(data_type)
    };
    let stored = subtract_signed(values, min_value);
    Ok(narrowed(stored, FeatureTransform::OffsetSignedInt { min_value }))
}

/// A column of unsigned integers as it is stored.
pub fn transform_unsigned_column(
    values: &Vec<u64>,
    data_type: ColumnDataType,
    options: &PreprocessOptions,
) -> (result: Result<TransformedColumn, EntroGdError>)
    requires
        is_unsigned(data_type),
    ensures
        match stored_column(data_type, ValuesView::Unsigned(values@), *options) {
            Some((transform, stored_type, stored)) => result matches Ok(column)
                && column.spec.transform == transform && column.spec.data_type == stored_type
                && column.values@ == stored,
            None => result matches Err(error) && error is InvalidFeatureSpec,
        },
{
    if values.len() == 0 {
        return Err(bad_features("column has no rows to derive a range from"));
    }
    if !options.integer_zero_normalization {
        let kept = subtract_unsigned(values, 0);
        assert(kept@ =~= values@);
        return Ok(narrowed(kept, FeatureTransform::Verbatim));
    }
    let min_value: u64 = find_least_unsigned(values);
    proof {
        least_unsigned_bounds(values@);
    }
    let stored = subtract_unsigned(values, min_value);
    Ok(narrowed(stored, FeatureTransform::OffsetUnsignedInt { min_value }))
}

/// A column of scaled floats as it is stored.
pub fn transform_scaled_column(
    values: &Vec<i64>,
    data_type: ColumnDataType,
    options: &PreprocessOptions,
) -> (result: Result<TransformedColumn, EntroGdError>)
    requires
        is_float(data_type),
    ensures
        match stored_column(data_type, ValuesView::Scaled(values@), *options) {
            Some((transform, stored_type, stored)) => result matches Ok(column)
                && column.spec.transform == transform && column.spec.data_type == stored_type
                && column.values@ == stored,
            None => result matches Err(error) && error is InvalidDataType,
        },
{
    let decimal_scale: u8 = if options.decimal_scale <= MAX_DECIMAL_SCALE {
        options.decimal_scale
    } else {
        MAX_DECIMAL_SCALE
    };
    match options.float_scaling {
        FloatScalingMode::Disabled => Err(wrong_kind()),
        FloatScalingMode::ScaledSignedInt => {
            let stored = subtract_signed(values, i64::MIN);
            Ok(narrowed(stored, FeatureTransform::ScaledSignedInt { decimal_scale }))
        },
        FloatScalingMode::ScaledOffsetSignedInt => {
            let min_value: i64 = find_least_signed(values);
            let stored = subtract_signed(values, min_value);
            Ok(
                narrowed(
                    stored,
                    FeatureTransform::ScaledOffsetSignedInt { decimal_scale, min_value },
                ),
            )
        },
    }
}

/// A column as it is stored.
pub fn transform_column(column: &Column, options: &PreprocessOptions) -> (result: Result<
    TransformedColumn,
    EntroGdError,
>)
    ensures
        match stored_column(column.data_type, column.values@, *options) {
            Some((transform, stored_type, stored)) => result matches Ok(found)
                && found.spec.transform == transform && found.spec.data_type == stored_type
                && found.values@ == stored,
            None => result matches Err(error) && if has_kind(
                column.data_type,
                column.values@,
                *options,
            ) {
                error is InvalidFeatureSpec
            } else {
                error is InvalidDataType
            },
        },
{
    match (column.data_type, &column.values) {
        (
            ColumnDataType::Int8
            | ColumnDataType::Int16
            | ColumnDataType::Int32
            | ColumnDataType::Int64,
            ColumnValues::Signed(values),
        ) => transform_signed_column(values, column.data_type, options),
        (
            ColumnDataType::UInt8
            | ColumnDataType::UInt16
            | ColumnDataType::UInt32
            | ColumnDataType::UInt64,
            ColumnValues::Unsigned(values),
        ) => transform_unsigned_column(values, column.data_type, options),
        (
            ColumnDataType::Float16 | ColumnDataType::Float32 | ColumnDataType::Float64,
            ColumnValues::Scaled(values),
        ) => transform_scaled_column(values, column.data_type, options),
        (
            ColumnDataType::Float16 | ColumnDataType::Float32 | ColumnDataType::Float64,
            ColumnValues::FloatBits(patterns),
        ) => {
            if options.float_scaling != FloatScalingMode::Disabled {
                return Err(wrong_kind());
            }
            match FeatureDataType::from_column_type(column.data_type) {
                Ok(data_type) => {
                    let kept = subtract_unsigned(patterns, 0);
                    assert(kept@ =~= patterns@);
                    Ok(TransformedColumn { spec: FeatureSpec::new(data_type), values: kept })
                },
                Err(error) => Err(error),
            }
        },
        _ => Err(wrong_kind()),
    }
}

} // verus!
