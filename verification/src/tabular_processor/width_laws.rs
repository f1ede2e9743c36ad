//! Columns are stored in no more bits than their values need.
use vstd::arithmetic::power2::{
    lemma2_to64, lemma2_to64_rest, lemma_pow2_strictly_increases, lemma_pow2_unfold, pow2,
};
use vstd::prelude::*;

use crate::data::{
    narrowest_unsigned, significant_bits, significant_bits_bound, ColumnDataType, FeatureTransform,
    FeatureDataType,
};
use crate::tabular_processor::columns::{
    greatest_unsigned, greatest_unsigned_bounds, kept_scale, least_signed, least_signed_bounds,
    least_unsigned, least_unsigned_bounds, stored_column, FloatScalingMode, PreprocessOptions,
    ValuesView,
};
use crate::tabular_processor::inference::{
    bucket_bits, first_scale, float_spec, greatest_signed, integer_spec, signed_bucket_bits,
    signed_type, unsigned_type, IntegerColumn,
};
use crate::tabular_processor::table::narrowest_width;

verus! {

/// Whether a number of bits is that of one of the machine's integer types.
pub open spec fn is_machine_width(bits: nat) -> bool {
    bits == 8 || bits == 16 || bits == 32 || bits == 64
}

/// Whether a type is one of unsigned integers of the machine.
pub open spec fn is_machine_unsigned(data_type: FeatureDataType) -> bool {
    data_type == FeatureDataType::UInt8 || data_type == FeatureDataType::UInt16 || data_type
        == FeatureDataType::UInt32 || data_type == FeatureDataType::UInt64
}

/// Whether a type is one of signed integers of the machine.
pub open spec fn is_machine_signed(data_type: FeatureDataType) -> bool {
    data_type == FeatureDataType::Int8 || data_type == FeatureDataType::Int16 || data_type
        == FeatureDataType::Int32 || data_type == FeatureDataType::Int64
}

/// The unsigned machine type for a number holds it, and no smaller one does.
pub proof fn machine_type_is_smallest(max_value: u64, bits: nat)
    requires
        is_machine_width(bits),
    ensures
        is_machine_unsigned(unsigned_type(bucket_bits(max_value as nat))),
        max_value < pow2(unsigned_type(bucket_bits(max_value as nat)).width()),
        max_value < pow2(bits) ==> unsigned_type(bucket_bits(max_value as nat)).width() <= bits,
{
    lemma2_to64();
    lemma2_to64_rest();
}

/// The signed machine type for a range holds it, and no smaller one does.
pub proof fn signed_machine_type_is_smallest(min_value: i64, max_value: i64, bits: nat)
    requires
        is_machine_width(bits),
    ensures
        ({
            let data_type = signed_type(signed_bucket_bits(min_value as int, max_value as int));
            let half = pow2((data_type.width() - 1) as nat);
            &&& is_machine_signed(data_type)
            &&& -half <= min_value && max_value < half
            &&& -pow2((bits - 1) as nat) <= min_value && max_value < pow2((bits - 1) as nat)
                ==> data_type.width() <= bits
        }),
{
    lemma2_to64();
    lemma2_to64_rest();
}

/// A number has so many digits that one fewer would not do.
proof fn digits_are_needed(value: nat)
    requires
        value > 0,
    ensures
        significant_bits(value) >= 1,
        pow2((significant_bits(value) - 1) as nat) <= value,
    decreases value,
{
    lemma2_to64();
    if value / 2 > 0 {
        digits_are_needed(value / 2);
        lemma_pow2_unfold(significant_bits(value / 2));
    } else {
        assert(significant_bits(value / 2) == 0);
    }
}

/// The narrowest type for a number holds it. Of the machine types of 8, 16 and 32 bits and the types of
/// any width above that no narrower one does.
pub proof fn type_is_narrowest(max_value: u64, bits: nat)
    requires
        bits == 8 || bits == 16 || bits >= 32,
        max_value < pow2(bits),
    ensures
        max_value < pow2(narrowest_unsigned(max_value as nat).width()),
        narrowest_unsigned(max_value as nat).width() <= bits,
{
    narrowest_width(max_value);
    lemma2_to64();
    lemma2_to64_rest();
    if max_value > 0xffff_ffff {
        digits_are_needed(max_value as nat);
        significant_bits_bound(max_value as nat, 64);
        let width = significant_bits(max_value as nat);
        if bits < width {
            if bits < width - 1 {
                lemma_pow2_strictly_increases(bits, (width - 1) as nat);
            }
        }
    }
}

/// The greatest number is none of the less ones, and there where there are numbers.
pub proof fn greatest_signed_bounds(values: Seq<i64>)
    ensures
        forall|i: int| 0 <= i < values.len() ==> #[trigger] values[i] <= greatest_signed(values),
        values.len() > 0 ==> exists|i: int|
            0 <= i < values.len() && #[trigger] values[i] == greatest_signed(values),
    decreases values.len(),
{
    if values.len() > 0 {
        let before = values.drop_last();
        greatest_signed_bounds(before);
        assert forall|i: int| 0 <= i < values.len() implies #[trigger] values[i] <= greatest_signed(
            values,
        ) by {
            if i < before.len() {
                assert(before[i] == values[i]);
            }
        }
        if values.last() > greatest_signed(before) || before.len() == 0 {
            assert(values[values.len() - 1] == greatest_signed(values));
        } else {
            let i = choose|i: int| 0 <= i < before.len() && before[i] == greatest_signed(before);
            assert(values[i] == greatest_signed(values));
        }
    }
}

/// A column of signed integers is stored in the smallest machine type: with zero normalization one of
/// unsigned integers that holds each value less the least one, which occurs, without it one of signed
/// integers that holds each value.
pub proof fn signed_column_takes_smallest_type(
    column: IntegerColumn,
    values: Vec<i64>,
    zero_normalization: bool,
    row: int,
    bits: nat,
)
    requires
        column == IntegerColumn::Signed(values),
        0 <= row < values@.len(),
        is_machine_width(bits),
    ensures
        ({
            let spec = integer_spec(column, zero_normalization);
            let width = spec.data_type.width();
            &&& zero_normalization ==> {
                &&& is_machine_unsigned(spec.data_type)
                &&& spec.transform matches FeatureTransform::OffsetSignedInt { min_value } && {
                    &&& values@.contains(min_value)
                    &&& 0 <= values@[row] - min_value < pow2(width)
                    &&& (forall|i: int|
                        0 <= i < values@.len() ==> #[trigger] values@[i] - min_value < pow2(bits))
                        ==> width <= bits
                }
            }
            &&& !zero_normalization ==> {
                &&& is_machine_signed(spec.data_type)
                &&& spec.transform == FeatureTransform::Verbatim
                &&& -pow2((width - 1) as nat) <= values@[row] < pow2((width - 1) as nat)
                &&& (forall|i: int|
                    0 <= i < values@.len() ==> -pow2((bits - 1) as nat) <= #[trigger] values@[i]
                        < pow2((bits - 1) as nat)) ==> width <= bits
            }
        }),
{
    let least = least_signed(values@);
    let greatest = greatest_signed(values@);
    least_signed_bounds(values@);
    greatest_signed_bounds(values@);
    let low = choose|i: int| 0 <= i < values@.len() && #[trigger] values@[i] == least;
    let high = choose|i: int| 0 <= i < values@.len() && #[trigger] values@[i] == greatest;
    assert(values@[low] == least && values@[high] == greatest);
    assert(least <= values@[row] <= greatest);
    assert(values@.contains(least));
    machine_type_is_smallest((greatest - least) as u64, bits);
    signed_machine_type_is_smallest(least, greatest, bits);
}

/// A column of unsigned integers is stored in the smallest unsigned machine type that holds each value,
/// with zero normalization less the least one, which occurs.
pub proof fn unsigned_column_takes_smallest_type(
    column: IntegerColumn,
    values: Vec<u64>,
    zero_normalization: bool,
    row: int,
    bits: nat,
)
    requires
        column == IntegerColumn::Unsigned(values),
        0 <= row < values@.len(),
        is_machine_width(bits),
    ensures
        ({
            let spec = integer_spec(column, zero_normalization);
            let width = spec.data_type.width();
            &&& is_machine_unsigned(spec.data_type)
            &&& zero_normalization ==> {
                spec.transform matches FeatureTransform::OffsetUnsignedInt { min_value } && {
                    &&& values@.contains(min_value)
                    &&& 0 <= values@[row] - min_value < pow2(width)
                    &&& (forall|i: int|
                        0 <= i < values@.len() ==> #[trigger] values@[i] - min_value < pow2(bits))
                        ==> width <= bits
                }
            }
            &&& !zero_normalization ==> {
                &&& spec.transform == FeatureTransform::Verbatim
                &&& values@[row] < pow2(width)
                &&& (forall|i: int| 0 <= i < values@.len() ==> #[trigger] values@[i] < pow2(bits))
                    ==> width <= bits
            }
        }),
{
    let least = least_unsigned(values@);
    let greatest = greatest_unsigned(values@);
    least_unsigned_bounds(values@);
    greatest_unsigned_bounds(values@);
    let low = choose|i: int| 0 <= i < values@.len() && #[trigger] values@[i] == least;
    let high = choose|i: int| 0 <= i < values@.len() && #[trigger] values@[i] == greatest;
    assert(values@[low] == least && values@[high] == greatest);
    assert(least <= values@[row] <= greatest);
    assert(values@.contains(least));
    machine_type_is_smallest((greatest - least) as u64, bits);
    machine_type_is_smallest(greatest, bits);
}

/// A column of floats is scaled by the least power of ten that loses nothing, up to nine places; where
/// none does, or scaling is off, it keeps its own type.
pub proof fn floats_take_least_scale(
    verbatim: FeatureDataType,
    ranges: Seq<Option<(i64, i64)>>,
    mode: FloatScalingMode,
    scale: int,
    bits: nat,
)
    requires
        0 <= scale <= 9,
        scale < ranges.len(),
        ranges[scale] matches Some((least, greatest)) && least <= greatest,
        forall|k: int| 0 <= k < scale ==> (#[trigger] ranges[k]) is None,
        is_machine_width(bits),
    ensures
        ({
            let spec = float_spec(verbatim, ranges, mode);
            let (least, greatest) = ranges[scale]->0;
            let width = spec.data_type.width();
            match mode {
                FloatScalingMode::Disabled => spec.data_type == verbatim && spec.transform
                    == FeatureTransform::Verbatim,
                FloatScalingMode::ScaledSignedInt => {
                    &&& spec.transform == (FeatureTransform::ScaledSignedInt {
                        decimal_scale: scale as u8,
                    })
                    &&& is_machine_signed(spec.data_type)
                    &&& -pow2((width - 1) as nat) <= least && greatest < pow2((width - 1) as nat)
                    &&& -pow2((bits - 1) as nat) <= least && greatest < pow2((bits - 1) as nat)
                        ==> width <= bits
                },
                FloatScalingMode::ScaledOffsetSignedInt => {
                    &&& spec.transform == (FeatureTransform::ScaledOffsetSignedInt {
                        decimal_scale: scale as u8,
                        min_value: least,
                    })
                    &&& is_machine_unsigned(spec.data_type)
                    &&& greatest - least < pow2(width)
                    &&& greatest - least < pow2(bits) ==> width <= bits
                },
            }
        }),
{
    scale_is_first(ranges, 0, scale);
    let (least, greatest) = ranges[scale]->0;
    machine_type_is_smallest((greatest - least) as u64, bits);
    signed_machine_type_is_smallest(least, greatest, bits);
}

proof fn scale_is_first(ranges: Seq<Option<(i64, i64)>>, from: int, scale: int)
    requires
        0 <= from <= scale <= 9,
        scale < ranges.len(),
        ranges[scale] is Some,
        forall|k: int| 0 <= k < scale ==> (#[trigger] ranges[k]) is None,
    ensures
        first_scale(ranges, from) == Some(scale),
    decreases scale - from,
{
    if from < scale {
        assert(ranges[from] is None);
        scale_is_first(ranges, from + 1, scale);
    }
}

/// Without a power of ten that loses nothing a column of floats keeps its own type.
pub proof fn lossy_floats_stay(
    verbatim: FeatureDataType,
    ranges: Seq<Option<(i64, i64)>>,
    mode: FloatScalingMode,
)
    requires
        forall|k: int| 0 <= k <= 9 && k < ranges.len() ==> (#[trigger] ranges[k]) is None,
    ensures
        float_spec(verbatim, ranges, mode).data_type == verbatim,
        float_spec(verbatim, ranges, mode).transform == FeatureTransform::Verbatim,
{
    no_scale_is_found(ranges, 0);
}

proof fn no_scale_is_found(ranges: Seq<Option<(i64, i64)>>, from: int)
    requires
        0 <= from <= 10,
        forall|k: int| 0 <= k <= 9 && k < ranges.len() ==> (#[trigger] ranges[k]) is None,
    ensures
        first_scale(ranges, from) is None,
    decreases 10 - from,
{
    if from < 10 {
        no_scale_is_found(ranges, from + 1);
        if from < ranges.len() {
            assert(ranges[from] is None);
        }
    }
}

/// Stored integers differ as the integers do, each fits the type that is stored, and the type is no
/// wider than the greatest one needs. With zero normalization the least one is stored as zero.
pub proof fn stored_integers_keep_distances(
    data_type: ColumnDataType,
    numbers: Seq<i64>,
    options: PreprocessOptions,
    first: int,
    second: int,
    bits: nat,
)
    requires
        stored_column(data_type, ValuesView::Signed(numbers), options) is Some,
        0 <= first < numbers.len(),
        0 <= second < numbers.len(),
        options.integer_zero_normalization,
        bits == 8 || bits == 16 || bits >= 32,
    ensures
        ({
            let (transform, stored_type, stored) = stored_column(
                data_type,
                ValuesView::Signed(numbers),
                options,
            )->0;
            &&& stored.len() == numbers.len()
            &&& stored.contains(0)
            &&& stored[first] - stored[second] == numbers[first] - numbers[second]
            &&& stored[first] < pow2(stored_type.width())
            &&& (forall|i: int| 0 <= i < stored.len() ==> #[trigger] stored[i] < pow2(bits))
                ==> stored_type.width() <= bits
        }),
{
    let (transform, stored_type, stored) = stored_column(
        data_type,
        ValuesView::Signed(numbers),
        options,
    )->0;
    least_signed_bounds(numbers);
    let least = choose|i: int| 0 <= i < numbers.len() && #[trigger] numbers[i] == least_signed(numbers);
    assert(numbers[least] == least_signed(numbers));
    assert(stored[least] == 0);
    assert(least_signed(numbers) <= numbers[first] && least_signed(numbers) <= numbers[second]);
    stored_fit(stored, first, bits);
}

/// Numbers fit the narrowest type for the greatest of them.
proof fn stored_fit(stored: Seq<u64>, row: int, bits: nat)
    requires
        0 <= row < stored.len(),
        bits == 8 || bits == 16 || bits >= 32,
    ensures
        stored[row] < pow2(narrowest_unsigned(greatest_unsigned(stored) as nat).width()),
        (forall|i: int| 0 <= i < stored.len() ==> #[trigger] stored[i] < pow2(bits))
            ==> narrowest_unsigned(greatest_unsigned(stored) as nat).width() <= bits,
{
    let greatest = greatest_unsigned(stored);
    greatest_unsigned_bounds(stored);
    narrowest_width(greatest);
    let at = choose|i: int| 0 <= i < stored.len() && #[trigger] stored[i] == greatest;
    assert(stored[at] == greatest);
    assert(stored[row] <= greatest);
    if forall|i: int| 0 <= i < stored.len() ==> #[trigger] stored[i] < pow2(bits) {
        type_is_narrowest(greatest, bits);
    }
}

/// Stored unsigned integers differ as the integers do, each fits the type that is stored, and the type
/// is no wider than the greatest one needs. With zero normalization the least one is stored as zero,
/// without it each one as it is.
pub proof fn stored_unsigned_integers_keep_distances(
    data_type: ColumnDataType,
    numbers: Seq<u64>,
    options: PreprocessOptions,
    first: int,
    second: int,
    bits: nat,
)
    requires
        stored_column(data_type, ValuesView::Unsigned(numbers), options) is Some,
        0 <= first < numbers.len(),
        0 <= second < numbers.len(),
        bits == 8 || bits == 16 || bits >= 32,
    ensures
        ({
            let (transform, stored_type, stored) = stored_column(
                data_type,
                ValuesView::Unsigned(numbers),
                options,
            )->0;
            &&& stored.len() == numbers.len()
            &&& options.integer_zero_normalization ==> stored.contains(0)
            &&& !options.integer_zero_normalization ==> stored == numbers
            &&& stored[first] - stored[second] == numbers[first] - numbers[second]
            &&& stored[first] < pow2(stored_type.width())
            &&& (forall|i: int| 0 <= i < stored.len() ==> #[trigger] stored[i] < pow2(bits))
                ==> stored_type.width() <= bits
        }),
{
    let (transform, stored_type, stored) = stored_column(
        data_type,
        ValuesView::Unsigned(numbers),
        options,
    )->0;
    least_unsigned_bounds(numbers);
    let least = choose|i: int|
        0 <= i < numbers.len() && #[trigger] numbers[i] == least_unsigned(numbers);
    assert(numbers[least] == least_unsigned(numbers));
    assert(options.integer_zero_normalization ==> stored[least] == 0);
    assert(least_unsigned(numbers) <= numbers[first] && least_unsigned(numbers) <= numbers[second]);
    stored_fit(stored, first, bits);
}

/// The bits of a signed type.
pub open spec fn signed_bits(data_type: ColumnDataType) -> nat {
    match data_type {
        ColumnDataType::Int8 => 8,
        ColumnDataType::Int16 => 16,
        ColumnDataType::Int32 => 32,
        _ => 64,
    }
}

/// Without zero normalization signed integers of a type are stored above half of what the type holds:
/// they keep their distances, and the least number of the type would be zero.
pub proof fn biased_integers_keep_distances(
    data_type: ColumnDataType,
    numbers: Seq<i64>,
    options: PreprocessOptions,
    first: int,
    second: int,
)
    requires
        stored_column(data_type, ValuesView::Signed(numbers), options) is Some,
        !options.integer_zero_normalization,
        0 <= first < numbers.len(),
        0 <= second < numbers.len(),
        forall|i: int|
            0 <= i < numbers.len() ==> -pow2((signed_bits(data_type) - 1) as nat)
                <= #[trigger] numbers[i] < pow2((signed_bits(data_type) - 1) as nat),
    ensures
        ({
            let (transform, stored_type, stored) = stored_column(
                data_type,
                ValuesView::Signed(numbers),
                options,
            )->0;
            &&& stored.len() == numbers.len()
            &&& stored[first] == numbers[first] + pow2((signed_bits(data_type) - 1) as nat)
            &&& stored[first] - stored[second] == numbers[first] - numbers[second]
            &&& stored[first] < pow2(stored_type.width())
            &&& stored_type.width() <= signed_bits(data_type)
        }),
{
    let (transform, stored_type, stored) = stored_column(
        data_type,
        ValuesView::Signed(numbers),
        options,
    )->0;
    lemma2_to64();
    lemma2_to64_rest();
    assert(-pow2((signed_bits(data_type) - 1) as nat) <= numbers[first]);
    assert(-pow2((signed_bits(data_type) - 1) as nat) <= numbers[second]);
    assert forall|i: int| 0 <= i < stored.len() implies #[trigger] stored[i] < pow2(
        signed_bits(data_type),
    ) by {
        assert(-pow2((signed_bits(data_type) - 1) as nat) <= numbers[i] < pow2(
            (signed_bits(data_type) - 1) as nat,
        ));
    }
    stored_fit(stored, first, signed_bits(data_type));
}

/// Scaled floats keep their distances, each fits the type that is stored, and less the least one the
/// least one is stored as zero.
pub proof fn scaled_values_keep_distances(
    data_type: ColumnDataType,
    numbers: Seq<i64>,
    options: PreprocessOptions,
    first: int,
    second: int,
)
    requires
        stored_column(data_type, ValuesView::Scaled(numbers), options) is Some,
        0 <= first < numbers.len(),
        0 <= second < numbers.len(),
    ensures
        ({
            let (transform, stored_type, stored) = stored_column(
                data_type,
                ValuesView::Scaled(numbers),
                options,
            )->0;
            &&& stored.len() == numbers.len()
            &&& stored[first] - stored[second] == numbers[first] - numbers[second]
            &&& stored[first] < pow2(stored_type.width())
            &&& options.float_scaling == FloatScalingMode::ScaledOffsetSignedInt
                ==> stored.contains(0)
            &&& options.float_scaling == FloatScalingMode::ScaledSignedInt ==> stored[first]
                == numbers[first] - i64::MIN
        }),
{
    let (transform, stored_type, stored) = stored_column(
        data_type,
        ValuesView::Scaled(numbers),
        options,
    )->0;
    least_signed_bounds(numbers);
    let least = choose|i: int| 0 <= i < numbers.len() && #[trigger] numbers[i] == least_signed(numbers);
    assert(numbers[least] == least_signed(numbers));
    assert(options.float_scaling == FloatScalingMode::ScaledOffsetSignedInt ==> stored[least] == 0);
    assert(least_signed(numbers) <= numbers[first] && least_signed(numbers) <= numbers[second]);
    stored_fit(stored, first, 64);
}

/// Scaling keeps the greatest number of decimal places that is neither more than asked for nor more than
/// nine.
pub proof fn kept_scale_is_greatest(options: PreprocessOptions, scale: u8)
    ensures
        kept_scale(options) <= options.decimal_scale,
        kept_scale(options) <= 9,
        scale <= options.decimal_scale && scale <= 9 ==> scale <= kept_scale(options),
{
}

} // verus!
