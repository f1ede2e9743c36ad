//! Storage types for columns from the range of their values.
use vstd::arithmetic::power2::{lemma2_to64, lemma2_to64_rest, lemma_pow2_strictly_increases, pow2};
use vstd::prelude::*;

use crate::bits::{high_digits_first, BitStream, MAX_STREAM_BITS};
use crate::data::{FeatureDataType, FeatureSpec, FeatureTransform};
use crate::encoding::huffman::{spelled, spelled_bound, spelled_digits};
use crate::tabular_processor::columns::{
    greatest_unsigned, least_signed, least_unsigned, FloatScalingMode, MAX_DECIMAL_SCALE,
};

verus! {

/// The bits of the smallest of the machine's unsigned types that holds a number.
pub open spec fn bucket_bits(max_value: nat) -> nat {
    if max_value < 0x100 {
        8
    } else if max_value < 0x1_0000 {
        16
    } else if max_value < 0x1_0000_0000 {
        32
    } else {
        64
    }
}

/// The bits of the smallest of the machine's signed types that holds a range.
pub open spec fn signed_bucket_bits(min_value: int, max_value: int) -> nat {
    if -0x80 <= min_value && max_value < 0x80 {
        8
    } else if -0x8000 <= min_value && max_value < 0x8000 {
        16
    } else if -0x8000_0000 <= min_value && max_value < 0x8000_0000 {
        32
    } else {
        64
    }
}

/// The greatest of some signed numbers, the least number there is for none.
pub open spec fn greatest_signed(values: Seq<i64>) -> i64
    decreases values.len(),
{
    if values.len() == 0 {
        i64::MIN
    } else {
        let before = greatest_signed(values.drop_last());
        if values.last() > before {
            values.last()
        } else {
            before
        }
    }
}

/// How far the greatest value of a range is from the least one.
pub fn shifted_max_signed(min_value: i64, max_value: i64) -> (distance: u64)
    requires
        min_value <= max_value,
    ensures
        distance == max_value - min_value,
{
    (max_value as i128 - min_value as i128) as u64
}

/// The bits of the smallest of the machine's unsigned types that holds a number.
pub fn storage_bucket_bits(max_value: u64) -> (bits: usize)
    ensures
        bits == bucket_bits(max_value as nat),
{
    if max_value <= 0xff {
        8
    } else if max_value <= 0xffff {
        16
    } else if max_value <= 0xffff_ffff {
        32
    } else {
        64
    }
}

/// The bits of the smallest of the machine's signed types that holds a range.
pub fn signed_storage_bucket_bits(min_value: i64, max_value: i64) -> (bits: usize)
    ensures
        bits == signed_bucket_bits(min_value as int, max_value as int),
{
    if min_value >= -0x80 && max_value <= 0x7f {
        8
    } else if min_value >= -0x8000 && max_value <= 0x7fff {
        16
    } else if min_value >= -0x8000_0000 && max_value <= 0x7fff_ffff {
        32
    } else {
        64
    }
}

/// The unsigned type with the given number of bits.
pub open spec fn unsigned_type(bits: nat) -> FeatureDataType {
    if bits == 8 {
        FeatureDataType::UInt8
    } else if bits == 16 {
        FeatureDataType::UInt16
    } else if bits == 32 {
        FeatureDataType::UInt32
    } else {
        FeatureDataType::UInt64
    }
}

/// The signed type with the given number of bits.
pub open spec fn signed_type(bits: nat) -> FeatureDataType {
    if bits == 8 {
        FeatureDataType::Int8
    } else if bits == 16 {
        FeatureDataType::Int16
    } else if bits == 32 {
        FeatureDataType::Int32
    } else {
        FeatureDataType::Int64
    }
}

fn unsigned_type_of(bits: usize) -> (data_type: FeatureDataType)
    ensures
        data_type == unsigned_type(bits as nat),
{
    if bits == 8 {
        FeatureDataType::UInt8
    } else if bits == 16 {
        FeatureDataType::UInt16
    } else if bits == 32 {
        FeatureDataType::UInt32
    } else {
        FeatureDataType::UInt64
    }
}

fn signed_type_of(bits: usize) -> (data_type: FeatureDataType)
    ensures
        data_type == signed_type(bits as nat),
{
    if bits == 8 {
        FeatureDataType::Int8
    } else if bits == 16 {
        FeatureDataType::Int16
    } else if bits == 32 {
        FeatureDataType::Int32
    } else {
        FeatureDataType::Int64
    }
}

/// The range of some signed numbers, zero to zero for none.
pub open spec fn signed_range(values: Seq<i64>) -> (i64, i64) {
    if values.len() == 0 {
        (0, 0)
    } else {
        (least_signed(values), greatest_signed(values))
    }
}

/// The range of some unsigned numbers, zero to zero for none.
pub open spec fn unsigned_range(values: Seq<u64>) -> (u64, u64) {
    if values.len() == 0 {
        (0, 0)
    } else {
        (least_unsigned(values), greatest_unsigned(values))
    }
}

/// The least number is not above the greatest one.
proof fn signed_range_ordered(values: Seq<i64>)
    ensures
        signed_range(values).0 <= signed_range(values).1,
    decreases values.len(),
{
    if values.len() > 1 {
        signed_range_ordered(values.drop_last());
    }
}

/// The least number is not above the greatest one.
proof fn unsigned_range_ordered(values: Seq<u64>)
    ensures
        unsigned_range(values).0 <= unsigned_range(values).1,
    decreases values.len(),
{
    if values.len() > 1 {
        unsigned_range_ordered(values.drop_last());
    }
}

/// The range of some signed numbers.
fn find_signed_range(values: &Vec<i64>) -> (range: (i64, i64))
    ensures
        range == signed_range(values@),
        range.0 <= range.1,
{
    proof {
        signed_range_ordered(values@);
    }
    if values.len() == 0 {
        return (0, 0);
    }
    let mut least: i64 = i64::MAX;
    let mut greatest: i64 = i64::MIN;
    let mut i: usize = 0;
    while i < values.len()
        invariant
            i <= values@.len(),
            least == least_signed(values@.take(i as int)),
            greatest == greatest_signed(values@.take(i as int)),
        decreases values@.len() - i,
    {
        assert(values@.take(i as int + 1).drop_last() =~= values@.take(i as int));
        if values[i] < least {
            least = values[i];
        }
        if values[i] > greatest {
            greatest = values[i];
        }
        i += 1;
    }
    assert(values@.take(i as int) =~= values@);
    (least, greatest)
}

/// The range of some unsigned numbers.
fn find_unsigned_range(values: &Vec<u64>) -> (range: (u64, u64))
    ensures
        range == unsigned_range(values@),
        range.0 <= range.1,
{
    proof {
        unsigned_range_ordered(values@);
    }
    if values.len() == 0 {
        return (0, 0);
    }
    let mut least: u64 = u64::MAX;
    let mut greatest: u64 = 0;
    let mut i: usize = 0;
    while i < values.len()
        invariant
            i <= values@.len(),
            least == least_unsigned(values@.take(i as int)),
            greatest == greatest_unsigned(values@.take(i as int)),
        decreases values@.len() - i,
    {
        assert(values@.take(i as int + 1).drop_last() =~= values@.take(i as int));
        if values[i] < least {
            least = values[i];
        }
        if values[i] > greatest {
            greatest = values[i];
        }
        i += 1;
    }
    assert(values@.take(i as int) =~= values@);
    (least, greatest)
}

/// A column of integers.
#[derive(Debug, PartialEq, Eq)]
pub enum IntegerColumn {
    Signed(Vec<i64>),
    Unsigned(Vec<u64>),
}

/// How a column of integers is stored: less its least value, or as it is.
pub open spec fn integer_spec(column: IntegerColumn, zero_normalization: bool) -> FeatureSpec {
    match column {
        IntegerColumn::Signed(values) => {
            let (least, greatest) = signed_range(values@);
            if zero_normalization {
                FeatureSpec {
                    data_type: unsigned_type(bucket_bits((greatest - least) as nat)),
                    transform: FeatureTransform::OffsetSignedInt { min_value: least },
                }
            } else {
                FeatureSpec {
                    data_type: signed_type(signed_bucket_bits(least as int, greatest as int)),
                    transform: FeatureTransform::Verbatim,
                }
            }
        },
        IntegerColumn::Unsigned(values) => {
            let (least, greatest) = unsigned_range(values@);
            if zero_normalization {
                FeatureSpec {
                    data_type: unsigned_type(bucket_bits((greatest - least) as nat)),
                    transform: FeatureTransform::OffsetUnsignedInt { min_value: least },
                }
            } else {
                FeatureSpec {
                    data_type: unsigned_type(bucket_bits(greatest as nat)),
                    transform: FeatureTransform::Verbatim,
                }
            }
        },
    }
}

/// How a column of integers is stored.
pub fn infer_integer_feature_spec(column: &IntegerColumn, integer_zero_normalization: bool) -> (spec:
    FeatureSpec)
    ensures
        spec == integer_spec(*column, integer_zero_normalization),
{
    match column {
        IntegerColumn::Signed(values) => {
            let (min_value, max_value) = find_signed_range(values);
            if integer_zero_normalization {
                let bits: usize = storage_bucket_bits(shifted_max_signed(min_value, max_value));
                FeatureSpec {
                    data_type: unsigned_type_of(bits),
                    transform: FeatureTransform::OffsetSignedInt { min_value },
                }
            } else {
                let bits: usize = signed_storage_bucket_bits(min_value, max_value);
                FeatureSpec::new(signed_type_of(bits))
            }
        },
        IntegerColumn::Unsigned(values) => {
            let (min_value, max_value) = find_unsigned_range(values);
            if integer_zero_normalization {
                let bits: usize = storage_bucket_bits(max_value - min_value);
                FeatureSpec {
                    data_type: unsigned_type_of(bits),
                    transform: FeatureTransform::OffsetUnsignedInt { min_value },
                }
            } else {
                let bits: usize = storage_bucket_bits(max_value);
                FeatureSpec::new(unsigned_type_of(bits))
            }
        },
    }
}

/// The first power of ten at which a column of floats becomes integers without loss, none where
/// it does at no power that is tried.
pub open spec fn first_scale(ranges: Seq<Option<(i64, i64)>>, from: int) -> Option<int>
    decreases ranges.len() - from,
{
    if from < 0 || from >= ranges.len() || from > MAX_DECIMAL_SCALE {
        None
    } else if ranges[from] is Some {
        Some(from)
    } else {
        first_scale(ranges, from + 1)
    }
}

/// How a column of floats is stored, where `ranges` holds, for each power of ten that may be
/// tried, the range of the scaled values if scaling loses nothing.
pub open spec fn float_spec(
    verbatim: FeatureDataType,
    ranges: Seq<Option<(i64, i64)>>,
    mode: FloatScalingMode,
) -> FeatureSpec {
    match first_scale(ranges, 0) {
        Some(scale) => {
            let (least, greatest) = ranges[scale]->0;
            match mode {
                FloatScalingMode::ScaledOffsetSignedInt => FeatureSpec {
                    data_type: unsigned_type(bucket_bits((greatest - least) as nat)),
                    transform: FeatureTransform::ScaledOffsetSignedInt {
                        decimal_scale: scale as u8,
                        min_value: least,
                    },
                },
                FloatScalingMode::ScaledSignedInt => FeatureSpec {
                    data_type: signed_type(signed_bucket_bits(least as int, greatest as int)),
                    transform: FeatureTransform::ScaledSignedInt { decimal_scale: scale as u8 },
                },
                FloatScalingMode::Disabled => FeatureSpec {
                    data_type: verbatim,
                    transform: FeatureTransform::Verbatim,
                },
            }
        },
        None => FeatureSpec { data_type: verbatim, transform: FeatureTransform::Verbatim },
    }
}

/// How a column of floats is stored.
pub fn infer_float_feature_spec(
    verbatim: FeatureDataType,
    ranges: &Vec<Option<(i64, i64)>>,
    mode: FloatScalingMode,
) -> (spec: FeatureSpec)
    requires
        forall|k: int|
            0 <= k < ranges@.len() ==> ((#[trigger] ranges@[k]) matches Some(range) ==> range.0
                <= range.1),
    ensures
        spec == float_spec(verbatim, ranges@, mode),
{
    let mut scale: usize = 0;
    while scale < ranges.len() && scale <= MAX_DECIMAL_SCALE as usize
        invariant
            scale <= ranges@.len(),
            scale <= MAX_DECIMAL_SCALE + 1,
            first_scale(ranges@, 0) == first_scale(ranges@, scale as int),
            forall|k: int|
                0 <= k < ranges@.len() ==> ((#[trigger] ranges@[k]) matches Some(range) ==> range.0
                    <= range.1),
        decreases ranges@.len() - scale,
    {
        if let Some(range) = ranges[scale] {
            let (min_value, max_value) = range;
            let decimal_scale: u8 = scale as u8;
            return match mode {
                FloatScalingMode::ScaledOffsetSignedInt => {
                    let bits: usize = storage_bucket_bits(shifted_max_signed(min_value, max_value));
                    FeatureSpec {
                        data_type: unsigned_type_of(bits),
                        transform: FeatureTransform::ScaledOffsetSignedInt {
                            decimal_scale,
                            min_value,
                        },
                    }
                },
                FloatScalingMode::ScaledSignedInt => {
                    let bits: usize = signed_storage_bucket_bits(min_value, max_value);
                    FeatureSpec {
                        data_type: signed_type_of(bits),
                        transform: FeatureTransform::ScaledSignedInt { decimal_scale },
                    }
                },
                FloatScalingMode::Disabled => FeatureSpec::new(verbatim),
            };
        }
        scale += 1;
    }
    FeatureSpec::new(verbatim)
}

/// The low bits of a signed number in two's complement.
pub open spec fn complement(value: int, bits: nat) -> nat {
    (value % (pow2(bits) as int)) as nat
}

/// The low bits of a signed number in two's complement.
pub fn value_to_bits(value: i64, bits: usize) -> (word: u64)
    requires
        1 <= bits <= 64,
    ensures
        word == complement(value as int, bits as nat),
{
    proof {
        lemma2_to64();
        lemma2_to64_rest();
    }
    let mut modulus: u128 = 1;
    let mut k: usize = 0;
    while k < bits
        invariant
            k <= bits <= 64,
            modulus == pow2(k as nat),
            pow2(64) == 0x1_0000_0000_0000_0000,
        decreases bits - k,
    {
        proof {
            vstd::arithmetic::power2::lemma_pow2_unfold(k as nat + 1);
            if k + 1 < 64 {
                lemma_pow2_strictly_increases(k as nat + 1, 64);
            }
        }
        modulus = modulus * 2;
        k += 1;
    }
    proof {
        if bits < 64 {
            lemma_pow2_strictly_increases(bits as nat, 64);
        }
        vstd::arithmetic::power2::lemma_pow2_pos(bits as nat);
        complement_of_sum(value as int, bits as nat);
    }
    let lifted: u128 = (value as i128 + 0x1_0000_0000_0000_0000i128) as u128;
    (lifted % modulus) as u64
}

/// Adding a whole word changes no low bits.
proof fn complement_of_sum(value: int, bits: nat)
    requires
        1 <= bits <= 64,
    ensures
        (value + 0x1_0000_0000_0000_0000) % (pow2(bits) as int) == value % (pow2(bits) as int),
{
    lemma2_to64_rest();
    let rest = (64 - bits) as nat;
    vstd::arithmetic::power2::lemma_pow2_adds(rest, bits);
    vstd::arithmetic::power2::lemma_pow2_pos(bits);
    let m = pow2(bits) as int;
    vstd::arithmetic::div_mod::lemma_mod_multiples_vanish(pow2(rest) as int, value, m);
    assert(pow2(rest) * m == m * pow2(rest)) by (nonlinear_arith);
}

/// The signed number that bits in two's complement stand for.
pub open spec fn signed_value(word: nat, bits: nat) -> int {
    if 2 * word < pow2(bits) {
        word as int
    } else {
        word - pow2(bits)
    }
}

/// The signed number that bits in two's complement stand for.
pub fn decode_signed(word: u64, bits: usize) -> (value: i64)
    requires
        1 <= bits <= 64,
        word < pow2(bits as nat),
    ensures
        value == signed_value(word as nat, bits as nat),
{
    proof {
        lemma2_to64();
        lemma2_to64_rest();
    }
    let mut modulus: u128 = 1;
    let mut k: usize = 0;
    while k < bits
        invariant
            k <= bits <= 64,
            modulus == pow2(k as nat),
            pow2(64) == 0x1_0000_0000_0000_0000,
        decreases bits - k,
    {
        proof {
            vstd::arithmetic::power2::lemma_pow2_unfold(k as nat + 1);
            if k + 1 < 64 {
                lemma_pow2_strictly_increases(k as nat + 1, 64);
            }
        }
        modulus = modulus * 2;
        k += 1;
    }
    proof {
        if bits < 64 {
            lemma_pow2_strictly_increases(bits as nat, 64);
        }
    }
    if 2 * (word as u128) < modulus {
        word as i64
    } else {
        (word as i128 - modulus as i128) as i64
    }
}

/// A signed number that fits is found again from its low bits.
pub proof fn signed_is_found_again(value: int, bits: nat)
    requires
        bits >= 1,
        -(pow2((bits - 1) as nat) as int) <= value < pow2((bits - 1) as nat),
    ensures
        signed_value(complement(value, bits), bits) == value,
        complement(value, bits) < pow2(bits),
{
    let half = pow2((bits - 1) as nat) as int;
    let m = pow2(bits) as int;
    vstd::arithmetic::power2::lemma_pow2_unfold(bits);
    vstd::arithmetic::power2::lemma_pow2_pos((bits - 1) as nat);
    if value >= 0 {
        vstd::arithmetic::div_mod::lemma_small_mod(value as nat, m as nat);
    } else {
        assert(value % m == value + m) by {
            vstd::arithmetic::div_mod::lemma_mod_add_multiples_vanish(value, m);
            vstd::arithmetic::div_mod::lemma_small_mod((value + m) as nat, m as nat);
        }
    }
}

/// Appends the low bits of a number, the most significant one first.
pub fn push_bits(stream: &mut BitStream, value: u64, bits: usize)
    requires
        bits <= 64,
        old(stream)@.len() + bits <= MAX_STREAM_BITS,
    ensures
        final(stream)@ == old(stream)@ + high_digits_first(value as nat, bits as nat),
{
    stream.append_high_first(value, bits);
}

/// The number that bits spell, the most significant one first.
pub fn bits_to_u64(bits: &BitStream) -> (value: u64)
    requires
        bits@.len() <= 64,
    ensures
        value == spelled(bits@, 0, bits@.len()),
{
    let width: usize = bits.bit_len();
    let mut value: u64 = 0;
    let mut i: usize = 0;
    while i < width
        invariant
            i <= width == bits@.len(),
            width <= 64,
            value == spelled(bits@, 0, i as nat),
        decreases width - i,
    {
        proof {
            spelled_bound(bits@, 0, i as nat + 1);
            lemma2_to64_rest();
            if i + 1 < 64 {
                lemma_pow2_strictly_increases(i as nat + 1, 64);
            }
        }
        value = 2 * value + (if bits.bit(i) {
            1
        } else {
            0
        });
        i += 1;
    }
    value
}

/// The low bits of a number, written and read again.
pub proof fn pushed_bits_are_read_back(value: nat, bits: nat)
    requires
        value < pow2(bits),
    ensures
        spelled(high_digits_first(value, bits), 0, bits) == value,
{
    lemma2_to64();
    spelled_digits(value, bits, bits);
    assert((bits - bits) as nat == 0);
    assert(value / pow2(0) == value) by {
        assert(pow2(0) == 1);
    }
}

} // verus!
