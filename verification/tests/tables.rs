//! Tables as datasets and back.
use entro_gd::bits::BitStream;
use entro_gd::data::{
    BitDataReconstructionInfo, ColumnDataType, FeatureDataType, FeatureSpec, FeatureTransform,
};
use entro_gd::dataset::BitDataSet;
use entro_gd::error::EntroGdError;
use entro_gd::filter_pipeline::{Filter, FilterExt};
use entro_gd::tabular_processor::columns::{
    transform_column, Column, ColumnValues, FloatScalingMode, PreprocessOptions,
};
use entro_gd::tabular_processor::inference::{
    bits_to_u64, decode_signed, infer_float_feature_spec, infer_integer_feature_spec, push_bits,
    shifted_max_signed, signed_storage_bucket_bits, storage_bucket_bits, value_to_bits,
    IntegerColumn,
};
use entro_gd::tabular_processor::restore::{
    restore_columns, restore_feature_value, ReconstructDataFrame, RestoredValue,
};
use entro_gd::tabular_processor::table::BuildBitDataSet;

fn column(name: &str, data_type: ColumnDataType, values: ColumnValues) -> Column {
    Column { name: name.to_string(), data_type, values }
}

fn load_le(bits: &BitStream) -> u64 {
    bits.to_bools().iter().enumerate().map(|(i, bit)| (*bit as u64) << i).sum()
}

/// The scaled range of floats at each number of decimal places where scaling loses nothing.
fn scaled_ranges(values: &[f64], max_scale: u8) -> Vec<Option<(i64, i64)>> {
    (0..=max_scale)
        .map(|scale| {
            let factor = 10f64.powi(scale as i32);
            let scaled: Vec<f64> = values.iter().map(|v| (v * factor).round()).collect();
            let exact = values.iter().zip(scaled.iter()).all(|(v, s)| s / factor == *v);
            if exact {
                let least = scaled.iter().map(|s| *s as i64).min().unwrap();
                let greatest = scaled.iter().map(|s| *s as i64).max().unwrap();
                Some((least, greatest))
            } else {
                None
            }
        })
        .collect()
}

#[test]
fn preprocessor_smallest_unsigned_for_picks_tightest_type() {
    assert_eq!(FeatureDataType::smallest_unsigned_for(0), FeatureDataType::UInt8);
    assert_eq!(FeatureDataType::smallest_unsigned_for(255), FeatureDataType::UInt8);
    assert_eq!(FeatureDataType::smallest_unsigned_for(256), FeatureDataType::UInt16);
    assert_eq!(
        FeatureDataType::smallest_unsigned_for(u16::MAX as u64),
        FeatureDataType::UInt16
    );
    assert_eq!(
        FeatureDataType::smallest_unsigned_for(u16::MAX as u64 + 1),
        FeatureDataType::UInt32
    );
    assert_eq!(
        FeatureDataType::smallest_unsigned_for(u32::MAX as u64 + 1),
        FeatureDataType::UInt(33)
    );
}

fn signed_column_case() {
    let s = column(
        "temperature",
        ColumnDataType::Int32,
        ColumnValues::Signed(vec![-10, 0, 5, 20]),
    );
    let transformed = transform_column(&s, &PreprocessOptions::default()).unwrap();
    assert_eq!(transformed.spec.data_type, FeatureDataType::UInt8);
    assert_eq!(
        transformed.spec.transform,
        FeatureTransform::OffsetSignedInt { min_value: -10 }
    );
    assert_eq!(transformed.values, vec![0, 10, 15, 30]);
}

#[test]
fn preprocessor_signed_column_zero_normalizes_to_smallest_uint() {
    signed_column_case();
}

#[test]
fn tabular_processor_signed_column_zero_normalizes_to_smallest_uint() {
    signed_column_case();
}

fn unsigned_column_case() {
    let s = column(
        "count",
        ColumnDataType::UInt32,
        ColumnValues::Unsigned(vec![100, 105, 110]),
    );
    let transformed = transform_column(&s, &PreprocessOptions::default()).unwrap();
    assert_eq!(transformed.spec.data_type, FeatureDataType::UInt8);
    assert_eq!(
        transformed.spec.transform,
        FeatureTransform::OffsetUnsignedInt { min_value: 100 }
    );
    assert_eq!(transformed.values, vec![0, 5, 10]);
}

#[test]
fn preprocessor_unsigned_column_zero_normalizes() {
    unsigned_column_case();
}

#[test]
fn tabular_processor_unsigned_column_zero_normalizes() {
    unsigned_column_case();
}

fn float_column_case() {
    let mut options = PreprocessOptions::default();
    options.decimal_scale = 2;
    let scaled = [1.50f64, 2.25, 0.75]
        .iter()
        .map(|v| (v * 100.0).round() as i64)
        .collect();
    let s = column("price", ColumnDataType::Float64, ColumnValues::Scaled(scaled));
    let transformed = transform_column(&s, &options).unwrap();
    match transformed.spec.transform {
        FeatureTransform::ScaledOffsetSignedInt { decimal_scale, min_value } => {
            assert_eq!(decimal_scale, 2);
            assert_eq!(min_value, 75);
        }
        other => panic!("unexpected transform: {:?}", other),
    }
    assert_eq!(transformed.values, vec![75, 150, 0]);
}

#[test]
fn preprocessor_float_column_scales_and_offsets() {
    float_column_case();
}

#[test]
fn tabular_processor_float_column_scales_and_offsets() {
    float_column_case();
}

fn two_columns() -> Vec<Column> {
    vec![
        column("a", ColumnDataType::Int32, ColumnValues::Signed(vec![-5, 0, 5])),
        column("b", ColumnDataType::Int32, ColumnValues::Signed(vec![10, 20, 30])),
    ]
}

fn bit_storage_case() {
    let dataset =
        BitDataSet::from_columns(two_columns(), PreprocessOptions::default(), false).unwrap();
    assert_eq!(dataset.num_rows(), 3);
    assert_eq!(dataset.num_features(), 2);

    assert_eq!(load_le(&dataset.get_feature(0, 0)), 0);
    assert_eq!(load_le(&dataset.get_feature(1, 0)), 5);
    assert_eq!(load_le(&dataset.get_feature(2, 0)), 10);

    assert_eq!(load_le(&dataset.get_feature(0, 1)), 0);
    assert_eq!(load_le(&dataset.get_feature(1, 1)), 10);
    assert_eq!(load_le(&dataset.get_feature(2, 1)), 20);
}

#[test]
fn preprocessor_from_dataframe_round_trips_values_through_bit_storage() {
    bit_storage_case();
}

#[test]
fn tabular_processor_from_dataframe_round_trips_values_through_bit_storage() {
    bit_storage_case();
}

#[test]
fn test_integer_columns_are_offset_and_bucketed() {
    let spec0 = infer_integer_feature_spec(&IntegerColumn::Signed(vec![-5, -1, 10]), true);
    assert_eq!(spec0.data_type.bits(), 8);
    assert!(matches!(
        spec0.transform,
        FeatureTransform::OffsetSignedInt { min_value: -5 }
    ));

    let spec1 = infer_integer_feature_spec(&IntegerColumn::Unsigned(vec![1000, 1001, 1005]), true);
    assert_eq!(spec1.data_type.bits(), 8);
    assert!(matches!(
        spec1.transform,
        FeatureTransform::OffsetUnsignedInt { min_value: 1000 }
    ));
}

#[test]
fn test_integer_columns_can_disable_zero_normalization() {
    let spec0 = infer_integer_feature_spec(&IntegerColumn::Signed(vec![-5, -1, 10]), false);
    assert_eq!(spec0.data_type.bits(), 8);
    assert!(matches!(spec0.transform, FeatureTransform::Verbatim));

    let spec1 =
        infer_integer_feature_spec(&IntegerColumn::Unsigned(vec![1000, 1001, 1005]), false);
    assert_eq!(spec1.data_type.bits(), 16);
    assert!(matches!(spec1.transform, FeatureTransform::Verbatim));
}

#[test]
fn tabular_preprocessor_test_auto_scale_float_feature_spec() {
    let spec = infer_float_feature_spec(
        FeatureDataType::Float64,
        &scaled_ranges(&[1.25, 2.50, -0.75], 9),
        FloatScalingMode::ScaledOffsetSignedInt,
    );
    assert!(matches!(
        spec.transform,
        FeatureTransform::ScaledOffsetSignedInt { .. }
    ));
    assert!(spec.data_type.bits() <= 64);
}

#[test]
fn test_float_columns_can_use_scaled_signed_transform() {
    let spec = infer_float_feature_spec(
        FeatureDataType::Float64,
        &scaled_ranges(&[-1.25, 0.0, 2.50], 3),
        FloatScalingMode::ScaledSignedInt,
    );
    assert!(matches!(
        spec.transform,
        FeatureTransform::ScaledSignedInt { decimal_scale: 2 }
    ));
}

#[test]
fn floats_that_no_scale_fits_stay_as_they_are() {
    let spec = infer_float_feature_spec(
        FeatureDataType::Float64,
        &vec![None, None],
        FloatScalingMode::ScaledOffsetSignedInt,
    );
    assert_eq!(spec.data_type, FeatureDataType::Float64);
    assert_eq!(spec.transform, FeatureTransform::Verbatim);
}

#[test]
fn tables_are_restored_from_their_datasets() {
    let table = || {
        vec![
            column(
                "signed",
                ColumnDataType::Int64,
                ColumnValues::Signed(vec![i64::MIN, -1, 0, i64::MAX]),
            ),
            column(
                "unsigned",
                ColumnDataType::UInt16,
                ColumnValues::Unsigned(vec![7, 300, 65535, 8]),
            ),
            column(
                "scaled",
                ColumnDataType::Float64,
                ColumnValues::Scaled(vec![-150, 225, 0, 75]),
            ),
        ]
    };
    for zero in [true, false] {
        for pad in [true, false] {
            let options = PreprocessOptions {
                float_scaling: FloatScalingMode::ScaledOffsetSignedInt,
                decimal_scale: 2,
                integer_zero_normalization: zero,
            };
            let builder = BuildBitDataSet { options, pad_rows_to_word: pad };
            let columns = builder.chain(ReconstructDataFrame {}).process(table()).unwrap();
            assert_eq!(columns.len(), 3);
            assert_eq!(columns[0].name, "signed");
            assert_eq!(columns[1].data_type, ColumnDataType::UInt16);
            assert_eq!(
                columns[0].values,
                vec![
                    RestoredValue::Signed(i64::MIN),
                    RestoredValue::Signed(-1),
                    RestoredValue::Signed(0),
                    RestoredValue::Signed(i64::MAX)
                ]
            );
            let unsigned = |v: u64| {
                if zero {
                    RestoredValue::Unsigned(v)
                } else {
                    RestoredValue::Verbatim(v)
                }
            };
            assert_eq!(
                columns[1].values,
                vec![unsigned(7), unsigned(300), unsigned(65535), unsigned(8)]
            );
            assert_eq!(
                columns[2].values[0],
                RestoredValue::Scaled { number: -150, decimal_scale: 2 }
            );
        }
    }
}

#[test]
fn float_patterns_are_kept() {
    let patterns: Vec<u64> = [1.5f64, -2.25, 1e300].iter().map(|v| v.to_bits()).collect();
    let options = PreprocessOptions {
        float_scaling: FloatScalingMode::Disabled,
        decimal_scale: 9,
        integer_zero_normalization: true,
    };
    let set = BitDataSet::from_columns(
        vec![column(
            "pattern",
            ColumnDataType::Float64,
            ColumnValues::FloatBits(patterns.clone()),
        )],
        options,
        true,
    )
    .unwrap();
    let columns = restore_columns(&set).unwrap();
    let expected: Vec<RestoredValue> =
        patterns.into_iter().map(RestoredValue::Verbatim).collect();
    assert_eq!(columns[0].values, expected);
}

#[test]
fn tables_that_contradict_themselves_are_refused() {
    let build = |table: Vec<Column>| {
        BitDataSet::from_columns(table, PreprocessOptions::default(), false)
    };
    assert!(matches!(build(vec![]), Err(EntroGdError::InvalidFeatureSpec { .. })));
    assert!(matches!(
        build(vec![column("a", ColumnDataType::Int8, ColumnValues::Signed(vec![]))]),
        Err(EntroGdError::InvalidFeatureSpec { .. })
    ));
    assert!(build(vec![
        column("a", ColumnDataType::Int8, ColumnValues::Signed(vec![1])),
        column("b", ColumnDataType::Int8, ColumnValues::Signed(vec![1, 2])),
    ])
    .is_err());
    assert!(matches!(
        build(vec![column("a", ColumnDataType::Other, ColumnValues::Signed(vec![1]))]),
        Err(EntroGdError::InvalidDataType { .. })
    ));
    let message = match build(vec![column(
        "a",
        ColumnDataType::Other,
        ColumnValues::Signed(vec![1]),
    )]) {
        Err(error) => error.describe(),
        Ok(_) => panic!("a column of an unknown type was accepted"),
    };
    assert!(message.starts_with("Invalid data type: "));
}

#[test]
fn padded_rows_take_whole_words() {
    let compact =
        BitDataSet::from_columns(two_columns(), PreprocessOptions::default(), false).unwrap();
    let padded =
        BitDataSet::from_columns(two_columns(), PreprocessOptions::default(), true).unwrap();
    assert_eq!(compact.chunk_size(), 16);
    assert_eq!(compact.data.stride, 16);
    assert_eq!(padded.data.stride, 64);
    for row in 0..3 {
        assert_eq!(compact.data.get_chunk(row), padded.data.get_chunk(row));
    }
    match &padded.info.reconstruction {
        BitDataReconstructionInfo::Tabular { column_names, original_dtypes } => {
            assert_eq!(*column_names, vec!["a".to_string(), "b".to_string()]);
            assert_eq!(*original_dtypes, vec![ColumnDataType::Int32, ColumnDataType::Int32]);
        }
        _ => panic!("expected a table"),
    }
}

#[test]
fn storage_buckets() {
    assert_eq!(shifted_max_signed(i64::MIN, i64::MAX), u64::MAX);
    assert_eq!(shifted_max_signed(-5, 10), 15);
    assert_eq!(storage_bucket_bits(255), 8);
    assert_eq!(storage_bucket_bits(256), 16);
    assert_eq!(storage_bucket_bits(65536), 32);
    assert_eq!(storage_bucket_bits(1 << 32), 64);
    assert_eq!(signed_storage_bucket_bits(-128, 127), 8);
    assert_eq!(signed_storage_bucket_bits(-129, 0), 16);
    assert_eq!(signed_storage_bucket_bits(0, 32768), 32);
    assert_eq!(signed_storage_bucket_bits(i64::MIN, 0), 64);
}

#[test]
fn signed_numbers_in_few_bits() {
    for (value, bits) in [(-1i64, 8usize), (-128, 8), (127, 8), (-5, 16), (i64::MIN, 64)] {
        assert_eq!(decode_signed(value_to_bits(value, bits), bits), value);
    }
    assert_eq!(value_to_bits(-1, 8), 255);
    let mut stream = BitStream::from_bools(&vec![]);
    push_bits(&mut stream, 0b1011, 4);
    assert_eq!(stream.to_bools(), vec![true, false, true, true]);
    assert_eq!(bits_to_u64(&stream), 0b1011);
}

#[test]
fn single_values_are_restored() {
    let bits = BitStream::from_bools(&vec![true, true, false, true]);
    let spec = |transform| FeatureSpec { data_type: FeatureDataType::UInt(4), transform };
    assert_eq!(
        restore_feature_value(&bits, &spec(FeatureTransform::Verbatim)),
        RestoredValue::Verbatim(11)
    );
    assert_eq!(
        restore_feature_value(&bits, &spec(FeatureTransform::OffsetSignedInt { min_value: -20 })),
        RestoredValue::Signed(-9)
    );
    assert_eq!(
        restore_feature_value(&bits, &spec(FeatureTransform::OffsetUnsignedInt { min_value: 100 })),
        RestoredValue::Unsigned(111)
    );
}

#[test]
fn datasets_are_put_into_words() {
    let set = BitDataSet::from_columns(
        vec![column("a", ColumnDataType::Int8, ColumnValues::Signed(vec![-1, 1]))],
        PreprocessOptions::default(),
        false,
    )
    .unwrap();
    assert_eq!(
        set.describe(),
        "BitData:\n  Number of rows: 2\n  Number of features: 1\n  Chunk size (bits per row): 8\n  \
         Total bits: 16\nBit  : 0 1 2 3 4 5 6 7 \nRow 0: 0 0 0 0 0 0 0 0 \nRow 1: 0 1 0 0 0 0 0 0 "
    );
}
