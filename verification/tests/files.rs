//! Compressed rows, images and tables as files.
use entro_gd::analytics::decompress_analytics;
use entro_gd::base_table::{BaseBitLayoutState, BaseLayoutInfo, PreEncodeContext};
use entro_gd::base_table_builder::build_base_table;
use entro_gd::bits::BitStream;
use entro_gd::data::{
    BitDataInfo, BitDataReconstructionInfo, ColumnDataType, FeatureDataType, FeatureSpec,
    FeatureTransform, ImageColorModel, ImageGroupingTransform, ImageReconstructionInfo,
    PixelGrouping,
};
use entro_gd::dataset::{BitData, BitDataSet};
use entro_gd::decompression::{decompress_file, DecompressFileData};
use entro_gd::decompression_rows::decompress_rows;
use entro_gd::encoding::compressed::{BaseTable, CompressedData, CondensedSamples, EncodedData};
use entro_gd::encoding::filters::{
    DecodeDeltaBaseTable, DeltaEncodeBaseTable, DeltaEncodeBaseTableFixed, EncodeData,
    EncodeDataHuffman, EncodeDataOffsetRLE, EncodeDataOptimized, EncodeDataRLE,
};
use entro_gd::encoding::fused_dictionary::EncodeDataFusedDictionary;
use entro_gd::entropy::calculate_entropy;
use entro_gd::error::EntroGdError;
use entro_gd::file_format::egd::{EgdFile, FORMAT_VERSION, MAGIC_BYTES};
use entro_gd::file_format::filters::{
    LoadEgdFile, LoadIgdFile, LoadTgdFile, SaveEgdFile, SaveIgdFile, SaveTgdFile,
};
use entro_gd::file_format::igd::{IgdFile, IMAGE_MAGIC_BYTES};
use entro_gd::file_format::path_utils::{
    ensure_csv_extension, ensure_egd_extension, ensure_igd_extension, ensure_tgd_extension,
};
use entro_gd::file_format::tags::{BASE_TABLE_TAG_DELTA_FIXED, BASE_TABLE_TAG_DELTA_UNARY};
use entro_gd::file_format::tgd::{TgdFile, TGD_MAGIC_BYTES};
use entro_gd::file_format::whole_files::{
    decompress_igd_to_image, decompress_tgd_to_columns, load_and_decompress_egd,
    load_and_decompress_igd, load_and_decompress_tgd,
};
use entro_gd::filter_pipeline::{Filter, FilterExt};
use entro_gd::image_preprocessor::builder::{BuildImageBitDataSet, ImageColorSpace};
use entro_gd::pipeline::condense::condensed_groups;
use entro_gd::pipeline::condensed_rows::{check_averages, condensed_rows, group_sums};
use entro_gd::pipeline::implementation::{extend_rows, CompressionPipeline};
use entro_gd::pipeline::interface::CompressionParams;
use entro_gd::pipeline::selection::optimize_with_tau;
use entro_gd::tabular_processor::columns::{Column, ColumnValues, PreprocessOptions};
use entro_gd::tabular_processor::restore::RestoredValue;

/// The rows with the bits at the given positions looked up in a base table, bits that never change
/// left out, and all others stored per row.
fn context_of(bit_data: BitDataSet, base_bits: &[usize]) -> PreEncodeContext {
    let rows = bit_data.num_rows();
    let chunk = bit_data.chunk_size();
    let table: Vec<Vec<bool>> = (0..rows).map(|r| bit_data.data.get_chunk(r).to_bools()).collect();
    let mut states = Vec::new();
    for bit in 0..chunk {
        let ones = table.iter().filter(|row| row[bit]).count();
        states.push(if base_bits.contains(&bit) {
            BaseBitLayoutState::Variable
        } else if ones == 0 {
            BaseBitLayoutState::ConstantZero
        } else if ones == rows {
            BaseBitLayoutState::ConstantOne
        } else {
            BaseBitLayoutState::Deviation
        });
    }
    let mut bases: Vec<(Vec<bool>, usize)> = Vec::new();
    let mut row_to_base_id = Vec::new();
    for row in &table {
        let pattern: Vec<bool> = base_bits.iter().map(|bit| row[*bit]).collect();
        let id = match bases.iter().position(|(known, _)| *known == pattern) {
            Some(id) => id,
            None => {
                bases.push((pattern, 0));
                bases.len() - 1
            }
        };
        bases[id].1 += 1;
        row_to_base_id.push(id);
    }
    let order: Vec<usize> = (0..base_bits.len()).collect();
    PreEncodeContext {
        bit_data,
        layout: BaseLayoutInfo::from_bit_states(states),
        variable_base_table: bases
            .into_iter()
            .map(|(pattern, count)| (BitStream::from_bools(&pattern), count))
            .collect(),
        row_to_base_id,
        entropy_sorted_column_order: Some(order),
    }
}

/// The entropy of a bit by the number of rows that it is set in.
fn entropies(rows: usize) -> Vec<u64> {
    (0..=rows)
        .map(|count| {
            let p = count as f64 / rows as f64;
            if count == 0 || count == rows {
                0.0f64
            } else {
                -p * p.log2() - (1.0 - p) * (1.0 - p).log2()
            }
        })
        .map(|entropy| entropy.to_bits())
        .collect()
}

/// The condensed rows of a dataset.
fn condensed_of(set: &BitDataSet, entropy: &Vec<(usize, u64)>, m_max: usize) -> CondensedSamples {
    let groups = condensed_groups(set, entropy, m_max);
    let sums = group_sums(set, &groups);
    let averages: Vec<Vec<u64>> = sums
        .iter()
        .enumerate()
        .map(|(id, words)| {
            let count = groups.row_to_id.iter().filter(|group| **group == id).count();
            words.iter().map(|sum| (*sum as f64 / count as f64) as u64).collect()
        })
        .collect();
    assert!(check_averages(set, &groups, &averages));
    condensed_rows(set, &groups, &averages)
}

/// The stages up to the encoding of rows: entropy, condensed rows, the choice of base bits, and the
/// base table.
fn pipeline_context(set: BitDataSet, m_max: usize, patience: usize) -> PreEncodeContext {
    let entropy = calculate_entropy(&set, &entropies(set.num_rows()));
    let condensed = condensed_of(&set, &entropy, m_max);
    let mut all = extend_rows(set, &condensed.samples);
    all.info.set_condensed_sample_weights(Some(condensed.weights));
    let groups = optimize_with_tau(&all, &entropy, patience);
    build_base_table(all, &groups, None)
}

/// The same with the base table in descending order of its keys.
fn sorted_context_of(bit_data: BitDataSet, base_bits: &[usize]) -> PreEncodeContext {
    let mut context = context_of(bit_data, base_bits);
    let mut numbered: Vec<(usize, Vec<bool>, usize)> = context
        .variable_base_table
        .iter()
        .enumerate()
        .map(|(id, (bits, count))| (id, bits.to_bools(), *count))
        .collect();
    numbered.sort_by(|a, b| b.1.cmp(&a.1));
    let mut place = vec![0usize; numbered.len()];
    for (new_id, (old_id, _, _)) in numbered.iter().enumerate() {
        place[*old_id] = new_id;
    }
    context.variable_base_table = numbered
        .into_iter()
        .map(|(_, bits, count)| (BitStream::from_bools(&bits), count))
        .collect();
    for id in context.row_to_base_id.iter_mut() {
        *id = place[*id];
    }
    context
}

fn uint_features(bits: u16, count: usize) -> Vec<FeatureSpec> {
    vec![
        FeatureSpec {
            data_type: FeatureDataType::UInt(bits),
            transform: FeatureTransform::Verbatim,
        };
        count
    ]
}

fn bits_of(bits: &[u8]) -> BitStream {
    BitStream::from_bools(&bits.iter().map(|b| *b != 0).collect())
}

fn zero_set(rows: usize, chunk: usize, info: BitDataInfo) -> BitDataSet {
    BitDataSet {
        data: BitData {
            data: BitStream::from_bools(&vec![false; rows * chunk]),
            num_rows: rows,
            stride: chunk,
            chunk_size: chunk,
        },
        info,
    }
}

fn image_info(
    width: u32,
    height: u32,
    pixel_grouping: PixelGrouping,
    grouping_transform: ImageGroupingTransform,
) -> BitDataReconstructionInfo {
    BitDataReconstructionInfo::Image(ImageReconstructionInfo {
        width,
        height,
        channels: 3,
        color_model: ImageColorModel::Rgb,
        pixel_grouping,
        grouping_transform,
        colorspace: 0,
    })
}

/// Rows whose bits vary.
fn varied_set(rows: usize) -> BitDataSet {
    let mut bits = Vec::new();
    for row in 0..rows {
        let word = (row * 2654435761usize) >> 3;
        for bit in 0..24 {
            bits.push(match bit {
                0..=3 => (row / 3) >> bit & 1 == 1,
                4 => true,
                5 => false,
                _ => word >> bit & 1 == 1,
            });
        }
    }
    BitDataSet {
        data: BitData {
            data: BitStream::from_bools(&bits),
            num_rows: rows,
            stride: 24,
            chunk_size: 24,
        },
        info: BitDataInfo::new(uint_features(8, 3), rows * 24).unwrap(),
    }
}

fn assert_same_rows(expected: &BitData, actual: &BitData) {
    assert_eq!(actual.num_rows, expected.num_rows);
    assert_eq!(actual.chunk_size, expected.chunk_size);
    for row in 0..expected.num_rows {
        assert_eq!(actual.get_chunk(row), expected.get_chunk(row));
    }
}

fn build_and_save_case() {
    let info = BitDataInfo::new(uint_features(8, 8), 64).unwrap();
    let compressed = EncodeData {}.process(pipeline_context(zero_set(1, 64, info), 50, 10)).unwrap();
    let egd = EgdFile::from_compressed_data(compressed).unwrap();
    assert!(egd.as_bytes().len() >= 4);
    assert_eq!(egd.as_bytes()[0..3], MAGIC_BYTES);
    assert_eq!(egd.as_bytes()[3], FORMAT_VERSION);
    assert_eq!(ensure_egd_extension(None), Some("egd"));
}

#[test]
fn mod_test_build_and_save_egd() {
    build_and_save_case();
}

#[test]
fn file_format_test_build_and_save_egd() {
    build_and_save_case();
}

fn roundtrip_case() {
    let info = BitDataInfo::new(uint_features(32, 2), 320).unwrap();
    let compressed = EncodeData {}.process(pipeline_context(zero_set(5, 64, info), 50, 10)).unwrap();
    assert_eq!(compressed.condensed_sample_weights, Some(vec![5]));
    let egd = EgdFile::from_compressed_data(compressed.clone()).unwrap();
    let loaded = egd.to_compressed_data().unwrap();

    assert_eq!(loaded.metadata, compressed.metadata);
    assert_eq!(
        loaded.layout.selected_base_bit_positions(),
        compressed.layout.selected_base_bit_positions()
    );
    assert_eq!(
        loaded.layout.variable_base_bit_positions(),
        compressed.layout.variable_base_bit_positions()
    );
    assert_eq!(
        loaded.layout.constant_zero_bit_positions(),
        compressed.layout.constant_zero_bit_positions()
    );
    assert_eq!(
        loaded.layout.constant_one_bit_positions(),
        compressed.layout.constant_one_bit_positions()
    );
    assert_eq!(
        loaded.condensed_sample_weights,
        compressed.condensed_sample_weights
    );
    assert_eq!(
        loaded.encoded_data.encoded_bit_stream(),
        compressed.encoded_data.encoded_bit_stream()
    );
    assert_eq!(
        loaded.encoded_data.get_num_samples(),
        compressed.encoded_data.get_num_samples()
    );
    assert_eq!(
        loaded.encoded_data.get_num_deviation_bits(),
        compressed.encoded_data.get_num_deviation_bits()
    );
    assert_eq!(
        loaded.encoded_data.get_num_id_bits(),
        compressed.encoded_data.get_num_id_bits()
    );
    assert_eq!(loaded.base_table.len(), compressed.base_table.len());
    for (lhs, rhs) in loaded
        .base_table
        .as_raw()
        .iter()
        .zip(compressed.base_table.as_raw().iter())
    {
        assert_eq!(lhs.0, rhs.0);
        assert_eq!(lhs.1, rhs.1);
    }
}

#[test]
fn mod_test_roundtrip_egd_to_compressed_data() {
    roundtrip_case();
}

#[test]
fn file_format_test_roundtrip_egd_to_compressed_data() {
    roundtrip_case();
}

fn image_metadata_case() {
    let info = BitDataInfo::new_with_reconstruction_info(
        uint_features(8, 3),
        96,
        image_info(2, 2, PixelGrouping(1, 1), ImageGroupingTransform::ForFirstPixel),
    )
    .unwrap();
    let compressed = EncodeData {}.process(pipeline_context(zero_set(4, 24, info), 50, 10)).unwrap();
    let igd = IgdFile::from_compressed_data(compressed).unwrap();
    let loaded = igd.to_compressed_data().unwrap();

    assert_eq!(loaded.metadata.num_features(), 3);
    assert_eq!(loaded.metadata.original_size_bits(), 96);
    assert!(matches!(
        loaded.metadata.reconstruction,
        BitDataReconstructionInfo::Image(ImageReconstructionInfo {
            width: 2,
            height: 2,
            channels: 3,
            color_model: ImageColorModel::Rgb,
            pixel_grouping: PixelGrouping(1, 1),
            grouping_transform: ImageGroupingTransform::ForFirstPixel,
            colorspace: 0
        })
    ));
}

#[test]
fn mod_test_roundtrip_igd_to_compressed_data_with_image_metadata() {
    image_metadata_case();
}

#[test]
fn file_format_test_roundtrip_igd_to_compressed_data_with_image_metadata() {
    image_metadata_case();
}

fn for_min_metadata_case(across: u32) {
    let info = BitDataInfo::new_with_reconstruction_info(
        uint_features(37, 3),
        111,
        image_info(4, 1, PixelGrouping::new(across, 1), ImageGroupingTransform::ForMin),
    )
    .unwrap();
    let compressed = EncodeData {}.process(pipeline_context(zero_set(1, 111, info), 50, 10)).unwrap();
    let igd = IgdFile::from_compressed_data(compressed).unwrap();
    let loaded = igd.to_compressed_data().unwrap();
    assert!(matches!(
        loaded.metadata.reconstruction,
        BitDataReconstructionInfo::Image(ImageReconstructionInfo {
            width: 4,
            height: 1,
            channels: 3,
            color_model: ImageColorModel::Rgb,
            pixel_grouping,
            grouping_transform: ImageGroupingTransform::ForMin,
            colorspace: 0
        }) if pixel_grouping == PixelGrouping(across, 1)
    ));
}

#[test]
fn mod_test_roundtrip_igd_to_compressed_data_with_for_min_metadata() {
    for_min_metadata_case(1);
}

#[test]
fn file_format_test_roundtrip_igd_to_compressed_data_with_for_min_metadata() {
    for_min_metadata_case(4);
}

#[test]
fn mod_test_roundtrip_egd_with_rle_payload() {
    let info = BitDataInfo::new(uint_features(8, 8), 512).unwrap();
    let compressed = EncodeDataOffsetRLE {}
        .process(pipeline_context(zero_set(8, 64, info), 100, 5))
        .unwrap();
    let egd = EgdFile::from_compressed_data(compressed.clone()).unwrap();
    let loaded = egd.to_compressed_data().unwrap();

    match (&compressed.encoded_data, &loaded.encoded_data) {
        (EncodedData::RleOffset(src), EncodedData::RleOffset(dst)) => {
            let src_as_raw = src.to_deviation_data().unwrap();
            let dst_as_raw = dst.to_deviation_data().unwrap();
            assert_eq!(
                src_as_raw.encoded_bit_stream(),
                dst_as_raw.encoded_bit_stream()
            );
            assert_eq!(src_as_raw.get_num_samples(), dst_as_raw.get_num_samples());
            assert_eq!(
                src_as_raw.get_num_deviation_bits(),
                dst_as_raw.get_num_deviation_bits()
            );
            assert_eq!(src_as_raw.get_num_id_bits(), dst.get_num_id_bits());
        }
        _ => panic!("expected source RLE data and loaded normalized data"),
    }
}

#[test]
fn file_format_test_roundtrip_egd_with_rle_payload() {
    let info = BitDataInfo::new(uint_features(8, 8), 512).unwrap();
    let compressed = EncodeDataRLE {}
        .process(pipeline_context(zero_set(8, 64, info), 100, 5))
        .unwrap();
    let egd = EgdFile::from_compressed_data(compressed.clone()).unwrap();
    let loaded = egd.to_compressed_data().unwrap();

    match (&compressed.encoded_data, &loaded.encoded_data) {
        (EncodedData::Rle(src), EncodedData::Normal(dst)) => {
            let src_as_raw = src.to_deviation_data().unwrap();
            assert_eq!(src_as_raw.encoded_bit_stream(), dst.encoded_bit_stream());
            assert_eq!(src_as_raw.get_num_samples(), dst.get_num_samples());
            assert_eq!(
                src_as_raw.get_num_deviation_bits(),
                dst.get_num_deviation_bits()
            );
            assert_eq!(src_as_raw.get_num_id_bits(), dst.get_num_id_bits());
        }
        _ => panic!("expected source RLE data and loaded normalized data"),
    }
}

fn huffman_set() -> BitDataSet {
    BitDataSet {
        data: BitData {
            data: bits_of(&[
                0, 1, 0, 1, 0, 1, 0, 1, 0, 1, 1, 0, 0, 1, 1, 0, 1, 0, 0, 1, 1, 0, 0, 1, 1, 1, 0,
                0, 1, 1, 0, 0,
            ]),
            num_rows: 4,
            stride: 8,
            chunk_size: 8,
        },
        info: BitDataInfo::new(uint_features(8, 1), 32).unwrap(),
    }
}

fn huffman_case() {
    let bit_data = huffman_set();
    let compressed = EncodeDataHuffman {}.process(pipeline_context(huffman_set(), 100, 5)).unwrap();
    let egd = EgdFile::from_compressed_data(compressed.clone()).unwrap();
    let loaded = egd.to_compressed_data().unwrap();

    assert!(matches!(loaded.encoded_data, EncodedData::Huffman(_)));
    assert_eq!(loaded.metadata, compressed.metadata);
    let decompressed_data = decompress_file(loaded).unwrap().data;
    assert_same_rows(&bit_data.data, &decompressed_data);
}

#[test]
fn mod_test_roundtrip_egd_with_huffman_payload() {
    huffman_case();
}

#[test]
fn file_format_test_roundtrip_egd_with_huffman_payload() {
    let compressed = EncodeDataHuffman {}.process(pipeline_context(huffman_set(), 100, 5)).unwrap();
    let egd = EgdFile::from_compressed_data(compressed.clone()).unwrap();
    let loaded = egd.to_compressed_data().unwrap();

    assert!(matches!(loaded.encoded_data, EncodedData::Huffman(_)));
    assert_eq!(loaded.metadata, compressed.metadata);
    assert_eq!(decompress_file(loaded).unwrap().data.data, huffman_set().data.data);
}

fn huffman_image_set() -> BitDataSet {
    BitDataSet {
        data: BitData {
            data: bits_of(&[
                0, 0, 0, 1, 0, 0, 1, 0, 0, 0, 1, 1, 0, 1, 0, 0, 0, 1, 0, 1, 0, 1, 1, 0, 0, 1, 1,
                1, 1, 0, 0, 0, 1, 0, 0, 1, 1, 0, 1, 0, 1, 0, 1, 1, 1, 1, 0, 0,
            ]),
            num_rows: 2,
            stride: 12,
            chunk_size: 12,
        },
        info: BitDataInfo::new_with_reconstruction_info(
            uint_features(4, 3),
            24,
            image_info(2, 2, PixelGrouping::new(4, 1), ImageGroupingTransform::ForFirstPixel),
        )
        .unwrap(),
    }
}

fn huffman_image_case() {
    let bit_data = huffman_image_set();
    let compressed = EncodeDataHuffman {}
        .process(pipeline_context(huffman_image_set(), 100, 5))
        .unwrap();
    let igd = IgdFile::from_compressed_data(compressed).unwrap();
    let loaded = igd.to_compressed_data().unwrap();

    assert!(matches!(loaded.encoded_data, EncodedData::Huffman(_)));
    assert!(matches!(
        loaded.metadata.reconstruction,
        BitDataReconstructionInfo::Image(ImageReconstructionInfo {
            width: 2,
            height: 2,
            channels: 3,
            color_model: ImageColorModel::Rgb,
            pixel_grouping: PixelGrouping(4, 1),
            grouping_transform: ImageGroupingTransform::ForFirstPixel,
            colorspace: 0
        })
    ));
    let decompressed_data = decompress_file(loaded).unwrap().data;
    assert_same_rows(&bit_data.data, &decompressed_data);
}

#[test]
fn mod_test_roundtrip_igd_with_huffman_image_payload() {
    huffman_image_case();
}

#[test]
fn file_format_test_roundtrip_igd_with_huffman_image_payload() {
    let image_set = || {
        let mut set = huffman_image_set();
        set.data.num_rows = 4;
        set.info = BitDataInfo::new_with_reconstruction_info(
            uint_features(4, 3),
            48,
            image_info(2, 2, PixelGrouping::new(1, 1), ImageGroupingTransform::ForFirstPixel),
        )
        .unwrap();
        set
    };
    let compressed = EncodeDataHuffman {}.process(pipeline_context(image_set(), 100, 5)).unwrap();
    let igd = IgdFile::from_compressed_data(compressed).unwrap();
    let loaded = igd.to_compressed_data().unwrap();

    assert!(matches!(loaded.encoded_data, EncodedData::Huffman(_)));
    assert!(matches!(
        loaded.metadata.reconstruction,
        BitDataReconstructionInfo::Image(ImageReconstructionInfo {
            width: 2,
            height: 2,
            channels: 3,
            color_model: ImageColorModel::Rgb,
            pixel_grouping: PixelGrouping(1, 1),
            grouping_transform: ImageGroupingTransform::ForFirstPixel,
            colorspace: 0
        })
    ));
    assert_eq!(decompress_file(loaded).unwrap().data.data, image_set().data.data);
}

#[test]
fn test_tgd_preserves_long_column_names() {
    let column_names = vec![
        "a_very_long_column_name_that_exceeds_typical_lengths_123456".to_string(),
        "b".to_string(),
        "another_extremely_verbose_header_describing_an_obscure_metric_abc".to_string(),
        "c".to_string(),
        "d".to_string(),
        "e".to_string(),
        "f".to_string(),
        "this_is_the_eighth_column_with_a_particularly_verbose_name_xyz".to_string(),
    ];
    let original_dtypes = vec![
        ColumnDataType::Float64,
        ColumnDataType::Int32,
        ColumnDataType::UInt8,
        ColumnDataType::Float32,
        ColumnDataType::Int64,
        ColumnDataType::UInt16,
        ColumnDataType::Float16,
        ColumnDataType::UInt64,
    ];
    let info = BitDataInfo::new_with_reconstruction_info(
        uint_features(8, 8),
        6 * 64,
        BitDataReconstructionInfo::Tabular {
            column_names: column_names.clone(),
            original_dtypes: original_dtypes.clone(),
        },
    )
    .unwrap();
    let compressed = EncodeData {}.process(context_of(zero_set(6, 64, info), &[])).unwrap();
    let tgd = TgdFile::from_compressed_data(compressed).unwrap();
    let loaded = tgd.to_compressed_data().unwrap();

    match &loaded.metadata.reconstruction {
        BitDataReconstructionInfo::Tabular {
            column_names: loaded_names,
            original_dtypes: loaded_dtypes,
        } => {
            assert_eq!(*loaded_names, column_names);
            assert_eq!(*loaded_dtypes, original_dtypes);
        }
        _ => panic!("expected Tabular reconstruction metadata"),
    }
}

fn encode_all(rows: usize) -> Vec<CompressedData> {
    let context = || context_of(varied_set(rows), &[0, 1, 2, 3]);
    vec![
        EncodeData {}.process(context()).unwrap(),
        EncodeDataOptimized {}.process(context()).unwrap(),
        EncodeDataFusedDictionary {}.process(context()).unwrap(),
        EncodeDataRLE {}.process(context()).unwrap(),
        EncodeDataOffsetRLE {}.process(context()).unwrap(),
        EncodeDataHuffman {}.process(context()).unwrap(),
    ]
}

#[test]
fn every_encoding_gives_the_rows_back() {
    for rows in [1usize, 2, 29, 700] {
        let expected = varied_set(rows);
        for compressed in encode_all(rows) {
            let set = DecompressFileData {}.process(compressed.clone()).unwrap();
            assert_same_rows(&expected.data, &set.data);
            let reloaded = SaveEgdFile {}
                .chain(LoadEgdFile {})
                .chain(DecompressFileData {})
                .process(compressed)
                .unwrap();
            assert_same_rows(&expected.data, &reloaded.data);
        }
    }
}

#[test]
fn rows_are_decompressed_by_themselves() {
    let expected = varied_set(40);
    for compressed in encode_all(40) {
        let indices = vec![0usize, 5, 10, 11, 39];
        let rows = decompress_rows(&compressed, &indices).unwrap();
        for (index, row) in indices.iter().zip(rows.iter()) {
            assert_eq!(*row, expected.data.get_chunk(*index));
        }
        assert_eq!(
            decompress_rows(&compressed, &vec![3, 40]),
            Err(EntroGdError::DecompressionSampleMissing { sample_idx: 40 })
        );
        for index in [0usize, 7, 39] {
            let sample = compressed.encoded_data.get_sample(index).unwrap();
            let listed = compressed.encoded_data.for_each_sample_n(40).unwrap();
            assert_eq!(sample, listed[index]);
        }
    }
}

fn delta_case(fixed: bool) {
    let expected = varied_set(50);
    let sorted = sorted_context_of(varied_set(50), &[0, 1, 2, 3]);
    let plain = EncodeDataOptimized {}.process(sorted).unwrap();
    let compressed = if fixed {
        DeltaEncodeBaseTableFixed {}.process(plain.clone()).unwrap()
    } else {
        DeltaEncodeBaseTable {}.process(plain.clone()).unwrap()
    };
    match &compressed.base_table {
        BaseTable::Delta(delta) => {
            let tag = if fixed { BASE_TABLE_TAG_DELTA_FIXED } else { BASE_TABLE_TAG_DELTA_UNARY };
            assert_eq!(delta.codec_id, tag);
        }
        BaseTable::Raw(_) => panic!("expected delta-encoded base table"),
    }
    let loaded = SaveEgdFile {}.chain(LoadEgdFile {}).process(compressed.clone()).unwrap();
    assert!(matches!(&loaded.base_table, BaseTable::Delta(_)));
    let decompressed = DecompressFileData {}.process(loaded).unwrap();
    assert_same_rows(&expected.data, &decompressed.data);
    let raw = DecodeDeltaBaseTable {}.process(compressed).unwrap();
    for (lhs, rhs) in raw.base_table.as_raw().iter().zip(plain.base_table.as_raw().iter()) {
        assert_eq!(lhs.0, rhs.0);
    }
}

#[test]
fn delta_tables_with_unary_prefixes_are_kept() {
    delta_case(false);
}

#[test]
fn delta_tables_with_fixed_prefixes_are_kept() {
    delta_case(true);
}

#[test]
fn tables_that_do_not_descend_stay_raw() {
    let context = context_of(varied_set(50), &[0, 1, 2, 3]);
    let compressed = EncodeData {}.chain(DeltaEncodeBaseTable {}).process(context).unwrap();
    assert!(matches!(&compressed.base_table, BaseTable::Raw(_)));
}

#[test]
fn whole_image_files() {
    let raw: Vec<u8> = (0..6 * 4 * 3).map(|i| (i * 11 % 251) as u8).collect();
    let builder = BuildImageBitDataSet {
        colorspace: ImageColorSpace::SrgbWithLinearAlpha,
        color_model: ImageColorModel::YCoCgR,
        pixel_grouping: PixelGrouping(2, 2),
        grouping_transform: ImageGroupingTransform::ForMin,
        pad_rows_to_word: true,
    };
    let set = builder.build(6, 4, 3, raw.clone()).unwrap();
    let expected = builder.build(6, 4, 3, raw.clone()).unwrap();
    let compressed = EncodeDataHuffman {}.process(context_of(set, &[0, 1, 40])).unwrap();
    let file = SaveIgdFile {}.process(compressed.clone()).unwrap();
    assert_eq!(file.as_bytes()[0..3], IMAGE_MAGIC_BYTES);
    let again = LoadIgdFile {}.process(IgdFile::from_bytes(file.as_bytes().clone())).unwrap();
    assert_eq!(again.metadata.reconstruction, compressed.metadata.reconstruction);
    let rows = load_and_decompress_igd(file.as_bytes().clone()).unwrap();
    assert_same_rows(&expected.data, &rows.data);
    assert_eq!(decompress_igd_to_image(file.as_bytes().clone()).unwrap(), raw);
    let mut damaged = file.as_bytes().clone();
    damaged[0] = 0;
    assert!(matches!(
        decompress_igd_to_image(damaged),
        Err(EntroGdError::InvalidMetadata { .. })
    ));
}

#[test]
fn whole_table_files() {
    let table = vec![
        Column {
            name: "t".to_string(),
            data_type: ColumnDataType::Int16,
            values: ColumnValues::Signed((0..30).map(|i| i * i - 200).collect()),
        },
        Column {
            name: "n".to_string(),
            data_type: ColumnDataType::UInt8,
            values: ColumnValues::Unsigned((0..30).map(|i| i % 4).collect()),
        },
    ];
    let set = BitDataSet::from_columns(table, PreprocessOptions::default(), false).unwrap();
    let compressed = EncodeDataOffsetRLE {}.process(context_of(set, &[10, 11])).unwrap();
    let file = SaveTgdFile {}.process(compressed).unwrap();
    assert_eq!(file.as_bytes()[0..3], TGD_MAGIC_BYTES);
    assert!(LoadTgdFile {}.process(TgdFile::from_bytes(file.as_bytes().clone())).is_ok());
    assert_eq!(load_and_decompress_tgd(file.as_bytes().clone()).unwrap().num_rows(), 30);
    let columns = decompress_tgd_to_columns(file.as_bytes().clone()).unwrap();
    assert_eq!(columns[0].name, "t");
    for i in 0..30i64 {
        assert_eq!(columns[0].values[i as usize], RestoredValue::Signed(i * i - 200));
        assert_eq!(columns[1].values[i as usize], RestoredValue::Unsigned(i as u64 % 4));
    }
    assert!(matches!(
        load_and_decompress_tgd(vec![1, 2, 3]),
        Err(EntroGdError::InvalidMetadata { .. })
    ));
}

#[test]
fn weights_of_condensed_rows_are_kept() {
    let mut set = varied_set(12);
    set.info = BitDataInfo::new(uint_features(8, 3), 10 * 24).unwrap();
    set.info.set_condensed_sample_weights(Some(vec![6, 4]));
    let compressed = EncodeData {}.process(context_of(set, &[0, 1])).unwrap();
    assert_eq!(compressed.condensed_sample_weights, Some(vec![6, 4]));
    let file = EgdFile::from_compressed_data(compressed).unwrap();
    let loaded = file.to_compressed_data().unwrap();
    assert_eq!(loaded.condensed_sample_weights, Some(vec![6, 4]));
    assert_eq!(loaded.metadata.n_data_samples(), 10);
    let rows = load_and_decompress_egd(file.as_bytes().clone()).unwrap();
    assert_eq!(rows.num_rows(), 10);
    for row in 0..10 {
        assert_eq!(rows.data.get_chunk(row), varied_set(12).data.get_chunk(row));
    }
}

fn condensed_file_case(set: impl Fn() -> BitDataSet, m_max: usize) -> CompressedData {
    let rows = set().num_rows();
    let scores = entropies(rows);
    let condensed = condensed_of(&set(), &calculate_entropy(&set(), &scores), m_max);
    let kept = condensed.weights.clone();
    let pipeline = CompressionPipeline::new(CompressionParams::new(m_max, 3, true));
    let compressed = pipeline.compress(set(), &scores, condensed);
    assert_eq!(compressed.condensed_sample_weights, Some(kept));
    let file = EgdFile::from_compressed_data(compressed.clone()).unwrap();
    let loaded = file.to_compressed_data().unwrap();
    assert_eq!(loaded.condensed_sample_weights, compressed.condensed_sample_weights);
    assert_eq!(loaded.metadata.n_data_samples(), rows);
    let back = load_and_decompress_egd(file.as_bytes().clone()).unwrap();
    assert_same_rows(&set().data, &back.data);
    loaded
}

#[test]
fn compressed_rows_with_condensed_ones_are_kept() {
    let loaded = condensed_file_case(|| varied_set(40), 6);
    let weights = loaded.condensed_sample_weights.clone().unwrap();
    assert!(weights.len() > 1);
    assert_eq!(weights.iter().sum::<usize>(), 40);
    assert_eq!(loaded.encoded_data.get_num_samples(), 40 + weights.len());
}

#[test]
fn one_row_that_stands_for_all_others() {
    for rows in [255usize, 256, 257] {
        let loaded = condensed_file_case(|| varied_set(rows), 1);
        assert_eq!(loaded.condensed_sample_weights, Some(vec![rows]));
    }
}

#[test]
fn weights_that_are_too_large_are_refused() {
    let mut compressed = EncodeData {}.process(context_of(varied_set(9), &[0, 1])).unwrap();
    compressed.condensed_sample_weights = Some(vec![255]);
    assert!(EgdFile::from_compressed_data(compressed.clone()).is_ok());
    compressed.condensed_sample_weights = Some(vec![256]);
    assert!(matches!(
        EgdFile::from_compressed_data(compressed),
        Err(EntroGdError::InvalidMetadata { .. })
    ));
}

#[test]
fn coded_rows_with_many_bits_of_their_own() {
    for width in [255usize, 256, 300, 700] {
        let wide = || {
            let bits: Vec<bool> =
                (0..6 * width).map(|i| (i * 2654435761usize) >> 7 & 1 == 1).collect();
            BitDataSet {
                data: BitData {
                    data: BitStream::from_bools(&bits),
                    num_rows: 6,
                    stride: width,
                    chunk_size: width,
                },
                info: BitDataInfo::new(uint_features(1, width), 6 * width).unwrap(),
            }
        };
        let groups = optimize_with_tau(&wide(), &vec![], 3);
        let context = build_base_table(wide(), &groups, None);
        let compressed = EncodeDataHuffman {}.process(context).unwrap();
        assert_eq!(compressed.encoded_data.get_num_deviation_bits(), width);
        let file = EgdFile::from_compressed_data(compressed).unwrap();
        let loaded = file.to_compressed_data().unwrap();
        assert_eq!(loaded.encoded_data.get_num_deviation_bits(), width);
        let back = load_and_decompress_egd(file.as_bytes().clone()).unwrap();
        assert_same_rows(&wide().data, &back.data);
    }
}

#[test]
fn image_files_with_more_or_fewer_bytes_are_refused() {
    let compressed = EncodeData {}
        .process(pipeline_context(huffman_image_set(), 4, 3))
        .unwrap();
    let bytes = IgdFile::from_compressed_data(compressed).unwrap().as_bytes().clone();
    assert!(IgdFile::from_bytes(bytes.clone()).to_compressed_data().is_ok());
    let mut longer = bytes.clone();
    longer.push(0);
    assert!(IgdFile::from_bytes(longer).to_compressed_data().is_err());
    for len in 0..bytes.len() {
        assert!(IgdFile::from_bytes(bytes[0..len].to_vec()).to_compressed_data().is_err());
    }
}

fn assert_rows_of_file(expected: &BitDataSet, loaded: &CompressedData) {
    let rows = expected.num_rows();
    let indices: Vec<usize> = (0..rows).filter(|row| row % 3 == 1).collect();
    let found = decompress_rows(loaded, &indices).unwrap();
    for (index, row) in indices.iter().zip(found.iter()) {
        assert_eq!(*row, expected.data.get_chunk(*index));
    }
}

#[test]
fn single_rows_come_out_of_files() {
    let expected = varied_set(40);
    for compressed in encode_all(40) {
        let loaded = SaveEgdFile {}.chain(LoadEgdFile {}).process(compressed.clone()).unwrap();
        assert_rows_of_file(&expected, &loaded);
        for index in 0..40 {
            assert_eq!(
                loaded.encoded_data.get_sample(index),
                compressed.encoded_data.get_sample(index)
            );
        }
        assert_eq!(loaded.encoded_data.get_sample(40), None);
    }
    for fixed in [false, true] {
        let sorted = sorted_context_of(varied_set(40), &[0, 1, 2, 3]);
        let plain = EncodeDataRLE {}.process(sorted).unwrap();
        let compressed = if fixed {
            DeltaEncodeBaseTableFixed {}.process(plain).unwrap()
        } else {
            DeltaEncodeBaseTable {}.process(plain).unwrap()
        };
        assert_rows_of_file(&expected, &compressed);
        let loaded = SaveEgdFile {}.chain(LoadEgdFile {}).process(compressed).unwrap();
        assert!(matches!(&loaded.base_table, BaseTable::Delta(_)));
        assert_rows_of_file(&expected, &loaded);
    }
}

#[test]
fn single_rows_come_out_of_image_and_table_files() {
    let expected = huffman_image_set();
    let context = pipeline_context(huffman_image_set(), 4, 3);
    let compressed = EncodeDataHuffman {}.process(context).unwrap();
    let file = IgdFile::from_compressed_data(compressed).unwrap();
    let loaded = file.to_compressed_data().unwrap();
    let rows = decompress_rows(&loaded, &vec![1, 0]).unwrap();
    assert_eq!(rows, vec![expected.data.get_chunk(1), expected.data.get_chunk(0)]);

    let table = || {
        let column = Column {
            name: "t".to_string(),
            data_type: ColumnDataType::UInt16,
            values: ColumnValues::Unsigned((0..30).map(|i| i * 7 % 40).collect()),
        };
        BitDataSet::from_columns(vec![column], PreprocessOptions::default(), true).unwrap()
    };
    let context = pipeline_context(table(), 3, 3);
    let weights = context.bit_data.info.m_condensed_sample_weights().clone().unwrap();
    let compressed = EncodeDataOffsetRLE {}.process(context).unwrap();
    let file = TgdFile::from_compressed_data(compressed.clone()).unwrap();
    let loaded = file.to_compressed_data().unwrap();
    assert_rows_of_file(&table(), &loaded);
    let condensed = decompress_analytics(&loaded).unwrap();
    assert_eq!(condensed.weights, weights);
    assert_eq!(condensed, decompress_analytics(&compressed).unwrap());
}

#[test]
fn condensed_rows_come_out_of_files() {
    // The first two bits tell the groups apart, the next two are the same in all rows, and in each
    // group the others have an average without a carry.
    let set = || {
        let rows = ["0110000", "0110010", "1010100", "1010110", "1110001", "1110001"];
        let bits: Vec<bool> = rows.iter().flat_map(|row| row.chars().map(|c| c == '1')).collect();
        BitDataSet {
            data: BitData {
                data: BitStream::from_bools(&bits),
                num_rows: 6,
                stride: 7,
                chunk_size: 7,
            },
            info: BitDataInfo::new(uint_features(1, 7), 42).unwrap(),
        }
    };
    let scores = entropies(6);
    let condensed = condensed_of(&set(), &calculate_entropy(&set(), &scores), 3);
    let (samples, weights) = (condensed.samples.len(), condensed.weights.clone());
    assert_eq!(weights.iter().sum::<usize>(), 6);
    let expected: Vec<Vec<bool>> = condensed.samples.iter().map(|row| row.to_bools()).collect();
    let pipeline = CompressionPipeline::new(CompressionParams::new(3, 3, true));
    let compressed = pipeline.compress(set(), &scores, condensed);
    let file = EgdFile::from_compressed_data(compressed).unwrap();
    let loaded = file.to_compressed_data().unwrap();
    let found = decompress_analytics(&loaded).unwrap();
    assert_eq!(found.weights, weights);
    let rows: Vec<Vec<bool>> = found.samples.iter().map(|row| row.to_bools()).collect();
    assert_eq!(rows, expected);
    assert_rows_of_file(&set(), &loaded);
    let indices: Vec<usize> = (6..6 + samples).collect();
    assert_eq!(decompress_rows(&loaded, &indices).unwrap(), found.samples);
}

#[test]
fn rows_of_files_have_the_bits_that_all_rows_share() {
    let set = || BitDataSet {
        data: BitData {
            data: bits_of(&[1, 0, 1, 0, 1, 0, 0, 0]),
            num_rows: 2,
            stride: 4,
            chunk_size: 4,
        },
        info: BitDataInfo::new(uint_features(1, 4), 8).unwrap(),
    };
    let condensed = CondensedSamples { samples: vec![bits_of(&[0, 1, 1, 1])], weights: vec![2] };
    let pipeline = CompressionPipeline::new(CompressionParams::new(1, 3, true));
    let compressed = pipeline.compress(set(), &entropies(2), condensed);
    let file = EgdFile::from_compressed_data(compressed).unwrap();
    let found = decompress_analytics(&file.to_compressed_data().unwrap()).unwrap();
    assert_eq!(found.samples, vec![bits_of(&[1, 0, 1, 0])]);
    assert_eq!(found.weights, vec![2]);
    let back = load_and_decompress_egd(file.as_bytes().clone()).unwrap();
    assert_same_rows(&set().data, &back.data);
}

#[test]
fn files_of_built_tables_keep_everything() {
    let set = varied_set(30);
    let entropy = calculate_entropy(&set, &entropies(30));
    let groups = optimize_with_tau(&set, &entropy, 5);
    for encode in [false, true] {
        let context = build_base_table(varied_set(30), &groups, None);
        let compressed = if encode {
            EncodeDataOffsetRLE {}.process(context).unwrap()
        } else {
            EncodeData {}.process(context).unwrap()
        };
        let file = EgdFile::from_compressed_data(compressed.clone()).unwrap();
        let loaded = file.to_compressed_data().unwrap();
        assert_eq!(loaded.metadata, compressed.metadata);
        assert_eq!(loaded.layout, compressed.layout);
        assert_eq!(loaded.base_table.as_raw(), compressed.base_table.as_raw());
        assert_eq!(
            loaded.encoded_data.encoded_bit_stream(),
            compressed.encoded_data.encoded_bit_stream()
        );
    }
}

#[test]
fn padding_of_decompressed_rows_is_clear() {
    let column = Column {
        name: "t".to_string(),
        data_type: ColumnDataType::UInt8,
        values: ColumnValues::Unsigned(vec![3, 1, 2]),
    };
    let set = BitDataSet::from_columns(vec![column], PreprocessOptions::default(), true).unwrap();
    let (stride, width) = (set.data.stride, set.data.chunk_size);
    assert!(width < stride);
    let bits = set.data.data.to_bools();
    let found = decompress_file(EncodeData {}.process(context_of(set, &[0])).unwrap()).unwrap();
    assert_eq!(found.data.data.to_bools(), bits);
    for row in 0..3 {
        assert!(bits[row * stride + width..(row + 1) * stride].iter().all(|bit| !bit));
    }
}

#[test]
fn features_have_the_stored_width() {
    let info = BitDataInfo::new(
        vec![FeatureSpec {
            data_type: FeatureDataType::UInt(8),
            transform: FeatureTransform::Verbatim,
        }],
        24,
    )
    .unwrap();
    let compressed = EncodeData {}.process(context_of(zero_set(3, 8, info), &[])).unwrap();
    let bytes = EgdFile::from_compressed_data(compressed).unwrap().as_bytes().clone();
    assert_eq!(bytes[29], 11);
    let read = |tag: u8| {
        let mut changed = bytes.clone();
        changed[29] = tag;
        EgdFile::from_bytes(changed).to_compressed_data()
    };
    for (tag, expected) in [
        (0, FeatureDataType::Int8),
        (4, FeatureDataType::UInt8),
        (5, FeatureDataType::UInt(8)),
        (10, FeatureDataType::UInt(8)),
        (11, FeatureDataType::UInt(8)),
    ] {
        let loaded = read(tag).unwrap();
        assert_eq!(loaded.metadata.features()[0].data_type, expected);
        assert_eq!(decompress_file(loaded).unwrap().num_rows(), 3);
    }
    assert!(matches!(read(12), Err(EntroGdError::InvalidMetadata { .. })));
}

#[test]
fn damaged_files_are_refused() {
    let compressed = EncodeData {}.process(context_of(varied_set(9), &[0, 1])).unwrap();
    let bytes = EgdFile::from_compressed_data(compressed).unwrap().as_bytes().clone();
    for len in 0..bytes.len() {
        assert!(matches!(
            load_and_decompress_egd(bytes[0..len].to_vec()),
            Err(EntroGdError::InvalidMetadata { .. })
        ));
    }
    let mut version = bytes.clone();
    version[3] = 99;
    assert!(load_and_decompress_egd(version).is_err());
}

#[test]
fn bases_that_do_not_exist_are_reported() {
    let mut compressed = EncodeData {}.process(context_of(varied_set(9), &[0, 1, 2])).unwrap();
    if let BaseTable::Raw(rows) = &mut compressed.base_table {
        rows.truncate(1);
    }
    match decompress_file(compressed) {
        Err(EntroGdError::InvalidBaseId { base_id, table_len }) => {
            assert_eq!((base_id, table_len), (1, 1));
        }
        _ => panic!("expected a missing base"),
    }
    let mut short = EncodeData {}.process(context_of(varied_set(9), &[0, 1])).unwrap();
    short.metadata = BitDataInfo::new(uint_features(8, 3), 24 * 20).unwrap();
    match decompress_file(short) {
        Err(EntroGdError::DecompressionSampleMissing { sample_idx }) => assert_eq!(sample_idx, 9),
        _ => panic!("expected a missing row"),
    }
}

#[test]
fn extensions_of_files() {
    assert_eq!(ensure_egd_extension(Some("egd")), None);
    assert_eq!(ensure_egd_extension(Some("EgD")), None);
    assert_eq!(ensure_egd_extension(Some("csv")), Some("egd"));
    assert_eq!(ensure_tgd_extension(Some("tGd")), None);
    assert_eq!(ensure_tgd_extension(Some("csv")), Some("tgd"));
    assert_eq!(ensure_igd_extension(None), Some("igd"));
    assert_eq!(ensure_igd_extension(Some("IGD")), None);
    assert_eq!(ensure_csv_extension(Some("txt")), Some("csv"));
    assert_eq!(ensure_csv_extension(Some("CSV")), None);
}
