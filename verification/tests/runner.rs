//! Runs, their reports, and the choice of base bits.
use entro_gd::analytics::decompress_analytics;
use entro_gd::base_bits::BaseBitGroups;
use entro_gd::base_table_builder::build_base_table;
use entro_gd::decompression::decompress_file;
use entro_gd::base_table::{BaseBitLayoutState, BaseLayoutInfo, PreEncodeContext};
use entro_gd::bits::BitStream;
use entro_gd::data::{BitDataInfo, FeatureDataType, FeatureSpec, FeatureTransform};
use entro_gd::dataset::{BitData, BitDataSet};
use entro_gd::encoding::compressed::{BaseTable, CondensedSamples, EncodedData};
use entro_gd::entropy::{
    calculate_entropy, count_ones, Entropy, EntropyScoredContext,
};
use entro_gd::error::EntroGdError;
use entro_gd::filter_pipeline::Filter;
use entro_gd::pipeline::compress::compress;
use entro_gd::pipeline::condense::condensed_groups;
use entro_gd::pipeline::condensed_rows::{check_averages, condensed_rows, group_sums};
use entro_gd::pipeline::encoder::encode_data as encode_groups;
use entro_gd::pipeline::implementation::{extend_rows, CompressionPipeline};
use entro_gd::pipeline::interface::CompressionParams;
use entro_gd::pipeline::ordering::organize_entropy_by_feature;
use entro_gd::pipeline::search::{
    calculate_compressed_size, count_flat, sort_by_score, BaseSearch,
};
use entro_gd::pipeline::selection::optimize_with_tau;
use entro_gd::pipeline_profiles::choices::{EncodeImpl, SelectBasesImpl};
use entro_gd::pipeline_profiles::profiles::PipelineProfileSet;
use entro_gd::pipeline_runner::inputs::{
    collect_dir, collect_input_files, detect_input_kind, filled_cells, profile_count, total_runs,
    ExperimentRunOptions, InputKind, PathAction, PathTarget,
};
use entro_gd::pipeline_runner::report::{
    processed_files, write_report_csv, CompressionStageDurationsMs, ExperimentConfigColumns,
    ExperimentRecord, StageSetup,
};
use entro_gd::pipeline_runner::sizes::{estimate_size_breakdown_bits, CompressedSizeBreakdownBits};
use entro_gd::pipeline_runner::stages::encode_data;
use entro_gd::timing::{mirror_enabled, parse_bool_env, timing_enabled, Level, ScopedTimer};

fn one_bit_features(count: usize) -> Vec<FeatureSpec> {
    vec![
        FeatureSpec {
            data_type: FeatureDataType::UInt(1),
            transform: FeatureTransform::Verbatim,
        };
        count
    ]
}

fn set_of(rows: &[&str]) -> BitDataSet {
    let chunk_size = rows[0].len();
    let bits: Vec<bool> = rows.iter().flat_map(|row| row.chars().map(|c| c == '1')).collect();
    BitDataSet {
        data: BitData {
            data: BitStream::from_bools(&bits),
            chunk_size,
            stride: chunk_size,
            num_rows: rows.len(),
        },
        info: BitDataInfo::new(one_bit_features(chunk_size), chunk_size * rows.len()).unwrap(),
    }
}

/// The entropies of bits that are set in none of the rows, in one of them, and so on.
fn entropies(rows: usize) -> Vec<u64> {
    (0..=rows)
        .map(|count| {
            let p = count as f64 / rows as f64;
            if count == 0 || count == rows {
                0.0f64
            } else {
                -p * p.log2() - (1.0 - p) * (1.0 - p).log2()
            }
        })
        .map(|entropy| entropy.to_bits())
        .collect()
}

#[test]
fn test_entropy_calculation_1() {
    let bit_data = set_of(&["101", "110", "001", "010"]);
    let entries = calculate_entropy(&bit_data, &entropies(4));
    assert_eq!(entries.len(), 3);
}

fn six_rows() -> BitDataSet {
    set_of(&["10100110", "11011100", "01101011", "10001101", "01001101", "11011100"])
}

#[test]
fn test_entropy_calculation_2() {
    let entries = calculate_entropy(&six_rows(), &entropies(6));
    let expected_entropies = vec![
        (0, 0.9183),
        (1, 0.9183),
        (2, 0.9183),
        (3, 0.9183),
        (4, 0.65002),
        (5, 0.65002),
        (6, 0.9183),
        (7, 1.0),
    ];
    assert_eq!(entries.len(), 8);
    assert_eq!(
        entries
            .iter()
            .map(|(i, e)| (*i, (f64::from_bits(*e) * 100_000.0).round() / 100_000.0))
            .collect::<Vec<_>>(),
        expected_entropies
    );
    assert_eq!(count_ones(&six_rows(), 4), 5);
}

#[test]
fn test_pipeline_with_entropy() {
    let entropy_filter = Entropy { score_of_count: entropies(6) };
    let entropy_scored = entropy_filter.process(six_rows()).unwrap();
    assert_eq!(entropy_scored.entropy_scores.len(), 8);
}

#[test]
fn test_entropy_context_derives_constant_bit_polarity() {
    let bit_data = set_of(&["0110", "0100", "0111", "0101"]);
    let context = EntropyScoredContext::new(
        bit_data,
        vec![(0, 0.0f64.to_bits()), (1, 0.0f64.to_bits()), (2, 1.0f64.to_bits())],
    );
    assert_eq!(context.constant_bit_polarity.constant_zero_bit_positions, vec![0]);
    assert_eq!(context.constant_bit_polarity.constant_one_bit_positions, vec![1]);
}

#[test]
fn constant_bits_of_measured_rows() {
    let context = Entropy { score_of_count: entropies(3) }
        .process(set_of(&["01011", "01101", "01001"]))
        .unwrap();
    assert_eq!(context.constant_bit_polarity.constant_zero_bit_positions, vec![0]);
    assert_eq!(context.constant_bit_polarity.constant_one_bit_positions, vec![1, 4]);
    let none = BitDataSet {
        data: BitData {
            data: BitStream::from_bools(&vec![]),
            chunk_size: 2,
            stride: 2,
            num_rows: 0,
        },
        info: BitDataInfo::new(one_bit_features(2), 0).unwrap(),
    };
    let empty = Entropy { score_of_count: vec![] }.process(none).unwrap();
    assert_eq!(empty.constant_bit_polarity.constant_zero_bit_positions, vec![0, 1]);
    assert!(empty.constant_bit_polarity.constant_one_bit_positions.is_empty());
}

#[test]
fn bits_are_taken_from_the_features_in_turn() {
    let features = vec![
        FeatureSpec {
            data_type: FeatureDataType::UInt(3),
            transform: FeatureTransform::Verbatim,
        };
        2
    ];
    let info = BitDataInfo::new(features, 6).unwrap();
    let entries = vec![(0, 30), (1, 0), (2, 10), (3, 7), (4, 5), (5, 7), (6, 1), (9, 0)];
    assert_eq!(
        organize_entropy_by_feature(&entries, &info),
        vec![(1, 0), (2, 10), (4, 5), (0, 30), (3, 7), (5, 7)]
    );
}

#[test]
fn entries_are_sorted_by_entropy() {
    let sorted = sort_by_score(&vec![(0, 5), (1, 0), (2, 5), (3, 1), (4, 0)]);
    assert_eq!(sorted, vec![(1, 0), (4, 0), (3, 1), (0, 5), (2, 5)]);
    assert_eq!(count_flat(&sorted), 2);
}

#[test]
fn sizes_with_base_tables() {
    assert_eq!(calculate_compressed_size(1, 0, 100, 8), 800);
    assert_eq!(calculate_compressed_size(4, 3, 100, 8), 4 * 3 + 100 * (5 + 2));
    assert_eq!(calculate_compressed_size(5, 9, 10, 8), 5 * 8 + 10 * 3);
    assert_eq!(calculate_compressed_size(0, 0, 0, 8), 0);
}

#[test]
fn the_search_stops_where_bits_bring_nothing() {
    let choose = |sizes: &[usize], tau: usize| {
        let mut search = BaseSearch::new(tau, sizes[0]);
        for size in &sizes[1..] {
            if !search.try_size(*size) {
                break;
            }
        }
        search.best
    };
    assert_eq!(choose(&[100, 90, 95, 80, 99, 99, 10], 2), 3);
    assert_eq!(choose(&[100, 90, 95, 80, 99, 99, 10], 3), 6);
    assert_eq!(choose(&[100, 90, 80], 0), 1);
    assert_eq!(choose(&[100, 100, 100], 9), 0);
    assert_eq!(choose(&[7], 1), 0);
    let mut search = BaseSearch::new(1, 50);
    assert!(search.try_size(40));
    assert!(!search.try_size(40));
    assert_eq!((search.best, search.best_size), (1, 40));
}

#[test]
fn groups_of_rows() {
    let set = set_of(&["1010", "1011", "0010", "1010"]);
    let mut groups = BaseBitGroups::new(&set);
    assert_eq!((groups.get_num_bases(), groups.get_num_bits_per_base()), (1, 0));
    groups.add_constant_bit_position(&set, 1);
    assert_eq!((groups.get_num_bases(), groups.get_num_bits_per_base()), (1, 1));
    groups.add_bit_position(&set, 3);
    assert_eq!(groups.row_to_id, vec![0, 1, 0, 0]);
    groups.add_bit_position(&set, 0);
    assert_eq!(groups.row_to_id, vec![0, 1, 2, 0]);
    assert_eq!((groups.get_num_bases(), groups.get_num_bits_per_base()), (3, 3));

    let context = build_base_table(set, &groups, None);
    assert_eq!(context.layout.variable_base_bit_positions(), vec![0, 3]);
    assert_eq!(context.layout.constant_zero_bit_positions(), vec![1]);
    let table: Vec<(Vec<bool>, usize)> = context
        .variable_base_table
        .iter()
        .map(|(bits, count)| (bits.to_bools(), *count))
        .collect();
    assert_eq!(
        table,
        vec![(vec![true, false], 2), (vec![true, true], 1), (vec![false, false], 1)]
    );
}

#[test]
fn base_bits_are_chosen_by_size() {
    // Eight rows of two kinds: the first four bits go together.
    let set = set_of(&[
        "11110101", "11110110", "11110011", "11110000", "00000101", "00001010", "00000110",
        "11110111",
    ]);
    let entries = calculate_entropy(&set, &entropies(8));
    let groups = optimize_with_tau(&set, &entries, 4);
    assert!(groups.constant_bits.is_empty());
    assert_eq!(groups.get_num_bits_per_base(), groups.variable_bits.len());
    let none = optimize_with_tau(&set, &vec![], 4);
    assert_eq!(none.get_num_bases(), 1);
    assert!(none.variable_bits.is_empty());
}

#[test]
fn bits_are_taken_until_there_are_enough_groups() {
    let set = set_of(&["1010", "1011", "0010", "1001"]);
    let entries = vec![(0, 7), (1, 0), (2, 9), (3, 5)];
    let none = condensed_groups(&set, &entries, 1);
    assert_eq!((none.variable_bits, none.constant_bits), (vec![], vec![]));
    let two = condensed_groups(&set, &entries, 2);
    assert_eq!((two.variable_bits, two.constant_bits), (vec![0], vec![1]));
    assert_eq!(two.row_to_id, vec![0, 0, 1, 0]);
    let all = condensed_groups(&set, &entries, 100);
    assert_eq!((all.variable_bits, all.constant_bits), (vec![0, 2, 3], vec![1]));
    assert_eq!(all.num_bases, 4);
}

#[test]
fn groups_are_condensed() {
    // Bit 0 tells the groups apart and bit 3 is the same in all rows.
    let set = set_of(&["10011", "10111", "00010", "11011", "00110"]);
    let mut groups = BaseBitGroups::new(&set);
    groups.add_bit_position(&set, 0);
    groups.add_constant_bit_position(&set, 3);
    assert_eq!(groups.row_to_id, vec![0, 0, 1, 0, 1]);
    // Without bits 0 and 3: 1 + 5 + 9, and 0 + 4.
    assert_eq!(group_sums(&set, &groups), vec![vec![15u128], vec![4]]);

    let averages = vec![vec![5], vec![2]];
    assert!(check_averages(&set, &groups, &averages));
    let condensed = condensed_rows(&set, &groups, &averages);
    assert_eq!(condensed.weights, vec![3, 2]);
    let rows: Vec<Vec<bool>> = condensed.samples.iter().map(|row| row.to_bools()).collect();
    // 10010 + 5, and 00010 + 2, which carries into the next bit.
    assert_eq!(rows[0], vec![true, false, true, true, true]);
    assert_eq!(rows[1], vec![false, false, true, false, false]);

    assert!(!check_averages(&set, &groups, &vec![vec![5]]));
    assert!(!check_averages(&set, &groups, &vec![vec![5], vec![]]));
    assert!(!check_averages(&set, &groups, &vec![vec![u64::MAX], vec![2]]));
    assert!(check_averages(&set, &groups, &vec![vec![u64::MAX - 18], vec![2]]));
}

#[test]
fn condensed_words_of_wide_rows() {
    let one = "1".repeat(64) + "011";
    let other = "0".repeat(64) + "110";
    let set = set_of(&[&one, &other]);
    let groups = BaseBitGroups::new(&set);
    assert_eq!(group_sums(&set, &groups), vec![vec![u128::from(u64::MAX), 9]]);
    let condensed = condensed_rows(&set, &groups, &vec![vec![1 << 63, 4]]);
    let bits = condensed.samples[0].to_bools();
    let ones: Vec<usize> = (0..67).filter(|bit| bits[*bit]).collect();
    assert_eq!(ones, vec![0, 64]);
    assert_eq!(condensed.weights, vec![2]);
    // A row by itself stands for itself.
    let alone = set_of(&[&one]);
    let groups = BaseBitGroups::new(&alone);
    let condensed = condensed_rows(&alone, &groups, &vec![vec![u64::MAX, 3]]);
    assert_eq!(condensed.samples[0], alone.get_chunk(0));
}

#[test]
fn entropy_is_the_same_for_turned_bits_and_other_orders() {
    let scores = entropies(4);
    let plain = calculate_entropy(&set_of(&["1100", "1010", "1001", "1000"]), &scores);
    let shuffled = calculate_entropy(&set_of(&["1000", "1100", "1001", "1010"]), &scores);
    assert_eq!(plain, shuffled);
    let turned = calculate_entropy(&set_of(&["0011", "0101", "0110", "0111"]), &scores);
    for (one, other) in plain.iter().zip(turned.iter()) {
        assert_eq!(one.0, other.0);
        let difference = f64::from_bits(one.1) - f64::from_bits(other.1);
        assert!(difference.abs() < 1e-12);
    }
}

#[test]
fn bits_behind_the_rows_do_not_count() {
    let mut set = set_of(&["101", "011", "111"]);
    set.data.num_rows = 2;
    set.info = BitDataInfo::new(one_bit_features(3), 6).unwrap();
    let expected = set_of(&["101", "011"]);
    assert_eq!(
        calculate_entropy(&set, &entropies(2)),
        calculate_entropy(&expected, &entropies(2))
    );
    let more = extend_rows(set, &vec![BitStream::from_bools(&vec![true, false, false])]);
    assert_eq!(more.num_rows(), 3);
    assert_eq!(more.get_chunk(1), expected.get_chunk(1));
    assert_eq!(more.get_chunk(2).to_bools(), vec![true, false, false]);
    assert_eq!(more.data.data.to_bools().len(), 9);
}

#[test]
fn condensed_rows_stand_behind_the_others() {
    let samples = || CondensedSamples {
        samples: vec![
            BitStream::from_bools(&vec![true; 8]),
            BitStream::from_bools(&vec![false; 8]),
        ],
        weights: vec![4, 2],
    };
    let rows = |params: CompressionParams| {
        let pipeline = CompressionPipeline::new(params);
        assert_eq!(*pipeline.params(), params);
        let data = pipeline.compress(six_rows(), &entropies(6), samples());
        let found = (data.encoded_data.get_num_samples(), data.condensed_sample_weights.clone());
        let condensed = decompress_analytics(&data).unwrap();
        assert_eq!(condensed.weights, found.1.clone().unwrap_or_default());
        for (sample, expected) in condensed.samples.iter().zip(samples().samples.iter()) {
            assert_eq!(sample, expected);
        }
        assert_eq!(condensed.samples.len(), condensed.weights.len());
        let set = decompress_file(data).unwrap();
        assert_eq!(set.num_rows(), 6);
        for row in 0..6 {
            assert_eq!(set.data.get_chunk(row), six_rows().data.get_chunk(row));
        }
        found
    };
    assert_eq!(rows(CompressionParams::new(4, 3, true)), (8, Some(vec![4, 2])));
    assert_eq!(rows(CompressionParams::new(0, 3, true)), (6, Some(vec![])));
    assert_eq!(rows(CompressionParams::new(4, 3, false)), (6, None));

    let more = extend_rows(six_rows(), &samples().samples);
    assert_eq!(more.num_rows(), 8);
    assert_eq!(more.get_chunk(6).to_bools(), vec![true; 8]);
    assert_eq!(more.get_chunk(0), six_rows().get_chunk(0));
}

#[test]
fn condensed_rows_that_are_missing() {
    let mut data = compress(six_rows(), &entropies(6), 3);
    assert_eq!(decompress_analytics(&data).unwrap().samples, vec![]);
    data.condensed_sample_weights = Some(vec![6]);
    assert_eq!(
        decompress_analytics(&data),
        Err(EntroGdError::DecompressionSampleMissing { sample_idx: 6 })
    );
}

#[test]
fn compressed_rows_come_out_again() {
    for patience in [0usize, 1, 5] {
        let compressed = compress(six_rows(), &entropies(6), patience);
        let set = decompress_file(compressed).unwrap();
        for row in 0..6 {
            assert_eq!(set.data.get_chunk(row), six_rows().data.get_chunk(row));
        }
    }
    let same = compress(set_of(&["1010", "1010"]), &entropies(2), 3);
    assert_eq!(same.layout.variable_base_bit_positions(), vec![]);
    assert_eq!(same.layout.constant_one_bit_positions(), vec![0, 2]);
    assert_eq!(decompress_file(same).unwrap().data.get_chunk(1).to_bools(), vec![true, false, true, false]);
}

#[test]
fn rows_with_numbered_groups() {
    let data = encode_groups(
        &set_of(&["1010", "1111", "0010"]),
        &BitStream::from_bools(&vec![true, false, true, false]),
        &vec![vec![0, 1], vec![], vec![2]],
    );
    assert_eq!(data.get_num_deviation_bits(), 2);
    assert_eq!(data.get_num_id_bits(), 2);
    let bits: String = data
        .encoded_bit_stream()
        .to_bools()
        .iter()
        .map(|bit| if *bit { '1' } else { '0' })
        .collect();
    assert_eq!(bits, "000011000010");
}

#[test]
fn settings_of_a_pipeline() {
    let params = CompressionParams::new(5, 7, true);
    assert_eq!(params.base_optimization_patience, 7);
    assert!(params.makes_condensed_samples());
    assert!(!CompressionParams::new(0, 7, true).makes_condensed_samples());
    assert_eq!(params.kept_weights(vec![1]), Some(vec![1]));
    assert_eq!(CompressionParams::new(5, 7, false).kept_weights(vec![1]), None);
}

#[test]
fn kinds_of_files() {
    assert_eq!(detect_input_kind(Some("csv")), InputKind::Csv);
    assert_eq!(detect_input_kind(Some("CsV")), InputKind::Csv);
    for extension in ["png", "jpg", "JPEG", "bmp", "GIF", "tiff", "WebP"] {
        assert_eq!(detect_input_kind(Some(extension)), InputKind::Image);
    }
    for extension in ["tifff", "", "cs", "csvx"] {
        assert_eq!(detect_input_kind(Some(extension)), InputKind::Unsupported);
    }
    assert_eq!(detect_input_kind(None), InputKind::Unsupported);
}

#[test]
fn the_search_for_files() {
    assert_eq!(collect_input_files("a", PathTarget::File), Ok(PathAction::Take));
    assert_eq!(collect_input_files("a", PathTarget::Directory), Ok(PathAction::Search));
    assert_eq!(
        collect_input_files("nowhere", PathTarget::Missing),
        Err(EntroGdError::InvalidMetadata {
            message: "input path does not exist: nowhere".to_string()
        })
    );
    let flat = ExperimentRunOptions::default();
    let deep = ExperimentRunOptions { recursive: true };
    assert_eq!(collect_dir(PathTarget::File, flat), PathAction::Take);
    assert_eq!(collect_dir(PathTarget::Directory, flat), PathAction::Pass);
    assert_eq!(collect_dir(PathTarget::Directory, deep), PathAction::Search);
    assert_eq!(collect_dir(PathTarget::Missing, deep), PathAction::Pass);
}

#[test]
fn numbers_of_runs() {
    let kinds = vec![InputKind::Csv, InputKind::Unsupported, InputKind::Image, InputKind::Csv];
    assert_eq!(total_runs(&kinds, 3, 2), 8);
    assert_eq!(profile_count(InputKind::Image, 3, 2), 2);
    assert_eq!(filled_cells(0, 0), 24);
    assert_eq!(filled_cells(1, 3), 8);
    assert_eq!(filled_cells(2, 7), 6);
    assert_eq!(filled_cells(9, 7), 24);
}

fn context() -> PreEncodeContext {
    PreEncodeContext {
        bit_data: set_of(&["1010", "1011", "0010", "0011"]),
        layout: BaseLayoutInfo::from_bit_states(vec![
            BaseBitLayoutState::Variable,
            BaseBitLayoutState::ConstantZero,
            BaseBitLayoutState::ConstantOne,
            BaseBitLayoutState::Deviation,
        ]),
        variable_base_table: vec![
            (BitStream::from_bools(&vec![true]), 2),
            (BitStream::from_bools(&vec![false]), 2),
        ],
        row_to_base_id: vec![0, 0, 1, 1],
        entropy_sorted_column_order: Some(vec![0]),
    }
}

#[test]
fn the_encoding_that_a_profile_asks_for() {
    let encoded = |choice, delta| encode_data(choice, delta, context()).unwrap();
    assert!(matches!(encoded(EncodeImpl::Naive, false).encoded_data, EncodedData::Normal(_)));
    assert!(matches!(encoded(EncodeImpl::Optimized, false).encoded_data, EncodedData::Normal(_)));
    assert!(matches!(encoded(EncodeImpl::Rle, false).encoded_data, EncodedData::Rle(_)));
    assert!(matches!(encoded(EncodeImpl::Huffman, false).encoded_data, EncodedData::Huffman(_)));
    assert!(matches!(encoded(EncodeImpl::Naive, true).base_table, BaseTable::Delta(_)));
    assert!(matches!(encoded(EncodeImpl::Naive, false).base_table, BaseTable::Raw(_)));
}

#[test]
fn sizes_of_compressed_rows() {
    let plain = estimate_size_breakdown_bits(&encode_data(EncodeImpl::Naive, false, context()).unwrap());
    assert_eq!(plain.encoded_stream_total, 8);
    assert_eq!(plain.normal_symbol_stream_bits, 8);
    assert_eq!(plain.rle_packet_count, 0);
    // A tag, a count and two bases of one bit, in whole bytes.
    assert_eq!(plain.base_table_patterns, 80);
    assert_eq!(plain.base_bit_positions, 3 * 2);
    assert_eq!(plain.condensed_weights, 0);
    assert_eq!(plain.estimated_total, 8 + 80 + 6);

    let delta = estimate_size_breakdown_bits(&encode_data(EncodeImpl::Naive, true, context()).unwrap());
    assert!(delta.base_table_patterns > 8 + 64 * 4);
    assert_eq!(delta.base_table_patterns % 8, 0);

    let coded = estimate_size_breakdown_bits(&encode_data(EncodeImpl::Huffman, false, context()).unwrap());
    assert_eq!(coded.huffman_symbol_table_bits, 2 * 2);
    assert_eq!(coded.huffman_code_lengths_bits, 10);
    assert_eq!(coded.huffman_pixel_stream_bits, 4);
    assert_eq!(coded.encoded_payload_bits, 4);
    assert_eq!(coded.normal_symbol_stream_bits, 0);

    let runs = encode_data(EncodeImpl::Rle, false, context()).unwrap();
    let sizes = estimate_size_breakdown_bits(&runs);
    match &runs.encoded_data {
        EncodedData::Rle(data) => {
            assert_eq!(sizes.rle_packet_count, data.rm_values().len());
            assert_eq!(sizes.rle_control_stream_bits, data.rm_control_stream().to_bools().len());
            assert_eq!(sizes.rle_symbol_stream_bits, data.symbol_bit_stream().to_bools().len());
        }
        _ => panic!("expected runs"),
    }
}

fn stages() -> StageSetup {
    StageSetup {
        entropy_impl: "Naive".to_string(),
        entropy_skip_rows: 4,
        use_condensed_samples: true,
        base_table_impl: "Sorted".to_string(),
        delta_encode_base_table: false,
    }
}

fn record(path: &str, kind: InputKind, config: ExperimentConfigColumns) -> ExperimentRecord {
    let ms = |text: &str| text.to_string();
    ExperimentRecord {
        file_path: path.to_string(),
        kind,
        preset_name: "preset".to_string(),
        config,
        select_impl: SelectBasesImpl::OptimizedV2,
        base_bit_impl: "BatchGroups".to_string(),
        encode_impl: EncodeImpl::Rle,
        m_max: 25,
        patience: 10,
        stage_ms: CompressionStageDurationsMs {
            load_input: ms("1.000000"),
            preprocess: ms("2.000000"),
            entropy: ms("3.000000"),
            condensed_samples: ms("4.000000"),
            select_bases: ms("5.000000"),
            encode: ms("6.000000"),
            total: ms("21.000000"),
        },
        original_bits: 1000,
        size_breakdown_bits: CompressedSizeBreakdownBits {
            encoded_stream_total: 1,
            encoded_payload_bits: 2,
            normal_symbol_stream_bits: 3,
            rle_symbol_stream_bits: 4,
            rle_control_stream_bits: 5,
            rle_packet_count: 6,
            huffman_pixel_stream_bits: 7,
            huffman_row_offsets_bits: 8,
            huffman_symbol_table_bits: 9,
            huffman_code_lengths_bits: 10,
            base_table_patterns: 11,
            base_bit_positions: 12,
            condensed_weights: 13,
            estimated_total: 14,
        },
    }
}

#[test]
fn the_report_on_runs() {
    let profiles = PipelineProfileSet::default_profiles();
    let records = vec![
        record(
            "a.csv",
            InputKind::Csv,
            ExperimentConfigColumns::of_table(&profiles.csv[0], stages()),
        ),
        record(
            "b.png",
            InputKind::Image,
            ExperimentConfigColumns::of_image(&profiles.image[1], stages()),
        ),
        record("a.csv", InputKind::Csv, ExperimentConfigColumns::default()),
    ];
    let report = write_report_csv(&records);
    let lines: Vec<&str> = report.split('\n').collect();
    assert_eq!(lines.len(), 5);
    assert_eq!(lines[4], "");
    assert_eq!(
        lines[0],
        "file_path,input_kind,preset,select_impl,base_bit_impl,entropy_impl,entropy_skip_rows,\
         use_condensed_samples,base_table_impl,delta_encode_base_table,encode_impl,m_max,patience,\
         csv_has_headers,csv_float_storage,csv_missing_value_policy,csv_float_scaling,\
         csv_max_decimal_scale,csv_integer_zero_normalization,image_colorspace,image_color_model,\
         image_pixel_grouping,image_grouping_transform,original_bits,load_ms,preprocess_ms,\
         entropy_ms,condensed_ms,select_ms,encode_ms,total_ms,encoded_stream_total_bits,\
         encoded_payload_bits,normal_symbol_stream_bits,rle_symbol_stream_bits,\
         rle_control_stream_bits,rle_packet_count,huffman_pixel_stream_bits,\
         huffman_row_offsets_bits,huffman_symbol_table_bits,huffman_code_lengths_bits,\
         base_table_pattern_bits,base_bit_positions_bits,condensed_weights_bits,\
         estimated_total_bits"
    );
    assert_eq!(
        lines[1],
        "a.csv,Csv,preset,OptimizedV2,BatchGroups,Naive,4,true,Sorted,false,Rle,25,10,true,F32,\
         Error,ScaledOffsetSignedInt,9,true,,,,,1000,1.000000,2.000000,3.000000,4.000000,\
         5.000000,6.000000,21.000000,1,2,3,4,5,6,7,8,9,10,11,12,13,14"
    );
    assert_eq!(
        lines[2],
        "b.png,Image,preset,OptimizedV2,BatchGroups,Naive,4,true,Sorted,false,Rle,25,10,,,,,,,\
         SrgbWithLinearAlpha,YCoCgR,1,ForFirstPixel,1000,1.000000,2.000000,3.000000,4.000000,\
         5.000000,6.000000,21.000000,1,2,3,4,5,6,7,8,9,10,11,12,13,14"
    );
    for line in &lines[0..4] {
        assert_eq!(line.split(',').count(), 45);
    }
    assert_eq!(processed_files(&records), 2);
    assert_eq!(processed_files(&vec![]), 0);
}

#[test]
fn settings_of_the_log() {
    for off in ["0", "false", "FALSE", "False", "no", "NO", "off", "OFF"] {
        assert!(!parse_bool_env(off));
        assert!(!timing_enabled(Some(off)));
    }
    for on in ["1", "true", "", "No", "Off"] {
        assert!(parse_bool_env(on));
    }
    assert!(timing_enabled(None));
    for on in ["1", "true", "TRUE", "yes", "YES"] {
        assert!(mirror_enabled(Some(on)));
    }
    assert!(!mirror_enabled(Some("True")));
    assert!(!mirror_enabled(None));
}

#[test]
fn messages_of_timers() {
    let timer = ScopedTimer::info("stage".to_string(), true, true);
    assert_eq!(timer.level, Level::Info);
    assert_eq!(timer.message("1.5ms"), Some("stage completed in 1.5ms".to_string()));
    assert_eq!(ScopedTimer::debug("stage".to_string(), true, false).message("1s"), None);
    assert_eq!(ScopedTimer::trace("stage".to_string(), false, true).message("1s"), None);
    assert_eq!(ScopedTimer::new(Level::Warn, "w".to_string(), true, true).level, Level::Warn);
}

#[test]
fn errors_in_words() {
    assert_eq!(
        EntroGdError::BitSliceLengthMismatch { expected: 3, actual: 4 }.describe(),
        "Bit slice length mismatch (expected 3, got 4)"
    );
    assert_eq!(
        EntroGdError::DecompressionSampleMissing { sample_idx: 12 }.describe(),
        "Failed to retrieve sample at index 12"
    );
    assert_eq!(
        EntroGdError::InvalidBaseId { base_id: 10, table_len: 7 }.describe(),
        "Invalid base ID: 10 (base table has 7 entries)"
    );
    assert_eq!(
        EntroGdError::InvalidMetadata { message: "m".to_string() }.describe(),
        "Invalid compression metadata: m"
    );
    assert_eq!(
        EntroGdError::InvalidFeatureSpec { message: "m".to_string() }.describe(),
        "Invalid feature specification: m"
    );
    let mut data = BitData {
        data: BitStream::from_bools(&vec![]),
        chunk_size: 3,
        stride: 4,
        num_rows: 0,
    };
    assert_eq!(
        data.extend_from_bitslice(&BitStream::from_bools(&vec![true])),
        Err(EntroGdError::BitSliceLengthMismatch { expected: 3, actual: 1 })
    );
    data.extend_from_bitslice(&BitStream::from_bools(&vec![true, false, true])).unwrap();
    assert_eq!(data.num_rows, 1);
    assert_eq!(data.raw().to_bools(), vec![true, false, true, false]);
}
