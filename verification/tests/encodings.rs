//! Codes, runs and bit streams.
use entro_gd::bits::BitStream;
use entro_gd::encoding::compressed::EncodedData;
use entro_gd::encoding::delta::{
    decode_adjusted_delta, encode_adjusted_delta_words, tier_widths, DeltaBitStats,
};
use entro_gd::encoding::delta_table::{delta_encode_base_rows, DeltaBaseTableData};
use entro_gd::encoding::deviation::DeviationData;
use entro_gd::encoding::fused_dictionary::fused_chunk_rows;
use entro_gd::encoding::huffman::rebuild_huffman_codes;
use entro_gd::encoding::huffman_data::HuffmanDeviationData;
use entro_gd::encoding::huffman_tree::{
    build_canonical_huffman_table, build_huffman_code_lengths, SymbolFrequency,
};
use entro_gd::encoding::layout::build_deviation_ranges;
use entro_gd::encoding::rle::{write_rle_control_stream, write_rle_control_value};
use entro_gd::encoding::rle_data::{RleDeviationData, RleDeviationOffsetData};
use entro_gd::error::EntroGdError;
use entro_gd::file_format::bit_io::{BitReader, BitWriter};
use entro_gd::file_format::tags::{BASE_TABLE_TAG_DELTA_FIXED, BASE_TABLE_TAG_DELTA_UNARY};

fn stream(text: &str) -> BitStream {
    BitStream::from_bools(&text.chars().map(|c| c == '1').collect())
}

fn text(bits: &BitStream) -> String {
    bits.to_bools().iter().map(|bit| if *bit { '1' } else { '0' }).collect()
}

#[test]
fn deviation_samples() {
    let data = DeviationData::new(stream("110100011"), 3, 2, 1);
    assert_eq!(data.get_encoded_size(), 9);
    let sample = data.get_sample(1).unwrap();
    assert_eq!(text(&sample.deviation), "10");
    assert_eq!(text(&sample.id), "0");
    assert!(data.get_sample(3).is_none());
    let all = data.for_each_sample_n(10);
    assert_eq!(all.len(), 3);
    assert_eq!(text(&all[2].id), "1");
    assert_eq!(data.for_each_sample_at_sorted_indices(&vec![0, 2]).unwrap().len(), 2);
    assert_eq!(
        data.for_each_sample_at_sorted_indices(&vec![0, 3]),
        Err(EntroGdError::DecompressionSampleMissing { sample_idx: 3 })
    );
}

#[test]
fn ranges_between_base_bits() {
    assert_eq!(build_deviation_ranges(&stream("0011010"), 7), vec![(0, 2), (4, 5), (6, 7)]);
    assert_eq!(build_deviation_ranges(&stream("0011010"), 5), vec![(0, 2), (4, 5)]);
    assert_eq!(build_deviation_ranges(&stream("111"), 3), vec![]);
    assert_eq!(build_deviation_ranges(&stream("000"), 3), vec![(0, 3)]);
}

#[test]
fn control_values_of_runs() {
    let mut out = stream("");
    write_rle_control_value(&mut out, 5);
    assert_eq!(text(&out), "0101");
    write_rle_control_value(&mut out, 8);
    assert_eq!(text(&out), "010110000000");
    write_rle_control_value(&mut out, 135);
    assert_eq!(text(&out), "01011000000011111111");
    assert_eq!(text(&write_rle_control_stream(&vec![(0, 7), (9, 1)])), "00000111100000010001");
}

#[test]
fn runs_expand_to_their_rows() {
    let runs = RleDeviationData::new(stream("101001"), vec![(3, 1), (0, 1)], 6, 1, 1);
    let plain = runs.to_deviation_data();
    match plain {
        Ok(data) => {
            let listed = runs.for_each_sample_n(6).unwrap();
            for index in 0..listed.len() {
                assert_eq!(runs.get_sample(index).unwrap(), listed[index]);
                assert_eq!(data.get_sample(index).unwrap(), listed[index]);
            }
        }
        Err(error) => assert!(matches!(error, EntroGdError::InvalidMetadata { .. })),
    }
    assert!(runs.get_sample(6).is_none());
    let encoded = EncodedData::Rle(runs.clone());
    assert_eq!(encoded.get_encoded_size(), 6 + runs.rm_control_stream().to_bools().len());
}

#[test]
fn group_starts_of_runs_are_checked() {
    let wrong = RleDeviationOffsetData::new(
        stream("10"),
        vec![(1, 0)],
        vec![],
        2,
        2,
        1,
        1,
        1,
    );
    assert!(matches!(wrong, Err(EntroGdError::InvalidMetadata { .. })));
}

fn frequencies(list: &[(u64, usize)]) -> Vec<SymbolFrequency> {
    list.iter().map(|(symbol, frequency)| SymbolFrequency { symbol: *symbol, frequency: *frequency }).collect()
}

#[test]
fn code_lengths_follow_frequencies() {
    let lengths = build_huffman_code_lengths(&frequencies(&[(0, 8), (1, 4), (2, 2), (3, 2)])).unwrap();
    assert_eq!(lengths, vec![1, 2, 3, 3]);
    assert_eq!(build_huffman_code_lengths(&frequencies(&[(7, 3)])).unwrap(), vec![1]);
    let (symbols, code_lengths) =
        build_canonical_huffman_table(&frequencies(&[(5, 2), (0, 8), (9, 2), (1, 4)])).unwrap();
    assert_eq!(symbols, vec![0, 1, 5, 9]);
    assert_eq!(code_lengths, vec![1, 2, 3, 3]);
    let codes = rebuild_huffman_codes(&symbols, &code_lengths).unwrap();
    let list: Vec<(u64, u32, u8)> = codes.iter().map(|c| (c.symbol, c.code, c.len)).collect();
    assert_eq!(list, vec![(0, 0, 1), (1, 2, 2), (5, 6, 3), (9, 7, 3)]);
}

#[test]
fn code_tables_do_not_depend_on_the_order_of_symbols() {
    let ordered = [(1, 3), (2, 3), (4, 1), (6, 1), (7, 2)];
    let expected = build_canonical_huffman_table(&frequencies(&ordered)).unwrap();
    for order in [[4, 3, 2, 1, 0], [2, 0, 4, 1, 3], [1, 0, 3, 2, 4]] {
        let list: Vec<(u64, usize)> = order.iter().map(|k| ordered[*k]).collect();
        assert_eq!(build_canonical_huffman_table(&frequencies(&list)).unwrap(), expected);
    }
}

#[test]
fn code_tables_that_are_none_are_refused() {
    assert!(rebuild_huffman_codes(&vec![0, 1, 2], &vec![1, 1, 1]).is_err());
    assert!(rebuild_huffman_codes(&vec![0, 1], &vec![2, 1]).is_err());
}

#[test]
fn coded_rows_are_read_in_any_order() {
    // Bases 0, 1, 0, 2 with the codes 0, 10 and 11.
    let rows = HuffmanDeviationData::new(
        stream("010011"),
        stream("1001"),
        vec![0, 1, 2],
        vec![1, 2, 2],
        vec![0],
        4,
        4,
        1,
        2,
        4,
    )
    .unwrap();
    let ids: Vec<String> =
        (0..4).map(|index| text(&rows.get_sample(index).unwrap().id)).collect();
    assert_eq!(ids, vec!["00", "10", "00", "01"]);
    assert_eq!(text(&rows.get_sample(3).unwrap().deviation), "1");
    let plain = rows.to_deviation_data().unwrap();
    for index in 0..4 {
        assert_eq!(plain.get_sample(index), rows.get_sample(index));
    }
    assert!(rows.get_sample(4).is_none());
}

#[test]
fn steps_of_base_tables() {
    for codec in [BASE_TABLE_TAG_DELTA_UNARY, BASE_TABLE_TAG_DELTA_FIXED] {
        let widths = tier_widths(codec);
        for number in ["000000000000", "100000000000", "111111111111", "000000010000"] {
            let mut out = stream("");
            encode_adjusted_delta_words(&mut out, codec, &widths, &stream(number));
            let total = out.to_bools().len();
            let (start, end) = decode_adjusted_delta(&out, 0, 12, codec, &widths).unwrap();
            assert_eq!(end, total);
            let mut padded: String = text(&out)[start..end].to_string();
            while padded.len() < 12 {
                padded.push('0');
            }
            assert_eq!(padded[0..12], *number);
        }
        assert!(decode_adjusted_delta(&stream(""), 0, 12, codec, &widths).is_err());
    }
}

#[test]
fn bits_of_steps_are_counted() {
    let widths = tier_widths(BASE_TABLE_TAG_DELTA_FIXED);
    let mut out = stream("");
    let stats =
        encode_adjusted_delta_words(&mut out, BASE_TABLE_TAG_DELTA_FIXED, &widths, &stream("1010"));
    assert_eq!(text(&out), "100000101");
    assert_eq!(
        stats,
        DeltaBitStats {
            total_written_bits: 9,
            prefix_bits: 6,
            payload_bits: 3,
            minimally_necessary_bits: 3,
        }
    );
}

#[test]
fn base_rows_as_differences() {
    let rows: Vec<(BitStream, usize)> =
        ["110", "101", "010", "000"].iter().map(|bits| (stream(bits), 1)).collect();
    for codec in [BASE_TABLE_TAG_DELTA_UNARY, BASE_TABLE_TAG_DELTA_FIXED] {
        let order = vec![0usize, 1, 2];
        let (first_sort_key, delta_bit_stream, stats) =
            delta_encode_base_rows(&rows, &order, codec).unwrap();
        assert_eq!(text(&first_sort_key), "011");
        assert_eq!(stats.total_written_bits, delta_bit_stream.to_bools().len());
        assert_eq!(stats.prefix_bits + stats.payload_bits, stats.total_written_bits);
        let table = DeltaBaseTableData {
            num_bases: 4,
            first_sort_key,
            delta_bit_stream,
            delta_count: 3,
            sort_column_order: order,
            codec_id: codec,
        };
        let decoded = table.decode_rows().unwrap();
        for (lhs, rhs) in decoded.iter().zip(rows.iter()) {
            assert_eq!(lhs.0, rhs.0);
        }
    }
    let ascending: Vec<(BitStream, usize)> =
        ["000", "010"].iter().map(|bits| (stream(bits), 1)).collect();
    assert!(delta_encode_base_rows(&ascending, &vec![0, 1, 2], BASE_TABLE_TAG_DELTA_FIXED).is_none());
}

#[test]
fn rows_at_a_time_of_fused_encoding() {
    assert_eq!(fused_chunk_rows(0, 1), 256);
    assert_eq!(fused_chunk_rows(20_000, 8), 625);
    assert_eq!(fused_chunk_rows(1_000_000, 8), 4096);
}

#[test]
fn bits_are_written_and_read() {
    let mut writer = BitWriter::new();
    writer.write_bit(true);
    writer.write_u64_bits(0b101, 3);
    writer.write_bitslice(&stream("0110"));
    writer.write_u8(200);
    writer.write_u16(65000);
    writer.write_u32(4_000_000_000);
    writer.write_u64(u64::MAX - 1);
    writer.write_usize_bits(5, 4);
    writer.align_to_byte();
    let bytes = writer.into_bytes();
    assert_eq!(bytes.len(), 17);
    assert_eq!(bytes[0], 0b0110_1011);
    let mut reader = BitReader::new(&bytes);
    assert_eq!(reader.read_bit(), Ok(true));
    assert_eq!(reader.read_u64_bits(3), Ok(5));
    assert_eq!(text(&reader.read_bits(4).unwrap()), "0110");
    assert_eq!(reader.read_u8(), Ok(200));
    assert_eq!(reader.read_u16(), Ok(65000));
    assert_eq!(reader.read_u32(), Ok(4_000_000_000));
    assert_eq!(reader.read_u64(), Ok(u64::MAX - 1));
    assert_eq!(reader.read_usize_bits(4), Ok(5));
    assert_eq!(reader.remaining_bits(), 4);
    reader.align_to_byte();
    assert_eq!(reader.remaining_bits(), 0);
    assert!(matches!(reader.read_bit(), Err(EntroGdError::InvalidMetadata { .. })));
    assert!(reader.read_u8().is_err());
    let mut short = BitReader::new(&bytes);
    assert!(short.read_usize_bits(65).is_err());
    assert_eq!(short.remaining_bits(), 136);
    assert!(short.read_bits(137).is_err());
    assert_eq!(short.remaining_bits(), 136);
    assert_eq!(short.read_u64(), Ok(short_number(&bytes[0..8])));
    assert_eq!(short.read_u64(), Ok(short_number(&bytes[8..16])));
    assert!(short.read_u32().is_err());
    assert_eq!(short.remaining_bits(), 0);
}

fn short_number(bytes: &[u8]) -> u64 {
    bytes.iter().rev().fold(0, |number, byte| number << 8 | u64::from(*byte))
}
