//! The parts that make up the size of compressed data.
use vstd::prelude::*;

use crate::base_table::{positions, PositionKind};
use crate::data::features_width;
use crate::encoding::compressed::{
    BaseTable, CompressedData, CompressedView, EncodedData, EncodedView, TableView,
};
use crate::encoding::rle::control_stream;
use crate::utils::{bits_needed, bits_needed_nonzero};

verus! {

/// Sizes of the parts of compressed data in bits, and the number of run packets.
#[derive(Debug, Clone, Copy, PartialEq, Eq, Structural)]
pub struct CompressedSizeBreakdownBits {
    pub encoded_stream_total: usize,
    pub encoded_payload_bits: usize,
    pub normal_symbol_stream_bits: usize,
    pub rle_symbol_stream_bits: usize,
    pub rle_control_stream_bits: usize,
    pub rle_packet_count: usize,
    pub huffman_pixel_stream_bits: usize,
    pub huffman_row_offsets_bits: usize,
    pub huffman_symbol_table_bits: usize,
    pub huffman_code_lengths_bits: usize,
    pub base_table_patterns: usize,
    pub base_bit_positions: usize,
    pub condensed_weights: usize,
    pub estimated_total: usize,
}

/// The sizes of the streams of encoded rows.
#[derive(Debug, Clone, Copy, PartialEq, Eq, Structural)]
pub struct StreamSizes {
    pub payload: usize,
    pub normal_symbols: usize,
    pub rle_symbols: usize,
    pub rle_control: usize,
    pub rle_packets: usize,
    pub huffman_pixels: usize,
    pub huffman_row_offsets: usize,
    pub huffman_symbol_table: usize,
    pub huffman_code_lengths: usize,
}

impl StreamSizes {
    /// Whether the sizes are those of encoded rows: each encoding has its own streams and none of
    /// the others, a symbol of a code table has the width of a row, a code length takes five bits
    /// and a group start 32.
    pub open spec fn measures(self, rows: EncodedView) -> bool {
        &&& self.payload == rows.stream().len()
        &&& self.normal_symbols == (if rows is Normal {
            rows.stream().len()
        } else {
            0
        })
        &&& self.rle_symbols == (if rows is Rle || rows is RleOffset {
            rows.stream().len()
        } else {
            0
        })
        &&& self.huffman_pixels == (if rows is Huffman {
            rows.stream().len()
        } else {
            0
        })
        &&& match rows {
            EncodedView::Normal(data) => self.rle_control == 0 && self.rle_packets == 0,
            EncodedView::Rle(data) => self.rle_control == control_stream(data.pairs).len()
                && self.rle_packets == data.pairs.len(),
            EncodedView::RleOffset(data) => self.rle_control == control_stream(data.pairs).len()
                && self.rle_packets == data.pairs.len(),
            EncodedView::Huffman(data) => self.rle_control == 0 && self.rle_packets == 0,
        }
        &&& match rows {
            EncodedView::Huffman(data) => {
                &&& self.huffman_row_offsets == data.row_offsets.len() * 32
                &&& self.huffman_symbol_table == code_table_size(rows)
                &&& self.huffman_code_lengths == data.lengths.len() * 5
            },
            _ => {
                &&& self.huffman_row_offsets == 0
                &&& self.huffman_symbol_table == 0
                &&& self.huffman_code_lengths == 0
            },
        }
    }
}

/// The size of the symbols of a code table.
pub open spec fn code_table_size(rows: EncodedView) -> nat {
    match rows {
        EncodedView::Huffman(data) => data.symbols.len() * (data.num_deviation_bits
            + data.num_id_bits),
        _ => 0,
    }
}

/// The size of a base table: a tag, counts, and the bits of the rows, each `width` bits wide, or
/// the order of the columns, the first row and the steps to the others.
pub open spec fn table_size(table: TableView, width: nat) -> nat {
    match table {
        TableView::Raw(rows) => 8 + 64 + rows.len() * width,
        TableView::Delta(delta) => 8 + 64 + 64 + delta.order.len() * bits_needed(width) + (
        if delta.num_bases > 0 {
            width
        } else {
            0
        }) + 64 + 64 + delta.steps.len(),
    }
}

/// A size rounded up to whole bytes.
pub open spec fn whole_bytes(bits: nat) -> nat {
    (bits + 7) / 8 * 8
}

/// The size of the base table of compressed data, rounded up to whole bytes.
pub open spec fn patterns_size(data: CompressedView) -> nat {
    whole_bytes(table_size(data.base_table, positions(data.layout, PositionKind::Variable).len()))
}

/// The size of the list of base bit positions, each as wide as the row length asks for.
pub open spec fn positions_size(data: CompressedView) -> nat {
    positions(data.layout, PositionKind::Selected).len() * bits_needed(
        features_width(data.metadata.features),
    )
}

/// The size of the weights, each as wide as the number of rows asks for.
pub open spec fn weights_size(data: CompressedView) -> nat {
    match data.weights {
        Some(weights) => weights.len() * bits_needed(
            data.metadata.original_size_bits / features_width(data.metadata.features),
        ),
        None => 0,
    }
}

/// The size of compressed data.
pub open spec fn total_size(data: CompressedView) -> nat {
    data.encoded.encoded_size() + patterns_size(data) + positions_size(data) + weights_size(data)
}

impl CompressedSizeBreakdownBits {
    /// Whether the sizes are those of compressed data.
    pub open spec fn measures(self, data: CompressedView) -> bool {
        &&& self.encoded_stream_total == data.encoded.encoded_size()
        &&& (StreamSizes {
            payload: self.encoded_payload_bits,
            normal_symbols: self.normal_symbol_stream_bits,
            rle_symbols: self.rle_symbol_stream_bits,
            rle_control: self.rle_control_stream_bits,
            rle_packets: self.rle_packet_count,
            huffman_pixels: self.huffman_pixel_stream_bits,
            huffman_row_offsets: self.huffman_row_offsets_bits,
            huffman_symbol_table: self.huffman_symbol_table_bits,
            huffman_code_lengths: self.huffman_code_lengths_bits,
        }).measures(data.encoded)
        &&& self.base_table_patterns == patterns_size(data)
        &&& self.base_bit_positions == positions_size(data)
        &&& self.condensed_weights == weights_size(data)
        &&& self.estimated_total == total_size(data)
    }
}

/// The product of two sizes that is known to fit a machine word.
fn product(count: usize, width: usize) -> (size: usize)
    requires
        count * width <= usize::MAX,
    ensures
        size == count * width,
{
    count * width
}

/// The sizes of the streams of encoded rows.
fn measure_streams(rows: &EncodedData) -> (sizes: StreamSizes)
    requires
        rows.valid(),
        rows@.encoded_size() <= usize::MAX,
        code_table_size(rows@) <= usize::MAX,
    ensures
        sizes.measures(rows@),
{
    let payload: usize = rows.encoded_bit_stream().bit_len();
    let mut sizes = StreamSizes {
        payload,
        normal_symbols: 0,
        rle_symbols: 0,
        rle_control: 0,
        rle_packets: 0,
        huffman_pixels: 0,
        huffman_row_offsets: 0,
        huffman_symbol_table: 0,
        huffman_code_lengths: 0,
    };
    match rows {
        EncodedData::Normal(_data) => {
            sizes.normal_symbols = payload;
        },
        EncodedData::Rle(data) => {
            sizes.rle_symbols = payload;
            sizes.rle_control = data.rm_control_stream().bit_len();
            sizes.rle_packets = data.rm_values().len();
        },
        EncodedData::RleOffset(data) => {
            sizes.rle_symbols = payload;
            sizes.rle_control = data.rm_control_stream().bit_len();
            sizes.rle_packets = data.rm_values().len();
        },
        EncodedData::Huffman(data) => {
            let symbols: usize = data.canonical_symbols().len();
            let deviation_bits: usize = data.get_num_deviation_bits();
            let id_bits: usize = data.get_num_id_bits();
            proof {
                let n = symbols as int;
                let w = (deviation_bits + id_bits) as int;
                assert(n * (id_bits + 5) >= 5 * n) by (nonlinear_arith)
                    requires
                        0 <= n,
                        0 <= id_bits,
                ;
                assert(n >= 1 ==> n * w >= w) by (nonlinear_arith)
                    requires
                        0 <= w,
                ;
                assert(n == 0 ==> n * w == 0) by (nonlinear_arith);
            }
            sizes.huffman_pixels = payload;
            sizes.huffman_row_offsets = data.row_offsets().len() * 32;
            if symbols > 0 {
                sizes.huffman_symbol_table = product(symbols, deviation_bits + id_bits);
            }
            sizes.huffman_code_lengths = data.canonical_code_lengths().len() * 5;
        },
    }
    sizes
}

/// The size of a base table whose rows are `width` bits wide.
fn measure_table(table: &BaseTable, width: usize) -> (size: usize)
    requires
        table_size(table@, width as nat) <= usize::MAX,
    ensures
        size == table_size(table@, width as nat),
{
    match table {
        BaseTable::Raw(rows) => {
            proof {
                let n = rows@.len() as int;
                assert(0 <= n * width) by (nonlinear_arith)
                    requires
                        0 <= n,
                        0 <= width,
                ;
            }
            8 + 64 + product(rows.len(), width)
        },
        BaseTable::Delta(delta) => {
            let index_bits: usize = bits_needed_nonzero(width);
            proof {
                let n = delta.sort_column_order@.len() as int;
                assert(0 <= n * index_bits) by (nonlinear_arith)
                    requires
                        0 <= n,
                        0 <= index_bits,
                ;
            }
            let order_bits: usize = product(delta.sort_column_order.len(), index_bits);
            let first_key_bits: usize = if delta.num_bases > 0 {
                width
            } else {
                0
            };
            8 + 64 + 64 + order_bits + first_key_bits + 64 + 64 + delta.delta_bit_stream.bit_len()
        },
    }
}

/// The size of the base table of compressed data, rounded up to whole bytes.
fn measure_patterns(compressed: &CompressedData) -> (size: usize)
    requires
        patterns_size(compressed@) <= usize::MAX,
    ensures
        size == patterns_size(compressed@),
{
    let width: usize = compressed.layout.variable_base_bit_positions().len();
    let payload: usize = measure_table(&compressed.base_table, width);
    payload + (8 - payload % 8) % 8
}

/// The size of the list of base bit positions.
fn measure_positions(compressed: &CompressedData) -> (size: usize)
    requires
        compressed.metadata.valid(),
        positions_size(compressed@) <= usize::MAX,
    ensures
        size == positions_size(compressed@),
{
    let width: usize = bits_needed_nonzero(compressed.metadata.chunk_size());
    let selected: usize = compressed.layout.selected_base_bit_positions().len();
    product(selected, width)
}

/// The size of the weights.
fn measure_weights(compressed: &CompressedData) -> (size: usize)
    requires
        compressed.metadata.valid(),
        weights_size(compressed@) <= usize::MAX,
    ensures
        size == weights_size(compressed@),
{
    match &compressed.condensed_sample_weights {
        Some(weights) => {
            let width: usize = bits_needed_nonzero(compressed.metadata.n_data_samples());
            product(weights.len(), width)
        },
        None => 0,
    }
}

/// The sizes of the parts of compressed data.
pub fn estimate_size_breakdown_bits(compressed: &CompressedData) -> (sizes:
    CompressedSizeBreakdownBits)
    requires
        compressed.valid(),
        total_size(compressed@) <= usize::MAX,
        code_table_size(compressed@.encoded) <= usize::MAX,
    ensures
        sizes.measures(compressed@),
{
    let encoded_stream_total: usize = compressed.encoded_data.get_encoded_size();
    let streams = measure_streams(&compressed.encoded_data);
    let base_table_patterns: usize = measure_patterns(compressed);
    let base_bit_positions: usize = measure_positions(compressed);
    let condensed_weights: usize = measure_weights(compressed);
    let estimated_total: usize = encoded_stream_total + base_table_patterns + base_bit_positions
        + condensed_weights;
    CompressedSizeBreakdownBits {
        encoded_stream_total,
        encoded_payload_bits: streams.payload,
        normal_symbol_stream_bits: streams.normal_symbols,
        rle_symbol_stream_bits: streams.rle_symbols,
        rle_control_stream_bits: streams.rle_control,
        rle_packet_count: streams.rle_packets,
        huffman_pixel_stream_bits: streams.huffman_pixels,
        huffman_row_offsets_bits: streams.huffman_row_offsets,
        huffman_symbol_table_bits: streams.huffman_symbol_table,
        huffman_code_lengths_bits: streams.huffman_code_lengths,
        base_table_patterns,
        base_bit_positions,
        condensed_weights,
        estimated_total,
    }
}

} // verus!
