//! What reported sizes tell of the data that is stored.
use vstd::prelude::*;

use crate::base_table::{positions, PositionKind};
use crate::bits::{high_digits_first, join, join_uniform};
use crate::bytes::{byte_len, concat_uniform, le_bytes, le_bytes_len, number_parts, packed};
use crate::data::features_width;
use crate::encoding::compressed::{CompressedView, EncodedView, TableView};
use crate::encoding::rle::{control_bits, control_stream, total_symbols};
use crate::encoding::rle_data::offset_bits;
use crate::file_format::egd_rows::{
    code_parts, encoded_bytes, offset_parts, pair_parts, start_parts,
};
use crate::file_format::egd_table::{index_size, row_parts, table_bytes};
use crate::file_format::tags::BASE_TABLE_TAG_RAW;
use crate::numbers::fitted;
use crate::pipeline_runner::sizes::{
    patterns_size, positions_size, table_size, weights_size, whole_bytes,
    CompressedSizeBreakdownBits,
};
use crate::utils::{bits_needed, is_least_width, least_width_is_needed};

verus! {

/// Numbers in digits of one width, one behind the other.
pub open spec fn spelled_out(values: Seq<usize>, width: nat) -> Seq<bool> {
    join(Seq::new(values.len(), |k: int| high_digits_first(values[k] as nat, width)))
}

/// Numbers in digits take as many bits as there are digits.
proof fn spelled_out_len(values: Seq<usize>, width: nat)
    ensures
        spelled_out(values, width).len() == values.len() * width,
{
    join_uniform(
        Seq::new(values.len(), |k: int| high_digits_first(values[k] as nat, width)),
        width,
    );
}

/// A size in whole bytes is the least one that is enough.
pub proof fn whole_bytes_are_least(bits: nat, other: nat)
    ensures
        whole_bytes(bits) % 8 == 0,
        bits <= whole_bytes(bits),
        other % 8 == 0 && bits <= other ==> whole_bytes(bits) <= other,
{
}

/// The reported size of a base table of rows is what its parts take: a tag, the number of rows, and the
/// bits of all rows one behind the other in whole bytes.
pub proof fn raw_table_size_is_of_parts(data: CompressedView, rows: Seq<(Seq<bool>, usize)>)
    requires
        data.base_table == TableView::Raw(rows),
    ensures
        ({
            let width = positions(data.layout, PositionKind::Variable).len();
            let row_bits = Seq::new(rows.len(), |i: int| fitted(rows[i].0, width));
            patterns_size(data) == 8 * (seq![BASE_TABLE_TAG_RAW] + le_bytes(rows.len(), 8) + packed(
                join(row_bits),
            )).len()
        }),
{
    let width = positions(data.layout, PositionKind::Variable).len();
    let row_bits = Seq::new(rows.len(), |i: int| fitted(rows[i].0, width));
    join_uniform(row_bits, width);
    le_bytes_len(rows.len(), 8);
}

/// The reported size of a base table of differences is what its parts take: a tag, four counts, and the
/// order of the columns, the first base if there is one and the differences in whole bytes.
pub proof fn delta_table_size_is_of_parts(data: CompressedView, index_bits: nat)
    requires
        data.base_table is Delta,
        is_least_width(index_bits, positions(data.layout, PositionKind::Variable).len()),
    ensures
        ({
            let delta = data.base_table->Delta_0;
            let width = positions(data.layout, PositionKind::Variable).len();
            let first = if delta.num_bases > 0 {
                fitted(delta.first_sort_key, width)
            } else {
                Seq::empty()
            };
            patterns_size(data) == 8 * (seq![delta.codec_id] + le_bytes(delta.num_bases, 8)
                + le_bytes(delta.order.len(), 8) + le_bytes(delta.delta_count, 8) + le_bytes(
                delta.steps.len(),
                8,
            ) + packed(spelled_out(delta.order, index_bits) + first + delta.steps)).len()
        }),
{
    let delta = data.base_table->Delta_0;
    let width = positions(data.layout, PositionKind::Variable).len();
    least_width_is_needed(index_bits, width);
    spelled_out_len(delta.order, index_bits);
    le_bytes_len(delta.num_bases, 8);
    le_bytes_len(delta.order.len(), 8);
    le_bytes_len(delta.delta_count, 8);
    le_bytes_len(delta.steps.len(), 8);
}

/// A file spends on a base table what is reported for it, and at most the bits that fill up the bytes of
/// each part that it writes for itself: of a table of rows each row, of one of differences each number of
/// the order, the first base and the differences. Rows of whole bytes need no filling.
pub proof fn table_size_is_that_of_file(table: TableView, width: nat)
    ensures
        ({
            let size = whole_bytes(table_size(table, width));
            let written = 8 * table_bytes(table, width).len();
            &&& size <= written
            &&& table matches TableView::Raw(rows) ==> written <= size + 7 * rows.len()
            &&& table is Raw && width % 8 == 0 ==> written == size
            &&& table matches TableView::Delta(delta) ==> written <= size + 7 * (delta.order.len()
                + 2)
        }),
{
    let size = table_size(table, width);
    let written = 8 * table_bytes(table, width).len();
    match table {
        TableView::Raw(rows) => {
            let parts = row_parts(rows, width);
            let bytes = byte_len(width) as int;
            let n = rows.len() as int;
            concat_uniform(parts, byte_len(width));
            le_bytes_len(rows.len(), 8);
            assert(n * width <= 8 * (n * bytes) <= n * width + 7 * n) by (nonlinear_arith)
                requires
                    width <= 8 * bytes <= width + 7,
                    0 <= n,
            ;
            if width % 8 == 0 {
                assert(n * width == 8 * (n * bytes)) by (nonlinear_arith)
                    requires
                        width == 8 * bytes,
                ;
            }
            assert(parts.len() * byte_len(width) == n * bytes);
            assert(written == 72 + 8 * (n * bytes));
        },
        TableView::Delta(delta) => {
            let bytes = index_size(width) as int;
            let needed = bits_needed(width) as int;
            let n = delta.order.len() as int;
            let parts = number_parts(delta.order, index_size(width));
            assert forall|i: int| 0 <= i < parts.len() implies (#[trigger] parts[i]).len()
                == index_size(width) by {
                le_bytes_len(delta.order[i] as nat, index_size(width));
            }
            concat_uniform(parts, index_size(width));
            le_bytes_len(delta.num_bases, 8);
            le_bytes_len(delta.order.len(), 8);
            le_bytes_len(delta.delta_count, 8);
            le_bytes_len(delta.steps.len(), 8);
            assert(n * needed <= 8 * (n * bytes) <= n * needed + 7 * n) by (nonlinear_arith)
                requires
                    needed <= 8 * bytes <= needed + 7,
                    0 <= n,
            ;
            assert(parts.len() * index_size(width) == n * bytes);
        },
    }
}

/// A position takes as many bits as the positions of a row need, each of which fits; a weight as many as
/// the number of rows needs.
pub proof fn lists_take_least_widths(data: CompressedView, position_bits: nat, weight_bits: nat)
    requires
        is_least_width(position_bits, features_width(data.metadata.features)),
        is_least_width(
            weight_bits,
            data.metadata.original_size_bits / features_width(data.metadata.features),
        ),
    ensures
        positions_size(data) == spelled_out(
            positions(data.layout, PositionKind::Selected),
            position_bits,
        ).len(),
        data.weights matches Some(weights) ==> weights_size(data) == join(
            Seq::new(weights.len(), |k: int| high_digits_first(weights[k] as nat, weight_bits)),
        ).len(),
        data.weights is None ==> weights_size(data) == 0,
{
    least_width_is_needed(position_bits, features_width(data.metadata.features));
    least_width_is_needed(
        weight_bits,
        data.metadata.original_size_bits / features_width(data.metadata.features),
    );
    spelled_out_len(positions(data.layout, PositionKind::Selected), position_bits);
    if let Some(weights) = data.weights {
        join_uniform(
            Seq::new(weights.len(), |k: int| high_digits_first(weights[k] as nat, weight_bits)),
            weight_bits,
        );
    }
}

/// Reported sizes add up to the reported total, and those of the streams to what their encoding takes.
pub proof fn reported_sizes_add_up(sizes: CompressedSizeBreakdownBits, data: CompressedView)
    requires
        sizes.measures(data),
    ensures
        sizes.estimated_total == sizes.encoded_stream_total + sizes.base_table_patterns
            + sizes.base_bit_positions + sizes.condensed_weights,
        sizes.encoded_payload_bits == sizes.normal_symbol_stream_bits
            + sizes.rle_symbol_stream_bits + sizes.huffman_pixel_stream_bits,
        data.encoded is Normal || data.encoded is Rle ==> sizes.encoded_stream_total
            == sizes.encoded_payload_bits + sizes.rle_control_stream_bits,
        data.encoded matches EncodedView::RleOffset(runs) ==> sizes.encoded_stream_total
            == sizes.encoded_payload_bits + sizes.rle_control_stream_bits + 64 + 64
            * runs.row_offsets.len(),
        data.encoded matches EncodedView::Huffman(codes) ==> sizes.encoded_stream_total
            == sizes.encoded_payload_bits + sizes.huffman_row_offsets_bits + 64
            + codes.symbols.len() * (codes.num_id_bits + 5) + codes.deviations.len(),
        data.encoded matches EncodedView::Huffman(codes) ==> sizes.huffman_symbol_table_bits
            == codes.symbols.len() * (codes.num_deviation_bits + codes.num_id_bits)
            && sizes.huffman_row_offsets_bits == 32 * codes.row_offsets.len()
            && sizes.huffman_code_lengths_bits == 5 * codes.lengths.len(),
        sizes.rle_packet_count * 8 <= sizes.rle_control_stream_bits <= sizes.rle_packet_count * 16,
{
    match data.encoded {
        EncodedView::Rle(runs) => {
            control_stream_len(runs.pairs);
        },
        EncodedView::RleOffset(runs) => {
            control_stream_len(runs.pairs);
        },
        _ => {},
    }
    if let EncodedView::RleOffset(runs) = data.encoded {
        offset_bits_len(runs.row_offsets);
    }
}

/// A group start takes 64 bits.
proof fn offset_bits_len(offsets: Seq<(u32, u32)>)
    ensures
        offset_bits(offsets).len() == 64 * offsets.len(),
    decreases offsets.len(),
{
    if offsets.len() > 0 {
        offset_bits_len(offsets.drop_last());
    }
}

/// A pair takes eight to sixteen bits.
proof fn control_stream_len(pairs: Seq<(u8, u8)>)
    ensures
        8 * pairs.len() <= control_stream(pairs).len() <= 16 * pairs.len(),
    decreases pairs.len(),
{
    if pairs.len() > 0 {
        control_stream_len(pairs.drop_last());
        assert(control_bits(pairs.last().0).len() == 4 || control_bits(pairs.last().0).len() == 8);
        assert(control_bits(pairs.last().1).len() == 4 || control_bits(pairs.last().1).len() == 8);
    }
}

/// A file spends on encoded rows what is reported for them, and at most its tag and counts, the rest of
/// two bytes for each pair of a run, the rest of the bytes of each entry of a code table, and what fills
/// up the last bytes of streams. Runs without group starts are written out and are not compared.
pub proof fn encoded_size_is_that_of_file(rows: EncodedView, width: nat)
    requires
        rows matches EncodedView::Normal(plain) ==> plain.bits.len() == plain.num_samples * width,
        rows matches EncodedView::RleOffset(runs) ==> runs.symbols.len() == total_symbols(
            runs.pairs,
        ) * width,
        rows matches EncodedView::Huffman(codes) ==> {
            &&& codes.deviations.len() == codes.num_samples * codes.num_deviation_bits
            &&& codes.lengths.len() == codes.symbols.len()
        },
    ensures
        ({
            let size = rows.encoded_size();
            let written = 8 * encoded_bytes(rows, width).len();
            &&& rows is Normal ==> size + 8 <= written <= size + 15
            &&& rows matches EncodedView::RleOffset(runs) ==> size + 40 <= written <= size + 47 + 8
                * runs.pairs.len()
            &&& rows matches EncodedView::Huffman(codes) ==> size + 24 + 3 * codes.symbols.len()
                <= written <= size + 38 + 10 * codes.symbols.len()
        }),
{
    match rows {
        EncodedView::Normal(plain) => {},
        EncodedView::Rle(runs) => {},
        EncodedView::RleOffset(runs) => {
            offset_bits_len(runs.row_offsets);
            control_stream_len(runs.pairs);
            le_bytes_len(runs.row_offsets.len(), 4);
            le_bytes_len(runs.row_width, 4);
            le_bytes_len(runs.pairs.len(), 4);
            let starts = start_parts(runs.row_offsets);
            assert forall|i: int| 0 <= i < starts.len() implies (#[trigger] starts[i]).len() == 8 by {
                le_bytes_len(runs.row_offsets[i].0 as nat, 4);
                le_bytes_len(runs.row_offsets[i].1 as nat, 4);
            }
            concat_uniform(starts, 8);
            concat_uniform(pair_parts(runs.pairs), 2);
        },
        EncodedView::Huffman(codes) => {
            let bytes = byte_len(codes.num_id_bits) as int;
            let id_bits = codes.num_id_bits as int;
            let n = codes.symbols.len() as int;
            le_bytes_len(codes.symbols.len(), 4);
            le_bytes_len(codes.num_id_bits, 1);
            le_bytes_len(codes.num_deviation_bits, 1);
            le_bytes_len(codes.row_offsets.len(), 4);
            let entries = code_parts(codes.symbols, codes.lengths, byte_len(codes.num_id_bits));
            assert forall|i: int| 0 <= i < entries.len() implies (#[trigger] entries[i]).len()
                == bytes + 1 by {
                le_bytes_len(codes.symbols[i] as nat, byte_len(codes.num_id_bits));
            }
            concat_uniform(entries, byte_len(codes.num_id_bits) + 1);
            let offsets = offset_parts(codes.row_offsets);
            assert forall|i: int| 0 <= i < offsets.len() implies (#[trigger] offsets[i]).len()
                == 4 by {
                le_bytes_len(codes.row_offsets[i] as nat, 4);
            }
            concat_uniform(offsets, 4);
            assert(n * (id_bits + 5) + 3 * n <= 8 * (n * (bytes + 1)) <= n * (id_bits + 5) + 10
                * n) by (nonlinear_arith)
                requires
                    id_bits <= 8 * bytes <= id_bits + 7,
                    0 <= n,
            ;
        },
    }
}

} // verus!
