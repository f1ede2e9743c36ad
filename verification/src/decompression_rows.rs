//! Single rows of compressed data, without the others.
use vstd::prelude::*;

use crate::base_table::{positions, positions_bounded, table_view, PositionKind, PreEncodeContext};
use crate::bits::{bits_value, low_digits, BitStream, MAX_STREAM_BITS};
use crate::dataset::row_in_bounds;
use crate::decompression::{
    bases, bases_have_width, merge_row, merged, number_of, product_not_negative, widths_agree,
};
use crate::decompression_laws::{
    constants_do_not_deviate, encodes_rows, encodings_agree, groups_cover, is_content,
    matching_row_has_constants, row_is_merged_again, row_matches, with_constants,
};
use crate::encoding::compressed::{
    compressed_content, CompressedData, CompressedView, EncodedData, EncodedView, TableView,
};
use crate::encoding::deviation::{encoded_rows, encoded_rows_random_access, slot_in_bounds};
use crate::encoding::huffman_encode::huffman_random_access;
use crate::encoding::layout::{base_mask, clear_count_of_states, id_width, unmasked, unmasked_len};
use crate::encoding::rle::{source, source_in_bounds};
use crate::encoding::rle_data::row_from;
use crate::encoding::rle_encode::{rle_offset_is_lossless, row_layout};
use crate::error::{bad_metadata, EntroGdError};
use crate::numbers::value_fits;
use crate::utils::bits_needed_is_least;

verus! {

/// The row at an index, decoded by itself, if there is one and its base is in the table.
pub open spec fn row_at(data: CompressedView, index: int) -> Option<Seq<bool>> {
    match data.encoded.sample(index) {
        Some(parts) => if bits_value(parts.id) < bases(data).len() {
            Some(merged(data.layout, parts.deviation, bases(data)[bits_value(parts.id) as int].0))
        } else {
            None
        },
        None => None,
    }
}

/// Whether a row is there, though its base may not be.
pub open spec fn is_there(data: CompressedView, index: usize) -> bool {
    data.encoded.sample(index as int) is Some
}

/// Whether an error is the one that keeps the rows at some indices from being decompressed: the
/// parts do not fit together, the first missing row is missing, or the first row without a base
/// has none.
pub open spec fn is_row_fault(
    data: CompressedView,
    indices: Seq<usize>,
    error: EntroGdError,
) -> bool {
    match error {
        EntroGdError::InvalidMetadata { message } => !widths_agree(data),
        EntroGdError::DecompressionSampleMissing { sample_idx } => {
            &&& widths_agree(data)
            &&& exists|i: int|
                0 <= i < indices.len() && sample_idx == #[trigger] indices[i] && !is_there(
                    data,
                    indices[i],
                ) && (forall|k: int| 0 <= k < i ==> is_there(data, #[trigger] indices[k]))
        },
        EntroGdError::InvalidBaseId { base_id, table_len } => {
            &&& widths_agree(data)
            &&& table_len == bases(data).len()
            &&& forall|i: int| 0 <= i < indices.len() ==> is_there(data, #[trigger] indices[i])
            &&& exists|i: int|
                0 <= i < indices.len() && row_at(data, #[trigger] indices[i] as int) is None
                    && base_id == bits_value((data.encoded.sample(indices[i] as int)->0).id) as usize
                    && (forall|k: int|
                    0 <= k < i ==> row_at(data, #[trigger] indices[k] as int) is Some)
        },
        _ => false,
    }
}

/// Both parts of a row that is decoded from a start have their widths.
proof fn row_from_widths(
    symbols: Seq<bool>,
    pairs: Seq<(u8, u8)>,
    start: int,
    sample: int,
    dw: nat,
    iw: nat,
)
    requires
        0 <= start,
        0 <= sample,
        row_from(symbols, pairs, start, sample, dw, iw) is Some,
    ensures
        (row_from(symbols, pairs, start, sample, dw, iw)->0).deviation.len() == dw,
        (row_from(symbols, pairs, start, sample, dw, iw)->0).id.len() == iw,
{
    source_in_bounds(pairs, sample);
    product_not_negative(source(pairs, sample), (dw + iw) as int);
}

/// Both parts of a row that is decoded by itself have their widths.
proof fn sample_widths(rows: EncodedData, index: int)
    requires
        rows.valid(),
        0 <= index,
        rows@.sample(index) is Some,
    ensures
        (rows@.sample(index)->0).id.len() == rows@.num_id_bits(),
        (rows@.sample(index)->0).deviation.len() == rows@.num_deviation_bits(),
{
    match rows {
        EncodedData::Normal(data) => {
            slot_in_bounds(index, data@.num_samples as int, data@.symbol_width() as int);
        },
        EncodedData::Rle(data) => {
            row_from_widths(
                data@.symbols,
                data@.pairs,
                0,
                index,
                data@.num_deviation_bits,
                data@.num_id_bits,
            );
        },
        EncodedData::RleOffset(data) => {
            let view = data@;
            if view.row_width > 0 && index < view.original_num_samples {
                let start = view.row_offsets[index / view.row_width as int];
                row_from_widths(
                    view.symbols,
                    view.pairs.skip(start.0 as int),
                    start.1 as int,
                    index % view.row_width as int,
                    view.num_deviation_bits,
                    view.num_id_bits,
                );
            } else {
                row_from_widths(
                    view.symbols,
                    view.pairs,
                    0,
                    index,
                    view.num_deviation_bits,
                    view.num_id_bits,
                );
            }
        },
        EncodedData::Huffman(data) => {
            slot_in_bounds(index, data@.num_samples as int, data@.num_deviation_bits as int);
        },
    }
}

/// Whether base table and rows have the widths that the layout asks for; the base table in rows
/// where they do.
fn check_widths(compressed: &CompressedData) -> (result: Result<
    Vec<(BitStream, usize)>,
    EntroGdError,
>)
    requires
        compressed.valid(),
    ensures
        result is Ok <==> widths_agree(compressed@),
        result matches Ok(rows) ==> table_view(rows@) == bases(compressed@),
        result matches Err(error) ==> error is InvalidMetadata,
{
    let ghost data = compressed@;
    let rows = match compressed.base_table.to_rows() {
        Ok(rows) => rows,
        Err(error) => {
            return Err(error);
        },
    };
    let total: usize = compressed.layout.bit_states.len();
    proof {
        positions_bounded(data.layout, PositionKind::Variable);
        positions_bounded(data.layout, PositionKind::Selected);
        clear_count_of_states(data.layout);
    }
    let width: usize = compressed.layout.variable_base_bit_positions().len();
    assert(bases(data) == table_view(rows@));
    assert(width == positions(data.layout, PositionKind::Variable).len());
    if !bases_have_width(&rows, width) {
        return Err(bad_metadata("base table rows do not have the width of the layout"));
    }
    let selected: usize = compressed.layout.selected_base_bit_positions().len();
    let id_bits: usize = compressed.encoded_data.get_num_id_bits();
    if compressed.encoded_data.get_num_deviation_bits() != total - selected {
        return Err(bad_metadata("deviations do not have the width of the layout"));
    }
    if id_bits == 0 || id_bits > 64 {
        return Err(bad_metadata("base numbers do not fit into 64 bits"));
    }
    Ok(rows)
}

/// The rows at the given indices, in that order; the other rows are not put together.
pub fn decompress_rows(compressed: &CompressedData, indices: &Vec<usize>) -> (result: Result<
    Vec<BitStream>,
    EntroGdError,
>)
    requires
        compressed.valid(),
        compressed@.layout.len() <= MAX_STREAM_BITS,
    ensures
        result is Ok <==> widths_agree(compressed@) && (forall|i: int|
            0 <= i < indices@.len() ==> row_at(compressed@, #[trigger] indices@[i] as int) is Some),
        result matches Ok(rows) ==> rows@.len() == indices@.len() && (forall|i: int|
            0 <= i < rows@.len() ==> row_at(compressed@, indices@[i] as int) == Some(
                (#[trigger] rows@[i])@,
            )),
        result matches Err(error) ==> is_row_fault(compressed@, indices@, error),
{
    let ghost data = compressed@;
    let table = match check_widths(compressed) {
        Ok(table) => table,
        Err(error) => {
            return Err(error);
        },
    };
    let samples = match compressed.encoded_data.for_each_sample_at_sorted_indices(indices) {
        Ok(samples) => samples,
        Err(error) => {
            proof {
                let i = choose|i: int|
                    0 <= i < indices@.len() && error == (EntroGdError::DecompressionSampleMissing {
                        sample_idx: #[trigger] indices@[i],
                    }) && data.encoded.sample(indices@[i] as int) is None && (forall|k: int|
                        0 <= k < i ==> data.encoded.sample(#[trigger] indices@[k] as int) is Some);
                assert(row_at(data, indices@[i] as int) is None);
                assert(!is_there(data, indices@[i]));
                assert forall|k: int| 0 <= k < i implies is_there(data, #[trigger] indices@[k]) by {
                }
            }
            return Err(error);
        },
    };
    let mut rows: Vec<BitStream> = Vec::new();
    let mut i: usize = 0;
    while i < samples.len()
        invariant
            i <= samples@.len() == indices@.len(),
            data == compressed@,
            compressed.valid(),
            data.layout.len() <= MAX_STREAM_BITS,
            widths_agree(data),
            table_view(table@) == bases(data),
            forall|k: int|
                0 <= k < samples@.len() ==> data.encoded.sample(indices@[k] as int) == Some(
                    (#[trigger] samples@[k])@,
                ),
            rows@.len() == i,
            forall|k: int|
                0 <= k < i ==> row_at(data, indices@[k] as int) == Some((#[trigger] rows@[k])@),
        decreases samples@.len() - i,
    {
        proof {
            assert(data.encoded.sample(indices@[i as int] as int) == Some(samples@[i as int]@));
            sample_widths(compressed.encoded_data, indices@[i as int] as int);
        }
        let base: u64 = number_of(&samples[i].id);
        if base >= table.len() as u64 {
            proof {
                assert(row_at(data, indices@[i as int] as int) is None);
                assert forall|k: int| 0 <= k < indices@.len() implies is_there(
                    data,
                    #[trigger] indices@[k],
                ) by {
                    assert(data.encoded.sample(indices@[k] as int) == Some(samples@[k]@));
                }
                assert forall|k: int| 0 <= k < i implies row_at(
                    data,
                    #[trigger] indices@[k] as int,
                ) is Some by {
                    assert(row_at(data, indices@[k] as int) == Some(rows@[k]@));
                }
            }
            return Err(
                EntroGdError::InvalidBaseId { base_id: base as usize, table_len: table.len() },
            );
        }
        let found: usize = base as usize;
        assert(bases(data)[found as int].0 == table@[found as int].0@);
        rows.push(merge_row(&compressed.layout, &samples[i].deviation, &table[found].0));
        i += 1;
    }
    assert forall|k: int| 0 <= k < indices@.len() implies row_at(
        data,
        #[trigger] indices@[k] as int,
    ) is Some by {
        assert(row_at(data, indices@[k] as int) == Some(rows@[k]@));
    }
    Ok(rows)
}

/// Whatever the encoding, a row of a context is decoded by itself as it is in sequence.
pub proof fn random_access_agrees(context: PreEncodeContext, encoded: EncodedView, s: int)
    requires
        context.valid(),
        encodes_rows(context, encoded),
        0 <= s < context.bit_data.data.num_rows,
    ensures
        encoded.sample(s) == encoded.row_in_sequence(s),
        encoded.sample(s) == Some(encoded_rows(context).sample(s)),
{
    encodings_agree(context, encoded, s);
    match encoded {
        EncodedView::Normal(rows) => {},
        EncodedView::Rle(rows) => {},
        EncodedView::RleOffset(rows) => {
            let (samples, count, size) = row_layout(context.bit_data.info@)->0;
            groups_cover(context);
            rle_offset_is_lossless(context, samples, count, size, encoded_rows(context).bits);
            assert(rows.sample(s) == Some(encoded_rows(context).sample(s)));
        },
        EncodedView::Huffman(rows) => {
            huffman_random_access(context, s);
        },
    }
}

/// A row of compressed data can be had by itself: it is the row that was compressed, with the
/// constants at their positions. This holds of the original rows and of the condensed ones behind
/// them, whatever the encoding, and whether the base table is kept row by row or as differences.
pub proof fn row_of_content_has_constants(
    data: CompressedView,
    context: PreEncodeContext,
    table: TableView,
    s: int,
)
    requires
        is_content(data, context, table),
        0 <= s < context.bit_data.data.num_rows,
        row_matches(
            context.layout@,
            with_constants(context.layout@, context.bit_data.data.row(s)),
            context.variable_base_table@[context.row_to_base_id@[s] as int].0@,
        ),
    ensures
        row_at(data, s) == Some(with_constants(context.layout@, context.bit_data.data.row(s))),
{
    let bases_before = context.variable_base_table@;
    let states = context.layout@;
    let id = context.row_to_base_id@[s] as nat;
    let row = context.bit_data.data.row(s);
    let iw = id_width(context);
    bits_needed_is_least(bases_before.len());
    random_access_agrees(context, data.encoded, s);
    encoded_rows_random_access(context, s);
    unmasked_len(row, base_mask(states));
    let sample = encoded_rows(context).sample(s);
    assert(sample.deviation =~= unmasked(row, base_mask(states)));
    assert(sample.id =~= low_digits(id, iw));
    value_fits(id, iw);
    row_in_bounds(
        s,
        context.bit_data.data.num_rows as int,
        context.bit_data.data.stride as int,
        context.bit_data.data.chunk_size as int,
    );
    constants_do_not_deviate(states, row, states.len() as int);
    assert(base_mask(states).take(states.len() as int) =~= base_mask(states));
    row_is_merged_again(states, with_constants(states, row), bases_before[id as int].0@);
    assert(bases(data)[id as int].0 == table_view(bases_before)[id as int].0);
}

/// A row of compressed data can be had by itself, whatever the encoding, and whether the base table is
/// kept row by row or as differences.
pub proof fn row_of_content_is_given_back(
    data: CompressedView,
    context: PreEncodeContext,
    table: TableView,
    s: int,
)
    requires
        is_content(data, context, table),
        0 <= s < context.bit_data.data.num_rows,
        row_matches(
            context.layout@,
            context.bit_data.data.row(s),
            context.variable_base_table@[context.row_to_base_id@[s] as int].0@,
        ),
    ensures
        row_at(data, s) == Some(context.bit_data.data.row(s)),
{
    let row = context.bit_data.data.row(s);
    row_in_bounds(
        s,
        context.bit_data.data.num_rows as int,
        context.bit_data.data.stride as int,
        context.bit_data.data.chunk_size as int,
    );
    matching_row_has_constants(
        context.layout@,
        row,
        context.variable_base_table@[context.row_to_base_id@[s] as int].0@,
    );
    row_of_content_has_constants(data, context, table, s);
}

/// A row of compressed data can be had by itself: it is the row that was compressed. This holds of
/// the original rows and of the condensed ones behind them.
pub proof fn single_row_is_given_back(context: PreEncodeContext, encoded: EncodedView, s: int)
    requires
        context.valid(),
        encodes_rows(context, encoded),
        0 <= s < context.bit_data.data.num_rows,
        row_matches(
            context.layout@,
            context.bit_data.data.row(s),
            context.variable_base_table@[context.row_to_base_id@[s] as int].0@,
        ),
    ensures
        row_at(compressed_content(context, encoded), s) == Some(context.bit_data.data.row(s)),
{
    let data = compressed_content(context, encoded);
    row_of_content_is_given_back(data, context, data.base_table, s);
}

} // verus!
