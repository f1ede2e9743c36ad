//! Decompression gives back the rows that were compressed.
use vstd::arithmetic::power2::lemma2_to64;
use vstd::prelude::*;

use crate::base_table::{positions, table_view, BaseBitLayoutState, PositionKind, PreEncodeContext};
use crate::bits::{join, join_uniform, low_digits};
use crate::bytes::byte_len;
use crate::data::features_width;
use crate::dataset::row_in_bounds;
use crate::decompression::{
    base_number, bases, decodes, merged, original_rows, restored_row, widths_agree,
};
use crate::encoding::compressed::{compressed_content, CompressedView, EncodedView, TableView};
use crate::encoding::deviation::{
    encoded_rows, encoded_rows_random_access, slot, slot_in_bounds, split_symbol,
};
use crate::encoding::delta_table::{delta_table_is_lossless, orders_all, rows_uniform};
use crate::encoding::filters::{has_differences, table_of_differences};
use crate::encoding::huffman_data::decoded_prefix;
use crate::encoding::huffman_encode::{
    huffman_encodes, huffman_fits, huffman_is_lossless, huffman_row, huffman_rows, row_ids,
};
use crate::encoding::layout::{
    base_mask, clear_count, deviation_width, id_width, row_symbol, unmasked, unmasked_len,
};
use crate::encoding::rle::{source, source_in_bounds, total_samples, total_symbols};
use crate::encoding::rle_data::{complete, expands_to, row_from};
use crate::encoding::rle_encode::{
    holds_original_rows, rle_is_lossless, rle_offset_encodes, rle_offset_is_lossless,
    rle_offset_rows, rle_rows, row_layout, starts_fit,
};
use crate::file_format::egd::{counted, file_bytes, read_file, shape_of, table_width};
use crate::file_format::egd_laws::{
    decoded_before_more, file_is_read_back, rows_storable, storable, stored, stored_rows,
    widths_add_up,
};
use crate::file_format::egd_rows::{written_out, RowShape};
use crate::file_format::egd_table::stored_table;
use crate::file_format::tags::{BASE_TABLE_TAG_DELTA_FIXED, BASE_TABLE_TAG_DELTA_UNARY};
use crate::numbers::{fitted, value_fits};
use crate::utils::{bits_needed_bound, bits_needed_is_least};

verus! {

/// Whether a row has the bits of a base at the positions of bases and the constants at theirs.
pub open spec fn row_matches(
    states: Seq<BaseBitLayoutState>,
    row: Seq<bool>,
    base: Seq<bool>,
) -> bool {
    &&& base.len() == positions(states, PositionKind::Variable).len()
    &&& forall|p: int|
        0 <= p < states.len() ==> match #[trigger] states[p] {
            BaseBitLayoutState::Deviation => true,
            BaseBitLayoutState::Variable => row[p] == base[positions(
                states.take(p),
                PositionKind::Variable,
            ).len() as int],
            BaseBitLayoutState::ConstantZero => !row[p],
            BaseBitLayoutState::ConstantOne => row[p],
        }
}

/// Whether every base of a context has the width of the layout, and each of the first `n` rows
/// matches its base.
pub open spec fn leading_bases_match(context: PreEncodeContext, n: int) -> bool {
    &&& forall|i: int|
        0 <= i < context.variable_base_table@.len() ==> (
        #[trigger] context.variable_base_table@[i]).0@.len() == positions(
            context.layout@,
            PositionKind::Variable,
        ).len()
    &&& forall|s: int|
        0 <= s < n ==> row_matches(
            context.layout@,
            context.bit_data.data.row(s),
            context.variable_base_table@[(#[trigger] context.row_to_base_id@[s]) as int].0@,
        )
}

/// The bits of a row at a prefix of the positions, merged from its own deviation bits and a base.
proof fn merged_prefix(
    states: Seq<BaseBitLayoutState>,
    row: Seq<bool>,
    base: Seq<bool>,
    deviation: Seq<bool>,
    n: int,
)
    requires
        0 <= n <= states.len() <= row.len(),
        row_matches(states, row, base),
        deviation == unmasked(row, base_mask(states)),
    ensures
        merged(states.take(n), deviation, base) == row.take(n),
    decreases n,
{
    if n > 0 {
        merged_prefix(states, row, base, deviation, n - 1);
        let more = states.take(n);
        assert(more.drop_last() =~= states.take(n - 1));
        assert(row.take(n) =~= row.take(n - 1).push(row[n - 1]));
        assert(states[n - 1] == more.last());
        if states[n - 1] == BaseBitLayoutState::Deviation {
            deviation_bit(states, row, n - 1);
        }
    } else {
        assert(row.take(0) =~= Seq::empty());
        assert(states.take(0) =~= Seq::empty());
    }
}

/// Where a deviation bit stands among the deviation bits of its row.
proof fn deviation_bit(states: Seq<BaseBitLayoutState>, row: Seq<bool>, p: int)
    requires
        0 <= p < states.len(),
        states[p] == BaseBitLayoutState::Deviation,
    ensures
        clear_count(base_mask(states.take(p))) < unmasked(row, base_mask(states)).len(),
        unmasked(row, base_mask(states))[clear_count(base_mask(states.take(p))) as int] == row[p],
    decreases states.len(),
{
    let before = states.drop_last();
    assert(base_mask(states).drop_last() =~= base_mask(before));
    unmasked_len(row, base_mask(before));
    unmasked_len(row, base_mask(states));
    if p < states.len() - 1 {
        deviation_bit(before, row, p);
        assert(before.take(p) =~= states.take(p));
    } else {
        assert(states.take(p) =~= before);
    }
}

/// A row that matches its base is merged again from its deviation bits and that base.
pub proof fn row_is_merged_again(
    states: Seq<BaseBitLayoutState>,
    row: Seq<bool>,
    base: Seq<bool>,
)
    requires
        row.len() == states.len(),
        row_matches(states, row, base),
    ensures
        merged(states, unmasked(row, base_mask(states)), base) == row,
{
    merged_prefix(states, row, base, unmasked(row, base_mask(states)), states.len() as int);
    assert(states.take(states.len() as int) =~= states);
    assert(row.take(states.len() as int) =~= row);
}

/// A row with the constants at their positions.
pub open spec fn with_constants(states: Seq<BaseBitLayoutState>, row: Seq<bool>) -> Seq<bool> {
    Seq::new(
        row.len(),
        |p: int|
            match states[p] {
                BaseBitLayoutState::ConstantZero => false,
                BaseBitLayoutState::ConstantOne => true,
                _ => row[p],
            },
    )
}

/// Constants are no part of the deviation bits.
pub proof fn constants_do_not_deviate(states: Seq<BaseBitLayoutState>, row: Seq<bool>, n: int)
    requires
        0 <= n <= states.len() <= row.len(),
    ensures
        unmasked(with_constants(states, row), base_mask(states).take(n)) == unmasked(
            row,
            base_mask(states).take(n),
        ),
    decreases n,
{
    if n > 0 {
        constants_do_not_deviate(states, row, n - 1);
        let mask = base_mask(states);
        assert(mask.take(n).drop_last() =~= mask.take(n - 1));
        assert(mask.take(n).last() == mask[n - 1]);
    }
}

/// A row that matches a base has the constants.
pub proof fn matching_row_has_constants(
    states: Seq<BaseBitLayoutState>,
    row: Seq<bool>,
    base: Seq<bool>,
)
    requires
        row.len() == states.len(),
        row_matches(states, row, base),
    ensures
        with_constants(states, row) == row,
{
    assert forall|p: int| 0 <= p < row.len() implies with_constants(states, row)[p] == row[p] by {
        let state = states[p];
    }
    assert(with_constants(states, row) =~= row);
}

/// Whether encoded rows are those of a context in one of the encodings.
pub open spec fn encodes_rows(context: PreEncodeContext, encoded: EncodedView) -> bool {
    match encoded {
        EncodedView::Normal(rows) => rows == encoded_rows(context),
        EncodedView::Rle(rows) => rows == rle_rows(context),
        EncodedView::RleOffset(rows) => {
            let layout = row_layout(context.bit_data.info@)->0;
            &&& holds_original_rows(context)
            &&& rle_offset_encodes(context)
            &&& rows == rle_offset_rows(context, layout.0, layout.1, layout.2)
        },
        EncodedView::Huffman(rows) => {
            &&& huffman_fits(context)
            &&& huffman_encodes(context)
            &&& rows == huffman_rows(context)
        },
    }
}

/// Complete runs give a row when they are decoded in sequence.
proof fn run_row(
    symbols: Seq<bool>,
    pairs: Seq<(u8, u8)>,
    raw: Seq<bool>,
    count: nat,
    s: int,
    dw: nat,
    iw: nat,
)
    requires
        complete(symbols, pairs, count, dw + iw),
        expands_to(pairs, symbols, dw + iw, raw),
        0 <= s < count,
    ensures
        row_from(symbols, pairs, 0, s, dw, iw) == Some(split_symbol(slot(raw, dw + iw, s), dw)),
{
    source_in_bounds(pairs, s);
    slot_in_bounds(source(pairs, s), total_symbols(pairs) as int, (dw + iw) as int);
    assert(slot(raw, dw + iw, s) == slot(symbols, dw + iw, source(pairs, s)));
}

/// The sizes of the groups of a context, where there are any.
pub proof fn groups_cover(context: PreEncodeContext)
    requires
        context.valid(),
        holds_original_rows(context),
        rle_offset_encodes(context),
    ensures
        row_layout(context.bit_data.info@) matches Some((samples, count, size)) && samples == count
            * size && samples <= context.bit_data.data.num_rows && starts_fit(context, count, size),
{
    let (samples, count, size) = row_layout(context.bit_data.info@)->0;
    assert(samples * 1 == samples);
    assert(0 * size == 0);
    assert(count > 0 && size > 0 ==> count * size > 0) by (nonlinear_arith);
}

/// Whatever the encoding, all rows of a context are decoded in sequence as the plain encoding
/// holds them.
pub proof fn encodings_agree(context: PreEncodeContext, encoded: EncodedView, s: int)
    requires
        context.valid(),
        encodes_rows(context, encoded),
        0 <= s < context.bit_data.data.num_rows,
    ensures
        encoded.row_in_sequence(s) == Some(encoded_rows(context).sample(s)),
{
    let raw = encoded_rows(context).bits;
    let dw = deviation_width(context);
    let iw = id_width(context);
    match encoded {
        EncodedView::Normal(rows) => {},
        EncodedView::Rle(rows) => {
            rle_is_lossless(context, raw);
            run_row(rows.symbols, rows.pairs, raw, rows.num_samples, s, dw, iw);
        },
        EncodedView::RleOffset(rows) => {
            let (samples, count, size) = row_layout(context.bit_data.info@)->0;
            groups_cover(context);
            rle_offset_is_lossless(context, samples, count, size, raw);
            run_row(rows.symbols, rows.pairs, raw, rows.num_samples, s, dw, iw);
        },
        EncodedView::Huffman(rows) => {
            let n = rows.num_samples;
            huffman_is_lossless(context);
            decoded_prefix(rows.symbols, rows.lengths, rows.pixels, 0, (s + 1) as nat, n);
            let ids = row_ids(context);
            assert((rows.ids(0, (s + 1) as nat)->0).0 =~= ids.take(s + 1));
            assert(ids.take(s + 1).last() == ids[s]);
            huffman_row(context, s);
        },
    }
}

/// Whatever the encoding, all rows of a context are there.
pub proof fn all_rows_there(context: PreEncodeContext, encoded: EncodedView, n: nat)
    requires
        context.valid(),
        encodes_rows(context, encoded),
        n <= context.bit_data.data.num_rows,
    ensures
        encoded.num_samples() == context.bit_data.data.num_rows,
        encoded.num_deviation_bits() == deviation_width(context),
        encoded.num_id_bits() == id_width(context),
        encoded.rows_within(n) == n,
{
    let raw = encoded_rows(context).bits;
    match encoded {
        EncodedView::Normal(rows) => {},
        EncodedView::Rle(rows) => {
            rle_is_lossless(context, raw);
        },
        EncodedView::RleOffset(rows) => {
            let (samples, count, size) = row_layout(context.bit_data.info@)->0;
            groups_cover(context);
            rle_offset_is_lossless(context, samples, count, size, raw);
        },
        EncodedView::Huffman(rows) => {},
    }
}

/// Decompression gives back the original rows of a context, whatever the encoding.
pub proof fn decompression_undoes_encoding(context: PreEncodeContext, encoded: EncodedView)
    requires
        context.valid(),
        leading_bases_match(
            context,
            original_rows(compressed_content(context, encoded)) as int,
        ),
        encodes_rows(context, encoded),
        original_rows(compressed_content(context, encoded)) <= context.bit_data.data.num_rows,
    ensures
        ({
            let data = compressed_content(context, encoded);
            &&& decodes(data)
            &&& forall|s: int|
                0 <= s < original_rows(data) ==> #[trigger] restored_row(data, s)
                    == context.bit_data.data.row(s)
        }),
{
    let data = compressed_content(context, encoded);
    let n = original_rows(data);
    let table = context.variable_base_table@;
    let iw = id_width(context);
    all_rows_there(context, encoded, n);
    bits_needed_is_least(table.len());
    assert(iw <= 64) by {
        lemma2_to64();
        assert(context.variable_base_table.len() == table.len());
        bits_needed_bound(table.len(), 64);
    }
    assert(bases(data) == table_view(table));
    assert(widths_agree(data)) by {
        assert forall|i: int| 0 <= i < bases(data).len() implies (
        #[trigger] bases(data)[i]).0.len() == positions(
            data.layout,
            PositionKind::Variable,
        ).len() by {
            assert(table[i].0@.len() == bases(data)[i].0.len());
        }
    }
    assert forall|s: int| 0 <= s < n implies (#[trigger] data.encoded.row_in_sequence(s)) is Some
        && base_number(data, s) < bases(data).len() && restored_row(data, s)
        == context.bit_data.data.row(s) by {
        let id = context.row_to_base_id@[s] as nat;
        let row = context.bit_data.data.row(s);
        encodings_agree(context, encoded, s);
        encoded_rows_random_access(context, s);
        unmasked_len(row, base_mask(context.layout@));
        let sample = encoded_rows(context).sample(s);
        let symbol = row_symbol(context, s);
        assert(sample.deviation =~= unmasked(row, base_mask(context.layout@)));
        assert(sample.id =~= low_digits(id, iw));
        value_fits(id, iw);
        row_in_bounds(
            s,
            context.bit_data.data.num_rows as int,
            context.bit_data.data.stride as int,
            context.bit_data.data.chunk_size as int,
        );
        row_is_merged_again(context.layout@, row, table[id as int].0@);
    }
    assert forall|s: int| 0 <= s < n implies #[trigger] restored_row(data, s)
        == context.bit_data.data.row(s) by {
        assert(data.encoded.row_in_sequence(s) is Some);
    }
}

/// A row that can be decoded in sequence is decoded alike from a file.
pub proof fn stored_row(rows: EncodedView, shape: RowShape, s: int)
    requires
        rows_storable(rows, shape),
        rows matches EncodedView::Normal(plain) ==> plain.holds_samples(),
        0 <= s < shape.total,
        rows.row_in_sequence(s) is Some,
    ensures
        stored_rows(rows, shape).row_in_sequence(s) == rows.row_in_sequence(s),
{
    let width = shape.width();
    match rows {
        EncodedView::Normal(plain) => {
            let kept = fitted(plain.bits, shape.total * width);
            slot_in_bounds(s, shape.total as int, width as int);
            assert(slot(kept, width, s) =~= slot(plain.bits, width, s));
        },
        EncodedView::Rle(runs) => {
            let parts = Seq::new(
                total_samples(runs.pairs),
                |k: int| slot(runs.symbols, width, source(runs.pairs, k)),
            );
            assert forall|k: int| 0 <= k < parts.len() implies (#[trigger] parts[k]).len()
                == width by {
                source_in_bounds(runs.pairs, k);
                slot_in_bounds(
                    source(runs.pairs, k),
                    total_symbols(runs.pairs) as int,
                    width as int,
                );
            }
            join_uniform(parts, width);
            assert(written_out(runs).bits == join(parts));
            assert(parts[s] == slot(written_out(runs).bits, width, s));
        },
        EncodedView::RleOffset(runs) => {},
        EncodedView::Huffman(codes) => {
            let extra = (8 * byte_len(codes.pixels.len()) - codes.pixels.len()) as nat;
            let zeros = Seq::new(extra, |i: int| false);
            assert(fitted(codes.pixels, 8 * byte_len(codes.pixels.len())) =~= codes.pixels
                + zeros);
            decoded_before_more(
                codes.symbols,
                codes.lengths,
                codes.pixels,
                zeros,
                0,
                (s + 1) as nat,
            );
        },
    }
}

/// The bases of data that can be decompressed are found again in its file.
pub proof fn stored_bases(data: CompressedView)
    requires
        storable(data),
        widths_agree(data),
    ensures
        stored(data).base_table.rows() is Some,
        bases(stored(data)).len() == bases(data).len(),
        forall|i: int|
            0 <= i < bases(data).len() ==> (#[trigger] bases(stored(data))[i]).0 == bases(
                data,
            )[i].0,
{
    let width = table_width(data.layout);
    let kept = stored(data);
    assert(kept.base_table == counted(
        stored_table(data.base_table, width),
        stored_rows(data.encoded, shape_of(data)),
    )->0);
    match data.base_table {
        TableView::Raw(rows) => {
            assert forall|i: int| 0 <= i < rows.len() implies (#[trigger] bases(kept)[i]).0
                == bases(data)[i].0 by {
                assert(bases(data)[i].0.len() == width);
                assert(fitted(rows[i].0, width) =~= rows[i].0);
            }
        },
        TableView::Delta(delta) => {},
    }
}

/// The rows of data that can be decompressed are found again in its file.
proof fn stored_sequence(data: CompressedView)
    requires
        storable(data),
        decodes(data),
        data.encoded matches EncodedView::Normal(plain) ==> plain.holds_samples(),
    ensures
        original_rows(stored(data)) == original_rows(data),
        stored(data).layout == data.layout,
        stored(data).encoded.num_id_bits() == data.encoded.num_id_bits(),
        stored(data).encoded.num_deviation_bits() == data.encoded.num_deviation_bits(),
        stored(data).encoded.rows_within(original_rows(data)) == original_rows(data),
        forall|s: int|
            0 <= s < original_rows(data) ==> #[trigger] stored(data).encoded.row_in_sequence(s)
                == data.encoded.row_in_sequence(s),
{
    let shape = shape_of(data);
    let kept = stored(data);
    let n = original_rows(data) as int;
    let w = features_width(data.metadata.features) as int;
    widths_add_up(data.metadata.features);
    assert(data.metadata.features[0].data_type.width() > 0);
    assert((n * w) / w == n) by (nonlinear_arith)
        requires
            w > 0,
    ;
    assert(kept.encoded == stored_rows(data.encoded, shape));
    assert forall|s: int| 0 <= s < n implies #[trigger] kept.encoded.row_in_sequence(s)
        == data.encoded.row_in_sequence(s) by {
        assert(data.encoded.row_in_sequence(s) is Some);
        stored_row(data.encoded, shape, s);
    }
}

/// Data that can be decompressed is decompressed to the same rows from its file.
pub proof fn file_decompresses_alike(data: CompressedView)
    requires
        storable(data),
        decodes(data),
        data.encoded matches EncodedView::Normal(plain) ==> plain.holds_samples(),
    ensures
        read_file(file_bytes(data)) == Some(stored(data)),
        decodes(stored(data)),
        original_rows(stored(data)) == original_rows(data),
        forall|s: int|
            0 <= s < original_rows(data) ==> #[trigger] restored_row(stored(data), s)
                == restored_row(data, s),
{
    file_is_read_back(data);
    stored_bases(data);
    stored_sequence(data);
    same_rows_decode(data, stored(data));
}

/// Data with the same bases and the same rows in sequence is decompressed alike.
proof fn same_rows_decode(data: CompressedView, kept: CompressedView)
    requires
        decodes(data),
        kept.layout == data.layout,
        kept.base_table.rows() is Some,
        bases(kept).len() == bases(data).len(),
        forall|i: int|
            0 <= i < bases(data).len() ==> (#[trigger] bases(kept)[i]).0 == bases(data)[i].0,
        original_rows(kept) == original_rows(data),
        kept.encoded.num_id_bits() == data.encoded.num_id_bits(),
        kept.encoded.num_deviation_bits() == data.encoded.num_deviation_bits(),
        kept.encoded.rows_within(original_rows(data)) == original_rows(data),
        forall|s: int|
            0 <= s < original_rows(data) ==> #[trigger] kept.encoded.row_in_sequence(s)
                == data.encoded.row_in_sequence(s),
    ensures
        decodes(kept),
        forall|s: int|
            0 <= s < original_rows(data) ==> #[trigger] restored_row(kept, s) == restored_row(
                data,
                s,
            ),
{
    let n = original_rows(data) as int;
    assert forall|i: int| 0 <= i < bases(kept).len() implies (#[trigger] bases(kept)[i]).0.len()
        == positions(kept.layout, PositionKind::Variable).len() by {
        assert(bases(data)[i].0.len() == positions(data.layout, PositionKind::Variable).len());
    }
    assert forall|s: int| 0 <= s < n implies (#[trigger] kept.encoded.row_in_sequence(s)) is Some
        && base_number(kept, s) < bases(kept).len() by {
        assert(data.encoded.row_in_sequence(s) is Some);
    }
    assert forall|s: int| 0 <= s < n implies #[trigger] restored_row(kept, s) == restored_row(
        data,
        s,
    ) by {
        assert(data.encoded.row_in_sequence(s) is Some);
        assert(kept.encoded.row_in_sequence(s) == data.encoded.row_in_sequence(s));
        assert(bases(kept)[base_number(data, s) as int].0 == bases(data)[base_number(
            data,
            s,
        ) as int].0);
    }
}

/// Whether a base table holds the given bases, row by row or as differences; how often they occur
/// does not matter.
pub open spec fn holds_bases(table: TableView, rows: Seq<(Seq<bool>, usize)>) -> bool {
    &&& table.num_bases() == rows.len()
    &&& table.rows() matches Some(found) && found.len() == rows.len() && (forall|i: int|
        0 <= i < rows.len() ==> (#[trigger] found[i]).0 == rows[i].0)
}

/// The encoded rows of a context with a base table of its own.
pub open spec fn content_with(
    context: PreEncodeContext,
    encoded: EncodedView,
    table: TableView,
) -> CompressedView {
    CompressedView { base_table: table, ..compressed_content(context, encoded) }
}

/// Whether compressed data holds the encoded rows of a context, with a base table of its own and
/// weights of its own.
pub open spec fn is_content(
    data: CompressedView,
    context: PreEncodeContext,
    table: TableView,
) -> bool {
    &&& data == (CompressedView {
        weights: data.weights,
        ..content_with(context, data.encoded, table)
    })
    &&& context.valid()
    &&& encodes_rows(context, data.encoded)
    &&& holds_bases(table, table_view(context.variable_base_table@))
}

/// Decompression gives back the original rows of a context, whatever the encoding, and whether its
/// base table is kept row by row or as differences.
pub proof fn decompression_undoes_all(
    data: CompressedView,
    context: PreEncodeContext,
    table: TableView,
)
    requires
        is_content(data, context, table),
        leading_bases_match(context, original_rows(data) as int),
        original_rows(data) <= context.bit_data.data.num_rows,
    ensures
        decodes(data),
        forall|s: int|
            0 <= s < original_rows(data) ==> #[trigger] restored_row(data, s)
                == context.bit_data.data.row(s),
{
    let plain = compressed_content(context, data.encoded);
    decompression_undoes_encoding(context, data.encoded);
    assert(bases(plain) == table_view(context.variable_base_table@));
    same_rows_decode(plain, data);
    assert forall|s: int| 0 <= s < original_rows(data) implies #[trigger] restored_row(data, s)
        == context.bit_data.data.row(s) by {
        assert(restored_row(plain, s) == context.bit_data.data.row(s));
    }
}

/// The symbols of a context are all there.
pub proof fn symbols_are_held(context: PreEncodeContext, encoded: EncodedView)
    requires
        encodes_rows(context, encoded),
    ensures
        encoded matches EncodedView::Normal(plain) ==> plain.holds_samples(),
{
    if encoded is Normal {
        assert(0 * encoded_rows(context).symbol_width() == 0);
        if context.bit_data.data.num_rows > 0 {
            encoded_rows_random_access(context, 0);
        }
    }
}

/// A file of compressed rows is decompressed to the rows of the context that it was made from,
/// whatever the encoding, and whether its base table is kept row by row or as differences.
#[verifier::spinoff_prover]
pub proof fn compressed_file_gives_back_rows(
    data: CompressedView,
    context: PreEncodeContext,
    table: TableView,
)
    requires
        is_content(data, context, table),
        leading_bases_match(context, original_rows(data) as int),
        original_rows(data) <= context.bit_data.data.num_rows,
        storable(data),
    ensures
        ({
            let read = read_file(file_bytes(data));
            &&& read is Some
            &&& decodes(read->0)
            &&& original_rows(read->0) == original_rows(data)
            &&& forall|s: int|
                0 <= s < original_rows(read->0) ==> #[trigger] restored_row(read->0, s)
                    == context.bit_data.data.row(s)
        }),
{
    decompression_undoes_all(data, context, table);
    symbols_are_held(context, data.encoded);
    file_decompresses_alike(data);
    assert forall|s: int| 0 <= s < original_rows(data) implies #[trigger] restored_row(
        stored(data),
        s,
    ) == context.bit_data.data.row(s) by {
        assert(restored_row(data, s) == context.bit_data.data.row(s));
    }
}

/// The base table of a context holds its bases, and so does that table as differences where the
/// order names all columns once.
pub proof fn differences_hold_bases(
    rows: Seq<(Seq<bool>, usize)>,
    order: Option<Seq<usize>>,
    codec_id: u8,
)
    requires
        codec_id == BASE_TABLE_TAG_DELTA_UNARY || codec_id == BASE_TABLE_TAG_DELTA_FIXED,
        rows.len() > 0 ==> rows_uniform(rows, rows[0].0.len()),
        has_differences(rows, order) && rows.len() > 0 ==> orders_all(order->0, rows[0].0.len()),
    ensures
        holds_bases(TableView::Raw(rows), rows),
        holds_bases(table_of_differences(rows, order, codec_id), rows),
{
    if has_differences(rows, order) && rows.len() > 0 {
        delta_table_is_lossless(rows, order->0, codec_id, rows[0].0.len());
    }
}

} // verus!
