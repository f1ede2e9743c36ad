//! Encoded rows that are written to a file can be read from it.
use vstd::arithmetic::power2::pow2;
use vstd::prelude::*;

use crate::base_bits::BaseBitGroups;
use crate::base_table::{table_view, PreEncodeContext};
use crate::base_table_builder::{built, rows_in_group};
use crate::bits::{bits_value, low_digits};
use crate::data::{
    features_width, ColumnDataType, ImageColorModel, ImageReconstructionInfo, ReconstructionView,
};
use crate::dataset::BitDataSet;
use crate::decompression::{decodes, holds_rows, original_rows, restored_row};
use crate::decompression_laws::{
    all_rows_there, compressed_file_gives_back_rows, encodes_rows, groups_cover, is_content,
    leading_bases_match, stored_row, symbols_are_held,
};
use crate::encoding::compressed::{
    compressed_content, CompressedData, CompressedView, EncodedView, TableView,
};
use crate::encoding::deviation::{encoded_rows, encoded_rows_random_access, DeviationView};
use crate::encoding::huffman_data::{decoded_prefix, HuffmanView};
use crate::encoding::huffman_encode::huffman_random_access;
use crate::encoding::layout::{
    base_mask, clear_count_of_states, id_width, row_symbols_uniform, unmasked_len,
};
use crate::encoding::rle_encode::{rle_is_lossless, rle_offset_is_lossless, row_layout};
use crate::file_format::egd::{
    base_of, bases_exist, counted, file_bytes, occurrences, read_file, shape_of, table_width,
    writes,
};
use crate::file_format::egd_laws::{
    decoded_before_more, file_is_read_back, file_keeps_description, file_keeps_runs, rows_storable,
    storable, stored, stored_rows, written_from,
};
use crate::file_format::egd_rows::RowShape;
use crate::file_format::egd_table::{stored_table, table_storable};
use crate::file_format::igd::{image_file_bytes, read_image_file};
use crate::file_format::tgd::{names_fit, read_table_file, table_file_bytes};
use crate::file_format::whole_files_laws::{
    image_comes_out_of_its_file, keeps_in_file, starts_with, table_comes_out_of_its_file,
};
use crate::image_preprocessor::builder::{
    image_accepted, is_image_set, ImageBuildInput, ImageBuildOptions,
};
use crate::image_preprocessor::restore::{image_restorable, restored_image};
use crate::numbers::{fitted, value_fits};
use crate::pipeline::condensed_rows::{first_member, first_member_is_one, group_has_member};
use crate::tabular_processor::columns::{stored_column, Column, PreprocessOptions, ValuesView};
use crate::tabular_processor::restore::{column_values, is_table, original_value};
use crate::tabular_processor::table::{
    column_name_texts, column_type_list, is_table_set, table_accepted,
};
use crate::utils::bits_needed_is_least;

verus! {

/// A symbol that is decoded from a position is decoded alike where further bits follow.
proof fn ids_before_more(codes: HuffmanView, more: HuffmanView, position: int, count: nat)
    requires
        codes.well_formed(),
        more.symbols == codes.symbols,
        more.lengths == codes.lengths,
        more.pixels.len() >= codes.pixels.len(),
        more.pixels.take(codes.pixels.len() as int) == codes.pixels,
        0 <= position <= codes.pixels.len(),
        codes.ids(position, count) is Some,
    ensures
        more.ids(position, count) == codes.ids(position, count),
{
    let rest = more.pixels.skip(codes.pixels.len() as int);
    assert(codes.pixels + rest =~= more.pixels);
    decoded_before_more(codes.symbols, codes.lengths, codes.pixels, rest, position, count);
}

/// A row with a prefix code that can be decoded by itself is decoded alike from a file.
proof fn stored_code(codes: HuffmanView, shape: RowShape, s: int)
    requires
        rows_storable(EncodedView::Huffman(codes), shape),
        0 <= s < shape.total,
        codes.sample(s) is Some,
    ensures
        stored_rows(EncodedView::Huffman(codes), shape).sample(s) == codes.sample(s),
{
    let kept = stored_rows(EncodedView::Huffman(codes), shape)->Huffman_0;
    let original = codes.original_num_samples as int;
    let width = codes.row_width as int;
    assert(kept.pixels.take(codes.pixels.len() as int) =~= codes.pixels);
    if original > 0 {
        let groups = codes.row_offsets.len() as int;
        assert(groups > 0 && groups * width == original) by (nonlinear_arith)
            requires
                width > 0,
                original > 0,
                original % width == 0,
                groups == original / width,
        ;
        let last = codes.row_offsets.last() as int;
        assert(codes.row_offsets[groups - 1] == last);
        ids_before_more(codes, kept, last, codes.row_width);
        decoded_prefix(
            codes.symbols,
            codes.lengths,
            codes.pixels,
            last,
            codes.row_width,
            codes.row_width,
        );
        assert(kept.original_end() == codes.original_end());
        if s < original {
            let group = s / width;
            assert(0 <= group < groups) by (nonlinear_arith)
                requires
                    0 <= s < groups * width,
                    width > 0,
                    group == s / width,
            ;
            ids_before_more(
                codes,
                kept,
                codes.row_offsets[group] as int,
                (s % width + 1) as nat,
            );
        }
    }
    if s >= original {
        ids_before_more(
            codes,
            kept,
            codes.original_end()->0,
            (s - original + 1) as nat,
        );
    }
}

/// A row that can be decoded by itself, and alike in sequence, is decoded alike from a file.
pub proof fn stored_sample(rows: EncodedView, shape: RowShape, s: int)
    requires
        rows_storable(rows, shape),
        rows matches EncodedView::Normal(plain) ==> plain.holds_samples(),
        0 <= s < shape.total,
        rows.sample(s) is Some,
    ensures
        stored_rows(rows, shape).sample(s) == rows.sample(s),
{
    match rows {
        EncodedView::Normal(plain) => {
            stored_row(rows, shape, s);
        },
        EncodedView::Rle(runs) => {
            stored_row(rows, shape, s);
        },
        EncodedView::RleOffset(runs) => {},
        EncodedView::Huffman(codes) => {
            stored_code(codes, shape, s);
        },
    }
}

/// Whatever the encoding, each row can be decoded by itself, and it has the number of its base.
pub proof fn row_has_base(context: PreEncodeContext, encoded: EncodedView, s: int)
    requires
        context.valid(),
        encodes_rows(context, encoded),
        0 <= s < context.bit_data.data.num_rows,
    ensures
        encoded.sample(s) == Some(encoded_rows(context).sample(s)),
        bits_value(encoded_rows(context).sample(s).id) == context.row_to_base_id@[s],
{
    let raw = encoded_rows(context).bits;
    match encoded {
        EncodedView::Normal(rows) => {},
        EncodedView::Rle(rows) => {
            rle_is_lossless(context, raw);
        },
        EncodedView::RleOffset(rows) => {
            let (samples, count, size) = row_layout(context.bit_data.info@)->0;
            groups_cover(context);
            rle_offset_is_lossless(context, samples, count, size, raw);
        },
        EncodedView::Huffman(rows) => {
            huffman_random_access(context, s);
        },
    }
    let id = context.row_to_base_id@[s] as nat;
    let iw = id_width(context);
    encoded_rows_random_access(context, s);
    unmasked_len(context.bit_data.data.row(s), base_mask(context.layout@));
    assert(encoded_rows(context).sample(s).id =~= low_digits(id, iw));
    bits_needed_is_least(context.variable_base_table@.len());
    value_fits(id, iw);
}

/// Whether compressed data holds the encoded rows of a context and saving it succeeds, all rows that
/// the context has are original or condensed ones, and each feature has bits.
pub open spec fn is_saved(
    data: CompressedData,
    context: PreEncodeContext,
    table: TableView,
) -> bool {
    &&& data.valid()
    &&& is_content(data@, context, table)
    &&& table_storable(table, table_width(context.layout@))
    &&& writes(data@)
    &&& shape_of(data@).total == context.bit_data.data.num_rows
    &&& forall|i: int|
        0 <= i < data@.metadata.features.len() ==> (
        #[trigger] data@.metadata.features[i]).data_type.width() > 0
}

/// The encoded rows of a context that are written to a file can be read from it.
pub proof fn saved_rows_are_storable(
    data: CompressedData,
    context: PreEncodeContext,
    table: TableView,
)
    requires
        is_saved(data, context, table),
    ensures
        storable(data@),
{
    let view = data@;
    let shape = shape_of(view);
    let encoded = view.encoded;
    let raw = encoded_rows(context).bits;
    let n = context.bit_data.data.num_rows as nat;
    let features = view.metadata.features;
    all_rows_there(context, encoded, n);
    clear_count_of_states(context.layout@);
    if n > 0 {
        encoded_rows_random_access(context, 0);
    } else {
        row_symbols_uniform(context);
    }
    match encoded {
        EncodedView::Normal(rows) => {},
        EncodedView::Rle(rows) => {},
        EncodedView::RleOffset(rows) => {
            let (samples, count, size) = row_layout(context.bit_data.info@)->0;
            groups_cover(context);
            rle_offset_is_lossless(context, samples, count, size, raw);
        },
        EncodedView::Huffman(rows) => {},
    }
    assert(rows_storable(encoded, shape));
    let kept = stored_table(table, table_width(view.layout));
    let rows = stored_rows(encoded, shape);
    assert(counted(kept, rows) is Some) by {
        if kept is Raw {
            assert forall|s: int| 0 <= s < n implies (#[trigger] rows.sample(s)) is Some
                && base_of(rows, s) < kept.num_bases() by {
                row_has_base(context, encoded, s);
                stored_sample(encoded, shape, s);
            }
            assert(bases_exist(rows, kept.num_bases(), n as int));
        }
    }
    assert(features.len() > 0);
    assert(data.metadata.compression.features.len() == features.len());
    assert(shape.original * features_width(features) <= view.metadata.original_size_bits)
        by (nonlinear_arith)
        requires
            shape.original == view.metadata.original_size_bits / features_width(
                features,
            ),
            features_width(features) > 0,
    ;
}

/// Where saving the encoded rows of a context succeeds, the file that is written gives back its
/// original rows, whatever the encoding.
pub proof fn saved_file_gives_back_rows(
    data: CompressedData,
    context: PreEncodeContext,
    table: TableView,
)
    requires
        is_saved(data, context, table),
        leading_bases_match(context, original_rows(data@) as int),
    ensures
        ({
            let read = read_file(file_bytes(data@));
            &&& read is Some
            &&& decodes(read->0)
            &&& original_rows(read->0) == original_rows(data@)
            &&& forall|s: int|
                0 <= s < original_rows(read->0) ==> #[trigger] restored_row(read->0, s)
                    == context.bit_data.data.row(s)
        }),
{
    saved_rows_are_storable(data, context, table);
    compressed_file_gives_back_rows(data@, context, table);
}

/// Where saving the encoded rows of a context succeeds, the context can be kept in a file, so that
/// an image or a table comes out of it as it was.
pub proof fn saved_context_is_kept(
    data: CompressedData,
    context: PreEncodeContext,
    table: TableView,
)
    requires
        is_saved(data, context, table),
        leading_bases_match(context, original_rows(data@) as int),
        file_bytes(data@).len() <= usize::MAX,
    ensures
        keeps_in_file(data@, context, table),
{
    saved_rows_are_storable(data, context, table);
}

/// Where saving the encoded rows of a context succeeds, each row is decoded by itself from the file as
/// it was before, whatever the encoding. Rows with prefix codes and runs with group starts keep their
/// encoding.
pub proof fn saved_samples_come_back(
    data: CompressedData,
    context: PreEncodeContext,
    table: TableView,
    s: int,
)
    requires
        is_saved(data, context, table),
        0 <= s < context.bit_data.data.num_rows,
    ensures
        read_file(file_bytes(data@)) matches Some(read) && {
            &&& data@.encoded.sample(s) is Some
            &&& read.encoded.sample(s) == data@.encoded.sample(s)
            &&& read.encoded.num_samples() == data@.encoded.num_samples()
            &&& read.encoded is Huffman == data@.encoded is Huffman
            &&& read.encoded is RleOffset == data@.encoded is RleOffset
            &&& data@.metadata.original_size_bits % features_width(data@.metadata.features) == 0
                ==> read.metadata.original_size_bits == data@.metadata.original_size_bits
        },
{
    saved_rows_are_storable(data, context, table);
    file_is_read_back(data@);
    file_keeps_description(data@);
    row_has_base(context, data@.encoded, s);
    symbols_are_held(context, data@.encoded);
    stored_sample(data@.encoded, shape_of(data@), s);
}

/// Where saving runs with group starts succeeds, the file holds the same runs, and written out they
/// are the same rows as before.
pub proof fn saved_runs_come_back(
    data: CompressedData,
    context: PreEncodeContext,
    table: TableView,
    before: DeviationView,
    after: DeviationView,
)
    requires
        is_saved(data, context, table),
        data@.encoded is RleOffset,
        written_from(data@.encoded, before),
        read_file(file_bytes(data@)) matches Some(read) ==> written_from(read.encoded, after),
    ensures
        read_file(file_bytes(data@)) matches Some(read) && read.encoded == data@.encoded,
        before == after,
{
    saved_rows_are_storable(data, context, table);
    file_keeps_runs(data@, before, after);
}

/// Rows that have the numbers of their groups are counted as these.
proof fn occurrences_are_rows(rows: EncodedView, ids: Seq<usize>, base: int, n: int)
    requires
        0 <= n <= ids.len(),
        forall|s: int| 0 <= s < n ==> base_of(rows, s) == #[trigger] ids[s],
    ensures
        occurrences(rows, base, n) == rows_in_group(ids, base, n),
    decreases n,
{
    if n > 0 {
        occurrences_are_rows(rows, ids, base, n - 1);
        assert(base_of(rows, n - 1) == ids[n - 1]);
    }
}

/// A base table that was built is counted anew just as it was.
proof fn built_table_is_counted(
    context: PreEncodeContext,
    groups: BaseBitGroups,
    rows: EncodedView,
)
    requires
        context.valid(),
        groups.groups(context.bit_data.data),
        built(context, context.bit_data, groups, context.entropy_sorted_column_order),
        rows.num_samples() == context.bit_data.data.num_rows,
        forall|s: int|
            0 <= s < context.bit_data.data.num_rows ==> (#[trigger] rows.sample(s)) is Some
                && base_of(rows, s) == context.row_to_base_id@[s],
    ensures
        counted(
            stored_table(
                TableView::Raw(table_view(context.variable_base_table@)),
                table_width(context.layout@),
            ),
            rows,
        ) == Some(TableView::Raw(table_view(context.variable_base_table@))),
{
    let width = table_width(context.layout@);
    let table = table_view(context.variable_base_table@);
    let n = context.bit_data.data.num_rows as int;
    let ids = groups.row_to_id@;
    let kept = stored_table(TableView::Raw(table), width)->Raw_0;
    assert forall|i: int| 0 <= i < table.len() implies fitted((#[trigger] table[i]).0, width)
        == table[i].0 && table[i].1 == occurrences(rows, i, n) by {
        group_has_member(context.bit_data.data, groups, i);
        let row = first_member(ids, i, 0);
        first_member_is_one(ids, i, 0);
        assert(context.variable_base_table@[ids[row] as int].0@.len() == width);
        assert(fitted(table[i].0, width) =~= table[i].0);
        assert forall|s: int| 0 <= s < n implies base_of(rows, s) == #[trigger] ids[s] by {
            assert(rows.sample(s) is Some);
        }
        occurrences_are_rows(rows, ids, i, n);
    }
    if table.len() == 0 {
        assert(kept =~= table);
    } else {
        assert(bases_exist(rows, kept.len(), n));
        let full = Seq::new(
            kept.len(),
            |i: int| (kept[i].0, occurrences(rows, i, n) as usize),
        );
        assert forall|i: int| 0 <= i < table.len() implies full[i] == #[trigger] table[i] by {
            assert(fitted(table[i].0, width) == table[i].0);
        }
        assert(full =~= table);
    }
}

/// Where saving rows succeeds that were grouped and encoded, with a base table row by row, what is
/// read is what was saved: description, positions, weights, and the bases in their order with the
/// numbers of their rows. Plain rows and runs with group starts are the same too; of the other
/// encodings the rows are.
pub proof fn built_file_keeps_all(
    data: CompressedData,
    context: PreEncodeContext,
    groups: BaseBitGroups,
)
    requires
        groups.groups(context.bit_data.data),
        built(context, context.bit_data, groups, None),
        is_saved(data, context, data@.base_table),
        data@ == compressed_content(context, data@.encoded),
        data@.weights matches Some(weights) ==> weights.len() > 0,
        data@.metadata.row_stride == features_width(data@.metadata.features),
        data@.metadata.original_size_bits % features_width(data@.metadata.features) == 0,
        data@.metadata.reconstruction == (ReconstructionView::Tabular {
            names: Seq::empty(),
            types: Seq::empty(),
        }),
    ensures
        read_file(file_bytes(data@)) == Some(
            (CompressedView {
                encoded: stored_rows(data@.encoded, shape_of(data@)),
                ..data@
            }),
        ),
        data@.encoded is Normal || data@.encoded is RleOffset ==> read_file(file_bytes(data@))
            == Some(data@),
{
    let view = data@;
    let shape = shape_of(view);
    let rows = stored_rows(view.encoded, shape);
    let n = context.bit_data.data.num_rows as int;
    saved_rows_are_storable(data, context, view.base_table);
    file_is_read_back(view);
    file_keeps_description(view);
    symbols_are_held(context, view.encoded);
    all_rows_there(context, view.encoded, n as nat);
    assert forall|s: int| 0 <= s < n implies (#[trigger] rows.sample(s)) is Some && base_of(rows, s)
        == context.row_to_base_id@[s] by {
        row_has_base(context, view.encoded, s);
        stored_sample(view.encoded, shape, s);
    }
    built_table_is_counted(context, groups, rows);
    assert(stored(view).weights == view.weights);
    assert(stored(view).metadata == view.metadata);
    if view.encoded is Normal {
        if n > 0 {
            encoded_rows_random_access(context, 0);
        } else {
            row_symbols_uniform(context);
        }
        let plain = view.encoded->Normal_0;
        assert(fitted(plain.bits, shape.total * shape.width()) =~= plain.bits);
    }
}

/// An image that is built into a dataset, compressed and saved comes out of the file byte by byte,
/// unless its colours were rounded.
pub proof fn saved_image_comes_out(
    input: ImageBuildInput,
    options: ImageBuildOptions,
    set: BitDataSet,
    data: CompressedData,
    context: PreEncodeContext,
    table: TableView,
    info: ImageReconstructionInfo,
    found: BitDataSet,
)
    requires
        image_accepted(input, options),
        options.color_model != ImageColorModel::YCoCg,
        is_image_set(set, input, options),
        set.info@.reconstruction == ReconstructionView::Image(info),
        starts_with(context, set),
        is_saved(data, context, table),
        leading_bases_match(context, original_rows(data@) as int),
        file_bytes(data@).len() <= usize::MAX,
        read_image_file(image_file_bytes(info, data@)) matches Some(read) ==> holds_rows(
            found,
            read,
        ),
    ensures
        read_image_file(image_file_bytes(info, data@)) is Some,
        image_restorable(found),
        restored_image(found.data, info) == input.raw@,
{
    saved_context_is_kept(data, context, table);
    image_comes_out_of_its_file(input, options, set, data@, context, table, info, found);
}

/// A table that is built into a dataset, compressed and saved comes out of the file value by value,
/// where the patterns of floats fit their type.
pub proof fn saved_table_comes_out(
    columns: Seq<Column>,
    options: PreprocessOptions,
    pad: bool,
    set: BitDataSet,
    data: CompressedData,
    context: PreEncodeContext,
    table: TableView,
    found: BitDataSet,
    row: int,
    f: int,
)
    requires
        table_accepted(columns, options, pad),
        is_table_set(set, columns, options, pad),
        starts_with(context, set),
        is_saved(data, context, table),
        leading_bases_match(context, original_rows(data@) as int),
        file_bytes(data@).len() <= usize::MAX,
        columns.len() <= u32::MAX,
        forall|i: int|
            0 <= i < columns.len() ==> (#[trigger] columns[i]).data_type != ColumnDataType::Other,
        names_fit(column_name_texts(columns)),
        read_table_file(
            table_file_bytes(column_name_texts(columns), column_type_list(columns), data@),
        ) matches Some(read) ==> holds_rows(found, read),
        0 <= row < columns[0].values@.rows(),
        0 <= f < columns.len(),
        columns[f].values@ matches ValuesView::FloatBits(patterns) ==> patterns[row] < pow2(
            (stored_column(columns[f].data_type, columns[f].values@, options)->0).1.width(),
        ),
    ensures
        read_table_file(
            table_file_bytes(column_name_texts(columns), column_type_list(columns), data@),
        ) is Some,
        is_table(found),
        column_values(found, f)[row] == original_value(columns[f].values@, row, options),
{
    saved_context_is_kept(data, context, table);
    table_comes_out_of_its_file(
        columns,
        options,
        pad,
        set,
        data@,
        context,
        table,
        found,
        row,
        f,
    );
}

} // verus!
