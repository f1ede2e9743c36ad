//! What the pipeline compresses comes out of a file again, with the condensed rows.
use vstd::arithmetic::power2::pow2;
use vstd::prelude::*;

use crate::analytics::weights_of;
use crate::base_bits::{pattern, BaseBitGroups};
use crate::base_table::{positions, PositionKind, PreEncodeContext};
use crate::base_table_builder::{built, has_constants, row_fits_own_base, row_matches_own_base};
use crate::data::{ColumnDataType, ImageColorModel, ImageReconstructionInfo, ReconstructionView};
use crate::dataset::BitDataSet;
use crate::decompression::{decodes, holds_rows, original_rows, restored_row, widths_agree};
use crate::decompression_laws::{
    file_decompresses_alike, leading_bases_match, row_matches, symbols_are_held, with_constants,
};
use crate::decompression_rows::row_at;
use crate::encoding::compressed::{CompressedData, CondensedSamples, EncodedView};
use crate::encoding::deviation::encoded_rows;
use crate::entropy::scores;
use crate::file_format::egd::{file_bytes, read_file, shape_of, weight_list, weight_size, writes};
use crate::file_format::egd_table::index_fits;
use crate::file_format::igd::{image_file_bytes, read_image_file};
use crate::file_format::row_access_laws::{
    condensed_rows_are_read_from_file, own_base_fits, own_base_matches, row_is_read_from_file,
    row_of_file_has_constants,
};
use crate::file_format::storable_laws::{is_saved, saved_context_is_kept, saved_rows_are_storable};
use crate::file_format::tgd::{names_fit, read_table_file, table_file_bytes};
use crate::file_format::whole_files_laws::{
    image_comes_out_of_its_file, keeps_in_file, starts_with, table_comes_out_of_its_file,
};
use crate::image_preprocessor::builder::{
    image_accepted, is_image_set, ImageBuildInput, ImageBuildOptions,
};
use crate::image_preprocessor::restore::{image_restorable, restored_image};
use crate::pipeline::compress::{
    flat_bits_hold, gives_back, has_flat_bits, is_compressed, rows_hold_flat_bits, tells_bits_apart,
};
use crate::pipeline::condensed_rows::{first_member, first_member_is_one, group_has_member};
use crate::pipeline::implementation::{is_compressed_with, used_samples};
use crate::pipeline::interface::CompressionParams;
use crate::pipeline::selection::flat_bits;
use crate::tabular_processor::columns::{stored_column, Column, PreprocessOptions, ValuesView};
use crate::tabular_processor::restore::{column_values, is_table, original_value};
use crate::tabular_processor::table::{
    column_name_texts, column_type_list, is_table_set, table_accepted,
};

verus! {

/// Whether what the pipeline made is saved: each condensed row has a weight, each feature has bits,
/// and all counts fit their fields.
pub open spec fn pipeline_saves(
    data: CompressedData,
    plain: CompressedData,
    all: BitDataSet,
    params: CompressionParams,
    bit_data: BitDataSet,
    condensed: CondensedSamples,
    score_of_count: Seq<u64>,
) -> bool {
    &&& data.valid()
    &&& is_compressed_with(data, plain, all, params, bit_data, condensed, score_of_count)
    &&& writes(data@)
    &&& shape_of(data@).total == all.data.num_rows
    &&& forall|i: int|
        0 <= i < data@.metadata.features.len() ==> (
        #[trigger] data@.metadata.features[i]).data_type.width() > 0
}

/// What the pipeline makes of a dataset is saved, where the dataset has as many rows as its
/// description says, each condensed row stands for at most all of them, and each feature has bits.
pub proof fn pipeline_output_is_saved(
    data: CompressedData,
    plain: CompressedData,
    all: BitDataSet,
    params: CompressionParams,
    bit_data: BitDataSet,
    condensed: CondensedSamples,
    score_of_count: Seq<u64>,
)
    requires
        data.valid(),
        is_compressed_with(data, plain, all, params, bit_data, condensed, score_of_count),
        original_rows(data@) == bit_data.data.num_rows,
        condensed.weights@.len() == condensed.samples@.len(),
        forall|k: int|
            0 <= k < condensed.weights@.len() ==> (#[trigger] condensed.weights@[k])
                <= bit_data.data.num_rows,
        forall|i: int|
            0 <= i < data@.metadata.features.len() ==> (
            #[trigger] data@.metadata.features[i]).data_type.width() > 0,
    ensures
        pipeline_saves(data, plain, all, params, bit_data, condensed, score_of_count),
{
    let entries = scores(bit_data.data, score_of_count);
    let patience = params.base_optimization_patience as nat;
    let (context, groups) = choose|context: PreEncodeContext, groups: BaseBitGroups| #[trigger]
        is_compressed(plain, context, groups, all, entries, patience);
    let weights = weight_list(data@);
    let n = shape_of(data@).original;
    assert forall|k: int| 0 <= k < weights.len() implies #[trigger] weights[k] < pow2(
        8 * weight_size(n),
    ) by {
        assert(weights[k] == condensed.weights@[k]);
        index_fits(n + 1, weights[k] as nat);
    }
    assert(data@.encoded == EncodedView::Normal(encoded_rows(context)));
}

/// Whether a context is one that data was made from.
spec fn is_source(
    context: PreEncodeContext,
    groups: BaseBitGroups,
    data: CompressedData,
    all: BitDataSet,
    bit_data: BitDataSet,
    score_of_count: Seq<u64>,
) -> bool {
    &&& is_saved(data, context, data@.base_table)
    &&& groups.groups(all.data)
    &&& groups.constant_bits@ == flat_bits(
        scores(bit_data.data, score_of_count),
    )
    &&& built(context, all, groups, None)
}

/// There is a context that the pipeline made its data from.
proof fn source_exists(
    data: CompressedData,
    plain: CompressedData,
    all: BitDataSet,
    params: CompressionParams,
    bit_data: BitDataSet,
    condensed: CondensedSamples,
    score_of_count: Seq<u64>,
) -> (source: (PreEncodeContext, BaseBitGroups))
    requires
        pipeline_saves(data, plain, all, params, bit_data, condensed, score_of_count),
    ensures
        is_source(source.0, source.1, data, all, bit_data, score_of_count),
{
    let entries = scores(bit_data.data, score_of_count);
    let patience = params.base_optimization_patience as nat;
    let (context, groups) = choose|context: PreEncodeContext, groups: BaseBitGroups| #[trigger]
        is_compressed(plain, context, groups, all, entries, patience);
    assert(data@.encoded == EncodedView::Normal(encoded_rows(context)));
    assert(context.variable_base_table.len() == context.variable_base_table@.len());
    (context, groups)
}

/// Every base that was built has the width of the layout, and each row that has the constants
/// matches its own.
proof fn built_bases_match(context: PreEncodeContext, groups: BaseBitGroups, n: int)
    requires
        groups.groups(context.bit_data.data),
        built(context, context.bit_data, groups, None),
        0 <= n <= context.bit_data.data.num_rows,
        forall|row: int|
            0 <= row < n ==> #[trigger] has_constants(context.bit_data.data, groups, row),
    ensures
        leading_bases_match(context, n),
{
    let data = context.bit_data.data;
    let table = context.variable_base_table@;
    let ids = groups.row_to_id@;
    let places = positions(context.layout@, PositionKind::Variable);
    assert forall|i: int| 0 <= i < table.len() implies (#[trigger] table[i]).0@.len()
        == places.len() by {
        group_has_member(data, groups, i);
        first_member_is_one(ids, i, 0);
        assert(table[ids[first_member(ids, i, 0)] as int].0@.len() == places.len());
    }
    assert forall|s: int| 0 <= s < n implies row_matches(
        context.layout@,
        data.row(s),
        table[(#[trigger] context.row_to_base_id@[s]) as int].0@,
    ) by {
        assert(has_constants(data, groups, s));
        row_matches_own_base(data, groups, s);
        assert(table[groups.row_to_id@[s] as int].0@ == pattern(data.row(s), places));
    }
}

/// A row that has the bits without entropy matches its own base.
proof fn flat_row_matches(
    context: PreEncodeContext,
    groups: BaseBitGroups,
    data: CompressedData,
    all: BitDataSet,
    bit_data: BitDataSet,
    score_of_count: Seq<u64>,
    s: int,
)
    requires
        is_source(context, groups, data, all, bit_data, score_of_count),
        0 <= s < all.data.num_rows,
        has_flat_bits(all.data, scores(bit_data.data, score_of_count), s),
    ensures
        own_base_matches(context, s),
{
    assert(has_constants(all.data, groups, s));
    row_matches_own_base(all.data, groups, s);
    assert(context.row_to_base_id@[s] == groups.row_to_id@[s]);
}

/// What the pipeline saves can be kept in a file.
proof fn source_is_kept(
    context: PreEncodeContext,
    groups: BaseBitGroups,
    data: CompressedData,
    plain: CompressedData,
    all: BitDataSet,
    params: CompressionParams,
    bit_data: BitDataSet,
    condensed: CondensedSamples,
    score_of_count: Seq<u64>,
)
    requires
        pipeline_saves(data, plain, all, params, bit_data, condensed, score_of_count),
        is_source(context, groups, data, all, bit_data, score_of_count),
        tells_bits_apart(score_of_count, bit_data.data.num_rows as nat),
        original_rows(data@) <= bit_data.data.num_rows,
        file_bytes(data@).len() <= usize::MAX,
    ensures
        keeps_in_file(data@, context, data@.base_table),
        forall|s: int|
            0 <= s < original_rows(data@) ==> #[trigger] own_base_matches(context, s),
{
    let entries = scores(bit_data.data, score_of_count);
    let n = original_rows(data@) as int;
    rows_hold_flat_bits(bit_data.data, score_of_count);
    assert(flat_bits_hold(bit_data.data, entries, n));
    assert forall|row: int| 0 <= row < n implies #[trigger] has_constants(all.data, groups, row)
        && has_flat_bits(all.data, entries, row) by {
        assert(has_flat_bits(bit_data.data, entries, row));
        assert(all.data.row(0) == bit_data.data.row(0));
        assert(all.data.row(row) == bit_data.data.row(row));
    }
    built_bases_match(context, groups, n);
    saved_context_is_kept(data, context, data@.base_table);
    assert forall|s: int| 0 <= s < n implies #[trigger] own_base_matches(context, s) by {
        assert(has_constants(all.data, groups, s));
        flat_row_matches(context, groups, data, all, bit_data, score_of_count, s);
    }
}

/// What the pipeline compresses, with or without condensed rows, and saves comes out of the file: the
/// rows are those of the dataset, bit by bit.
pub proof fn rows_come_out_of_file(
    data: CompressedData,
    plain: CompressedData,
    all: BitDataSet,
    params: CompressionParams,
    bit_data: BitDataSet,
    condensed: CondensedSamples,
    score_of_count: Seq<u64>,
)
    requires
        pipeline_saves(data, plain, all, params, bit_data, condensed, score_of_count),
        gives_back(data@, bit_data.data),
    ensures
        read_file(file_bytes(data@)) matches Some(read) && {
            &&& decodes(read)
            &&& original_rows(read) == original_rows(data@)
            &&& weights_of(read) == weights_of(data@)
            &&& forall|s: int|
                0 <= s < original_rows(read) ==> #[trigger] restored_row(read, s)
                    == bit_data.data.row(s)
        },
{
    let (context, groups) = source_exists(
        data,
        plain,
        all,
        params,
        bit_data,
        condensed,
        score_of_count,
    );
    saved_rows_are_storable(data, context, data@.base_table);
    symbols_are_held(context, data@.encoded);
    file_decompresses_alike(data@);
    let read = read_file(file_bytes(data@))->0;
    assert(weights_of(read) =~= weights_of(data@));
    assert forall|s: int| 0 <= s < original_rows(read) implies #[trigger] restored_row(read, s)
        == bit_data.data.row(s) by {
        assert(restored_row(data@, s) == bit_data.data.row(s));
    }
}

/// A row that the pipeline compresses and saves can be had from the file by itself.
pub proof fn row_comes_out_of_file(
    data: CompressedData,
    plain: CompressedData,
    all: BitDataSet,
    params: CompressionParams,
    bit_data: BitDataSet,
    condensed: CondensedSamples,
    score_of_count: Seq<u64>,
    s: int,
)
    requires
        pipeline_saves(data, plain, all, params, bit_data, condensed, score_of_count),
        tells_bits_apart(score_of_count, bit_data.data.num_rows as nat),
        original_rows(data@) <= bit_data.data.num_rows,
        file_bytes(data@).len() <= usize::MAX,
        0 <= s < original_rows(data@),
    ensures
        read_file(file_bytes(data@)) matches Some(read) && row_at(read, s) == Some(
            bit_data.data.row(s),
        ),
{
    let (context, groups) = source_exists(
        data,
        plain,
        all,
        params,
        bit_data,
        condensed,
        score_of_count,
    );
    source_is_kept(
        context,
        groups,
        data,
        plain,
        all,
        params,
        bit_data,
        condensed,
        score_of_count,
    );
    assert(own_base_matches(context, s));
    row_is_read_from_file(data@, context, data@.base_table, s);
    assert(all.data.row(s) == bit_data.data.row(s));
}

/// Every row that the pipeline compresses and saves, original or condensed, can be had from the file
/// by itself, with the bits that are the same in all original rows.
pub proof fn every_row_comes_out_of_file(
    data: CompressedData,
    plain: CompressedData,
    all: BitDataSet,
    params: CompressionParams,
    bit_data: BitDataSet,
    condensed: CondensedSamples,
    score_of_count: Seq<u64>,
    s: int,
)
    requires
        pipeline_saves(data, plain, all, params, bit_data, condensed, score_of_count),
        tells_bits_apart(score_of_count, bit_data.data.num_rows as nat),
        original_rows(data@) <= bit_data.data.num_rows,
        file_bytes(data@).len() <= usize::MAX,
        0 <= s < all.data.num_rows,
    ensures
        read_file(file_bytes(data@)) matches Some(read) && row_at(read, s) == Some(
            with_constants(data@.layout, all.data.row(s)),
        ),
{
    let (context, groups) = source_exists(
        data,
        plain,
        all,
        params,
        bit_data,
        condensed,
        score_of_count,
    );
    source_is_kept(
        context,
        groups,
        data,
        plain,
        all,
        params,
        bit_data,
        condensed,
        score_of_count,
    );
    row_fits_own_base(all.data, groups, s);
    assert(context.row_to_base_id@[s] == groups.row_to_id@[s]);
    assert(own_base_fits(context, s));
    row_of_file_has_constants(data@, context, data@.base_table, s);
}

/// The condensed rows that the pipeline compresses and saves come out of the file with their weights,
/// without any other row, where they have the bits that are the same in all rows.
pub proof fn condensed_rows_come_out_of_file(
    data: CompressedData,
    plain: CompressedData,
    all: BitDataSet,
    params: CompressionParams,
    bit_data: BitDataSet,
    condensed: CondensedSamples,
    score_of_count: Seq<u64>,
)
    requires
        pipeline_saves(data, plain, all, params, bit_data, condensed, score_of_count),
        tells_bits_apart(score_of_count, bit_data.data.num_rows as nat),
        original_rows(data@) == bit_data.data.num_rows,
        file_bytes(data@).len() <= usize::MAX,
        forall|s: int|
            bit_data.data.num_rows <= s < all.data.num_rows ==> #[trigger] has_flat_bits(
                all.data,
                scores(bit_data.data, score_of_count),
                s,
            ),
    ensures
        read_file(file_bytes(data@)) matches Some(read) && {
            let samples = used_samples(params, condensed.samples@);
            &&& widths_agree(read)
            &&& original_rows(read) == bit_data.data.num_rows
            &&& weights_of(read) == weights_of(data@)
            &&& weights_of(read).len() == samples.len()
            &&& forall|k: int|
                0 <= k < samples.len() ==> row_at(read, bit_data.data.num_rows + k) == Some(
                    (#[trigger] samples[k])@,
                )
        },
{
    let (context, groups) = source_exists(
        data,
        plain,
        all,
        params,
        bit_data,
        condensed,
        score_of_count,
    );
    source_is_kept(
        context,
        groups,
        data,
        plain,
        all,
        params,
        bit_data,
        condensed,
        score_of_count,
    );
    let first = bit_data.data.num_rows as int;
    let samples = used_samples(params, condensed.samples@);
    assert forall|s: int| first <= s < all.data.num_rows implies #[trigger] own_base_matches(
        context,
        s,
    ) by {
        assert(has_flat_bits(all.data, scores(bit_data.data, score_of_count), s));
        flat_row_matches(context, groups, data, all, bit_data, score_of_count, s);
    }
    condensed_rows_are_read_from_file(data@, context, data@.base_table);
    let read = read_file(file_bytes(data@))->0;
    assert forall|k: int| 0 <= k < samples.len() implies row_at(read, first + k) == Some(
        (#[trigger] samples[k])@,
    ) by {
        assert(row_at(read, original_rows(read) + k) == Some(
            context.bit_data.data.row(original_rows(read) + k),
        ));
        assert(all.data.row(first + k) == samples[k]@);
    }
}

/// An image that the pipeline compresses, with or without condensed rows, and saves comes out of the
/// image file byte by byte, unless its colours were rounded.
pub proof fn image_comes_out_of_file(
    input: ImageBuildInput,
    options: ImageBuildOptions,
    data: CompressedData,
    plain: CompressedData,
    all: BitDataSet,
    params: CompressionParams,
    bit_data: BitDataSet,
    condensed: CondensedSamples,
    score_of_count: Seq<u64>,
    info: ImageReconstructionInfo,
    found: BitDataSet,
)
    requires
        image_accepted(input, options),
        options.color_model != ImageColorModel::YCoCg,
        is_image_set(bit_data, input, options),
        bit_data.info@.reconstruction == ReconstructionView::Image(info),
        pipeline_saves(data, plain, all, params, bit_data, condensed, score_of_count),
        tells_bits_apart(score_of_count, bit_data.data.num_rows as nat),
        original_rows(data@) <= bit_data.data.num_rows,
        file_bytes(data@).len() <= usize::MAX,
        read_image_file(image_file_bytes(info, data@)) matches Some(read) ==> holds_rows(
            found,
            read,
        ),
    ensures
        read_image_file(image_file_bytes(info, data@)) is Some,
        image_restorable(found),
        restored_image(found.data, info) == input.raw@,
{
    let (context, groups) = source_exists(
        data,
        plain,
        all,
        params,
        bit_data,
        condensed,
        score_of_count,
    );
    source_is_kept(
        context,
        groups,
        data,
        plain,
        all,
        params,
        bit_data,
        condensed,
        score_of_count,
    );
    assert(starts_with(context, bit_data));
    image_comes_out_of_its_file(
        input,
        options,
        bit_data,
        data@,
        context,
        data@.base_table,
        info,
        found,
    );
}

/// A table that the pipeline compresses, with or without condensed rows, and saves comes out of the
/// table file value by value, where the patterns of floats fit their type.
pub proof fn table_comes_out_of_file(
    columns: Seq<Column>,
    options: PreprocessOptions,
    pad: bool,
    data: CompressedData,
    plain: CompressedData,
    all: BitDataSet,
    params: CompressionParams,
    bit_data: BitDataSet,
    condensed: CondensedSamples,
    score_of_count: Seq<u64>,
    found: BitDataSet,
    row: int,
    f: int,
)
    requires
        table_accepted(columns, options, pad),
        is_table_set(bit_data, columns, options, pad),
        pipeline_saves(data, plain, all, params, bit_data, condensed, score_of_count),
        tells_bits_apart(score_of_count, bit_data.data.num_rows as nat),
        original_rows(data@) <= bit_data.data.num_rows,
        file_bytes(data@).len() <= usize::MAX,
        columns.len() <= u32::MAX,
        forall|i: int|
            0 <= i < columns.len() ==> (#[trigger] columns[i]).data_type != ColumnDataType::Other,
        names_fit(column_name_texts(columns)),
        read_table_file(
            table_file_bytes(column_name_texts(columns), column_type_list(columns), data@),
        ) matches Some(read) ==> holds_rows(found, read),
        0 <= row < columns[0].values@.rows(),
        0 <= f < columns.len(),
        columns[f].values@ matches ValuesView::FloatBits(patterns) ==> patterns[row] < pow2(
            (stored_column(columns[f].data_type, columns[f].values@, options)->0).1.width(),
        ),
    ensures
        read_table_file(
            table_file_bytes(column_name_texts(columns), column_type_list(columns), data@),
        ) is Some,
        is_table(found),
        column_values(found, f)[row] == original_value(columns[f].values@, row, options),
{
    let (context, groups) = source_exists(
        data,
        plain,
        all,
        params,
        bit_data,
        condensed,
        score_of_count,
    );
    source_is_kept(
        context,
        groups,
        data,
        plain,
        all,
        params,
        bit_data,
        condensed,
        score_of_count,
    );
    assert(starts_with(context, bit_data));
    table_comes_out_of_its_file(
        columns,
        options,
        pad,
        bit_data,
        data@,
        context,
        data@.base_table,
        found,
        row,
        f,
    );
}

/// What the pipeline saves can be kept in any file, and each of its original rows, and each condensed
/// row that has the bits that are the same in all rows, matches its base: so all of them can be had
/// from image and table files too.
pub proof fn pipeline_data_is_kept(
    data: CompressedData,
    plain: CompressedData,
    all: BitDataSet,
    params: CompressionParams,
    bit_data: BitDataSet,
    condensed: CondensedSamples,
    score_of_count: Seq<u64>,
)
    requires
        pipeline_saves(data, plain, all, params, bit_data, condensed, score_of_count),
        tells_bits_apart(score_of_count, bit_data.data.num_rows as nat),
        original_rows(data@) <= bit_data.data.num_rows,
        file_bytes(data@).len() <= usize::MAX,
    ensures
        exists|context: PreEncodeContext|
            {
                &&& #[trigger] keeps_in_file(data@, context, data@.base_table)
                &&& context.bit_data == all
                &&& forall|s: int|
                    0 <= s < original_rows(data@) ==> #[trigger] own_base_matches(context, s)
                &&& forall|s: int|
                    0 <= s < all.data.num_rows && has_flat_bits(
                        all.data,
                        scores(bit_data.data, score_of_count),
                        s,
                    ) ==> #[trigger] own_base_matches(context, s)
            },
{
    let (context, groups) = source_exists(
        data,
        plain,
        all,
        params,
        bit_data,
        condensed,
        score_of_count,
    );
    source_is_kept(
        context,
        groups,
        data,
        plain,
        all,
        params,
        bit_data,
        condensed,
        score_of_count,
    );
    assert forall|s: int|
        0 <= s < all.data.num_rows && has_flat_bits(
            all.data,
            scores(bit_data.data, score_of_count),
            s,
        ) implies #[trigger] own_base_matches(context, s) by {
        flat_row_matches(context, groups, data, all, bit_data, score_of_count, s);
    }
}

} // verus!
