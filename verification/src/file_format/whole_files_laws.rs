//! What is compressed into a file comes out of it again.
use vstd::arithmetic::power2::pow2;
use vstd::prelude::*;

use crate::base_table::PreEncodeContext;
use crate::data::{
    features_width, ColumnDataType, ImageColorModel, ImageReconstructionInfo, InfoView,
    ReconstructionView,
};
use crate::dataset::BitDataSet;
use crate::decompression::{
    base_number, bases, decodes, holds_rows, original_rows, restored_row, widths_agree,
};
use crate::decompression_laws::{compressed_file_gives_back_rows, is_content, leading_bases_match};
use crate::encoding::compressed::{CompressedView, TableView};
use crate::file_format::egd::file_bytes;
use crate::file_format::egd_laws::{file_is_read_back, storable, stored};
use crate::file_format::igd::{as_image, image_file_bytes, image_file_is_read_back, read_image_file};
use crate::file_format::tgd::{
    as_table, names_fit, read_table_file, table_file_bytes, table_file_is_read_back,
};
use crate::image_preprocessor::builder::{
    geometry_of, image_accepted, is_image_set, ImageBuildInput, ImageBuildOptions,
};
use crate::image_preprocessor::restore::{
    byte_place, channels_decode, decoded_channel, image_is_restored, image_restorable,
    restored_bytes, restored_image,
};
use crate::tabular_processor::columns::{stored_column, Column, PreprocessOptions, ValuesView};
use crate::tabular_processor::restore::{column_values, is_table, original_value, table_is_restored};
use crate::tabular_processor::table::{
    column_name_texts, column_type_list, is_table_set, stored_facts, table_accepted,
};

verus! {

/// Whether compressed data can be kept in a file: it holds the encoded rows of a context, whose
/// original rows have their bases, and every count fits its field.
pub open spec fn keeps_in_file(
    data: CompressedView,
    context: PreEncodeContext,
    table: TableView,
) -> bool {
    &&& is_content(data, context, table)
    &&& leading_bases_match(context, original_rows(data) as int)
    &&& original_rows(data) <= context.bit_data.data.num_rows
    &&& storable(data)
    &&& file_bytes(data).len() <= usize::MAX
}

/// Whether compressed data is that of an image that can be put into an image file.
pub open spec fn is_image_content(data: CompressedView, info: ImageReconstructionInfo) -> bool {
    &&& data.metadata.reconstruction == ReconstructionView::Image(info)
    &&& info.channels == 3 || info.channels == 4
    &&& data.metadata.features.len() == info.channels
    &&& info.pixel_grouping.0 > 0
    &&& info.pixel_grouping.1 > 0
}

/// Whether compressed data is that of a table that can be put into a table file.
pub open spec fn is_table_content(
    data: CompressedView,
    names: Seq<Seq<char>>,
    types: Seq<ColumnDataType>,
) -> bool {
    &&& data.metadata.reconstruction == (ReconstructionView::Tabular { names, types })
    &&& names.len() == data.metadata.features.len()
    &&& types.len() == names.len()
    &&& names.len() <= u32::MAX
    &&& forall|i: int| 0 <= i < types.len() ==> (#[trigger] types[i]) != ColumnDataType::Other
    &&& names_fit(names)
}

/// Whether compressed data decompresses to the first rows of a context.
pub open spec fn gives_back(read: CompressedView, context: PreEncodeContext) -> bool {
    &&& decodes(read)
    &&& read.metadata.features == context.bit_data.info@.features
    &&& original_rows(read) == context.bit_data.info@.original_size_bits / features_width(
        context.bit_data.info@.features,
    )
    &&& forall|s: int|
        0 <= s < original_rows(read) ==> #[trigger] restored_row(read, s)
            == context.bit_data.data.row(s)
}

/// Whether compressed data decompresses to the rows of a dataset.
pub open spec fn gives_back_set(read: CompressedView, set: BitDataSet) -> bool {
    &&& decodes(read)
    &&& original_rows(read) == set.data.num_rows
    &&& forall|s: int|
        0 <= s < original_rows(read) ==> #[trigger] restored_row(read, s) == set.data.row(s)
}

/// Whether the original rows of a context are those of a dataset; condensed rows may follow.
pub open spec fn starts_with(context: PreEncodeContext, set: BitDataSet) -> bool {
    let info = context.bit_data.info@;
    &&& info.features == set.info@.features
    &&& info.original_size_bits == set.info@.original_size_bits
    &&& info.reconstruction == set.info@.reconstruction
    &&& set.data.num_rows <= context.bit_data.data.num_rows
    &&& forall|s: int|
        0 <= s < set.data.num_rows ==> #[trigger] context.bit_data.data.row(s) == set.data.row(s)
}

/// What data is reconstructed to does not matter for its rows.
proof fn rows_without_purpose(data: CompressedView, other: CompressedView)
    requires
        decodes(data),
        other == (CompressedView {
            metadata: InfoView {
                reconstruction: other.metadata.reconstruction,
                ..data.metadata
            },
            ..data
        }),
    ensures
        decodes(other),
        original_rows(other) == original_rows(data),
        forall|s: int|
            0 <= s < original_rows(data) ==> #[trigger] restored_row(other, s) == restored_row(
                data,
                s,
            ),
{
    assert(other.encoded == data.encoded);
    assert(other.base_table == data.base_table);
    assert(other.layout == data.layout);
    assert(bases(other) == bases(data));
    assert(widths_agree(other));
    assert forall|s: int| 0 <= s < original_rows(other) implies (
    #[trigger] other.encoded.row_in_sequence(s)) is Some && base_number(
        other,
        s,
    ) < bases(other).len() by {
        assert(data.encoded.row_in_sequence(s) is Some);
    }
}

/// An image file is decompressed to the rows of the context that it was made from, and it is the
/// same kind of image.
pub proof fn image_file_gives_back_rows(
    data: CompressedView,
    context: PreEncodeContext,
    table: TableView,
    info: ImageReconstructionInfo,
)
    requires
        keeps_in_file(data, context, table),
        is_image_content(data, info),
    ensures
        read_image_file(
            image_file_bytes(info, data),
        ) matches Some(read) && gives_back(read, context) && read.metadata.reconstruction == ReconstructionView::Image(
            info,
        ),
{
    compressed_file_gives_back_rows(data, context, table);
    image_file_is_read_back(data, info);
    file_is_read_back(data);
    rows_without_purpose(stored(data), as_image(stored(data), info));
}

/// A table file is decompressed to the rows of the context that it was made from, and its columns
/// have the same names and types.
pub proof fn table_file_gives_back_rows(
    data: CompressedView,
    context: PreEncodeContext,
    table: TableView,
    names: Seq<Seq<char>>,
    types: Seq<ColumnDataType>,
)
    requires
        keeps_in_file(data, context, table),
        is_table_content(data, names, types),
    ensures
        read_table_file(
            table_file_bytes(names, types, data),
        ) matches Some(read) && gives_back(read, context) && read.metadata.reconstruction == (
        ReconstructionView::Tabular { names, types }),
{
    compressed_file_gives_back_rows(data, context, table);
    table_file_is_read_back(data, names, types);
    file_is_read_back(data);
    rows_without_purpose(stored(data), as_table(stored(data), names, types));
}

/// An image that can be restored from the rows that were compressed is restored alike from the
/// rows that come out of its file.
pub proof fn image_is_the_same_after(
    before: BitDataSet,
    info: ImageReconstructionInfo,
    read: CompressedView,
    set: BitDataSet,
)
    requires
        image_restorable(before),
        before.info@.reconstruction == ReconstructionView::Image(info),
        gives_back_set(read, before),
        read.metadata.features == before.info@.features,
        read.metadata.reconstruction == ReconstructionView::Image(info),
        holds_rows(set, read),
        before.valid(),
    ensures
        image_restorable(set),
        restored_image(set.data, info) == restored_image(before.data, info),
{
    let geometry = geometry_of(
        info.width,
        info.height,
        info.channels,
        info.pixel_grouping,
    );
    let transform = info.grouping_transform;
    assert forall|g: int, channel: int|
        0 <= g < geometry.rows() && 0 <= channel < geometry.channels implies #[trigger] decoded_channel(
        set.data,
        geometry,
        transform,
        g,
        channel,
    ) == decoded_channel(before.data, geometry, transform, g, channel) by {
        assert(set.data.row(g) == restored_row(read, g));
        assert(restored_row(read, g) == before.data.row(g));
    }
    assert(channels_decode(set.data, geometry, transform)) by {
        assert forall|g: int, channel: int|
            0 <= g < geometry.rows() && 0 <= channel
                < geometry.channels implies #[trigger] decoded_channel(
            set.data,
            geometry,
            transform,
            g,
            channel,
        ) is Some by {
            assert(decoded_channel(before.data, geometry, transform, g, channel) is Some);
        }
    }
    let old_bytes = restored_bytes(before.data, geometry, transform);
    let new_bytes = restored_bytes(set.data, geometry, transform);
    assert forall|i: int| 0 <= i < old_bytes.len() implies old_bytes[i] == new_bytes[i] by {
        byte_place(geometry, i);
    }
    assert(old_bytes =~= new_bytes);
}

/// The values of a table that can be restored from the rows that were compressed are restored
/// alike from the rows that come out of its file.
pub proof fn table_is_the_same_after(
    before: BitDataSet,
    names: Seq<Seq<char>>,
    types: Seq<ColumnDataType>,
    read: CompressedView,
    set: BitDataSet,
    f: int,
)
    requires
        is_table(before),
        before.info@.reconstruction == (ReconstructionView::Tabular { names, types }),
        gives_back_set(read, before),
        read.metadata.features == before.info@.features,
        read.metadata.reconstruction == (ReconstructionView::Tabular { names, types }),
        holds_rows(set, read),
        before.valid(),
        0 <= f < before.info@.features.len(),
    ensures
        is_table(set),
        column_values(set, f) == column_values(before, f),
{
    assert forall|row: int| 0 <= row < before.data.num_rows implies column_values(set, f)[row]
        == column_values(before, f)[row] by {
        assert(set.data.row(row) == restored_row(read, row));
        assert(restored_row(read, row) == before.data.row(row));
    }
    assert(column_values(set, f) =~= column_values(before, f));
}

/// Data that gives back the rows of a context gives back those of the dataset that it starts with.
proof fn set_is_given_back(
    context: PreEncodeContext,
    set: BitDataSet,
    read: CompressedView,
    width: nat,
)
    requires
        starts_with(context, set),
        gives_back(read, context),
        set.info@.original_size_bits == set.data.num_rows * width,
        width == features_width(set.info@.features),
        width > 0,
    ensures
        gives_back_set(read, set),
{
    let rows = set.data.num_rows as int;
    let w = width as int;
    assert((rows * w) / w == rows) by (nonlinear_arith)
        requires
            w > 0,
    ;
    assert forall|s: int| 0 <= s < original_rows(read) implies #[trigger] restored_row(read, s)
        == set.data.row(s) by {
        assert(context.bit_data.data.row(s) == set.data.row(s));
    }
}

/// An image that is built into a dataset, compressed and kept in a file comes out of the file byte by
/// byte, unless its colours were rounded.
pub proof fn image_comes_out_of_its_file(
    input: ImageBuildInput,
    options: ImageBuildOptions,
    set: BitDataSet,
    data: CompressedView,
    context: PreEncodeContext,
    table: TableView,
    info: ImageReconstructionInfo,
    found: BitDataSet,
)
    requires
        image_accepted(input, options),
        options.color_model != ImageColorModel::YCoCg,
        is_image_set(set, input, options),
        set.info@.reconstruction == ReconstructionView::Image(info),
        starts_with(context, set),
        keeps_in_file(data, context, table),
        read_image_file(
            image_file_bytes(info, data),
        ) matches Some(read) ==> holds_rows(found, read),
    ensures
        read_image_file(image_file_bytes(info, data)) is Some,
        image_restorable(found),
        restored_image(found.data, info) == input.raw@,
{
    image_is_restored(input, options, set);
    image_file_gives_back_rows(data, context, table, info);
    let read = read_image_file(image_file_bytes(info, data))->0;
    set_is_given_back(context, set, read, set.data.chunk_size as nat);
    image_is_the_same_after(set, info, read, found);
}

/// A table that is built into a dataset, compressed and kept in a file comes out of the file value by
/// value, where the patterns of floats fit their type.
pub proof fn table_comes_out_of_its_file(
    columns: Seq<Column>,
    options: PreprocessOptions,
    pad: bool,
    set: BitDataSet,
    data: CompressedView,
    context: PreEncodeContext,
    table: TableView,
    found: BitDataSet,
    row: int,
    f: int,
)
    requires
        table_accepted(columns, options, pad),
        is_table_set(set, columns, options, pad),
        starts_with(context, set),
        keeps_in_file(data, context, table),
        columns.len() <= u32::MAX,
        forall|i: int|
            0 <= i < columns.len() ==> (#[trigger] columns[i]).data_type != ColumnDataType::Other,
        names_fit(column_name_texts(columns)),
        read_table_file(
            table_file_bytes(
                column_name_texts(columns),
                column_type_list(columns),
                data,
            ),
        ) matches Some(read) ==> holds_rows(found, read),
        0 <= row < columns[0].values@.rows(),
        0 <= f < columns.len(),
        columns[f].values@ matches ValuesView::FloatBits(patterns) ==> patterns[row] < pow2(
            (stored_column(columns[f].data_type, columns[f].values@, options)->0).1.width(),
        ),
    ensures
        read_table_file(
            table_file_bytes(column_name_texts(columns), column_type_list(columns), data),
        ) is Some,
        is_table(found),
        column_values(found, f)[row] == original_value(columns[f].values@, row, options),
{
    let names = column_name_texts(columns);
    let types = column_type_list(columns);
    table_is_restored(columns, options, pad, set, row, f);
    stored_facts(columns, options);
    assert(set.info@.features.len() == columns.len());
    table_file_gives_back_rows(data, context, table, names, types);
    let read = read_table_file(
        table_file_bytes(names, types, data),
    )->0;
    set_is_given_back(context, set, read, set.data.chunk_size as nat);
    table_is_the_same_after(set, names, types, read, found, f);
}

} // verus!
