//! Single rows of a file, without the others.
use vstd::prelude::*;

use crate::analytics::weights_of;
use crate::base_table::PreEncodeContext;
use crate::bits::bits_value;
use crate::data::{features_width, ColumnDataType, ImageReconstructionInfo};
use crate::dataset::row_in_bounds;
use crate::decompression::{bases, original_rows, widths_agree};
use crate::decompression_laws::{
    all_rows_there, decompression_undoes_all, matching_row_has_constants, row_matches, stored_bases,
    symbols_are_held, with_constants,
};
use crate::decompression_rows::{random_access_agrees, row_at, row_of_content_has_constants};
use crate::encoding::compressed::{CompressedView, TableView};
use crate::file_format::egd::{file_bytes, read_file, shape_of, table_width};
use crate::file_format::egd_laws::{file_is_read_back, stored, widths_add_up};
use crate::file_format::igd::{as_image, image_file_bytes, image_file_is_read_back, read_image_file};
use crate::file_format::storable_laws::stored_sample;
use crate::file_format::tgd::{as_table, read_table_file, table_file_bytes, table_file_is_read_back};
use crate::file_format::whole_files_laws::{is_image_content, is_table_content, keeps_in_file};

verus! {

/// Whether a row of a context matches its base.
pub open spec fn own_base_matches(context: PreEncodeContext, s: int) -> bool {
    &&& 0 <= s < context.bit_data.data.num_rows
    &&& row_matches(
        context.layout@,
        context.bit_data.data.row(s),
        context.variable_base_table@[context.row_to_base_id@[s] as int].0@,
    )
}

/// Whether a row of a context with the constants at their positions matches its base.
pub open spec fn own_base_fits(context: PreEncodeContext, s: int) -> bool {
    &&& 0 <= s < context.bit_data.data.num_rows
    &&& row_matches(
        context.layout@,
        with_constants(context.layout@, context.bit_data.data.row(s)),
        context.variable_base_table@[context.row_to_base_id@[s] as int].0@,
    )
}

/// Whether compressed data gives the condensed rows of a context, with their weights: they stand
/// behind the original rows.
pub open spec fn gives_condensed_rows(
    read: CompressedView,
    weights: Seq<usize>,
    context: PreEncodeContext,
) -> bool {
    &&& widths_agree(read)
    &&& weights_of(read) == weights
    &&& original_rows(read) + weights.len() == context.bit_data.data.num_rows
    &&& forall|k: int|
        0 <= k < weights.len() ==> #[trigger] row_at(read, original_rows(read) + k) == Some(
            context.bit_data.data.row(original_rows(read) + k),
        )
}

/// What is found of compressed data in its file has the same bases, layout and number of rows.
proof fn stored_parts(data: CompressedView, context: PreEncodeContext, table: TableView)
    requires
        keeps_in_file(data, context, table),
    ensures
        widths_agree(data),
        widths_agree(stored(data)),
        bases(stored(data)).len() == bases(data).len(),
        forall|i: int|
            0 <= i < bases(data).len() ==> (#[trigger] bases(stored(data))[i]).0 == bases(
                data,
            )[i].0,
        original_rows(stored(data)) == original_rows(data),
        shape_of(data).total == context.bit_data.data.num_rows,
        weights_of(stored(data)) == weights_of(data),
{
    let n = original_rows(data) as int;
    let w = features_width(data.metadata.features) as int;
    let kept = stored(data);
    decompression_undoes_all(data, context, table);
    stored_bases(data);
    all_rows_there(context, data.encoded, context.bit_data.data.num_rows as nat);
    widths_add_up(data.metadata.features);
    assert(data.metadata.features[0].data_type.width() > 0);
    assert((n * w) / w == n) by (nonlinear_arith)
        requires
            w > 0,
    ;
    assert forall|i: int| 0 <= i < bases(kept).len() implies (#[trigger] bases(kept)[i]).0.len()
        == table_width(kept.layout) by {
        assert(bases(data)[i].0.len() == table_width(data.layout));
    }
    assert(weights_of(kept) =~= weights_of(data));
}

/// What is found of compressed data in its file gives a row by itself.
proof fn stored_row_has_constants(
    data: CompressedView,
    context: PreEncodeContext,
    table: TableView,
    s: int,
)
    requires
        keeps_in_file(data, context, table),
        own_base_fits(context, s),
    ensures
        row_at(stored(data), s) == Some(
            with_constants(context.layout@, context.bit_data.data.row(s)),
        ),
{
    stored_parts(data, context, table);
    row_of_content_has_constants(data, context, table, s);
    random_access_agrees(context, data.encoded, s);
    symbols_are_held(context, data.encoded);
    stored_sample(data.encoded, shape_of(data), s);
    let id = bits_value((data.encoded.sample(s)->0).id) as int;
    assert(bases(stored(data))[id].0 == bases(data)[id].0);
}

/// What is found of compressed data in its file gives a row that matches its base as it was.
proof fn stored_row_is_given_back(
    data: CompressedView,
    context: PreEncodeContext,
    table: TableView,
    s: int,
)
    requires
        keeps_in_file(data, context, table),
        own_base_matches(context, s),
    ensures
        row_at(stored(data), s) == Some(context.bit_data.data.row(s)),
{
    row_in_bounds(
        s,
        context.bit_data.data.num_rows as int,
        context.bit_data.data.stride as int,
        context.bit_data.data.chunk_size as int,
    );
    matching_row_has_constants(
        context.layout@,
        context.bit_data.data.row(s),
        context.variable_base_table@[context.row_to_base_id@[s] as int].0@,
    );
    stored_row_has_constants(data, context, table, s);
}

/// Every row of a file can be had by itself: it is the row that was compressed, with the constants at
/// their positions.
pub proof fn row_of_file_has_constants(
    data: CompressedView,
    context: PreEncodeContext,
    table: TableView,
    s: int,
)
    requires
        keeps_in_file(data, context, table),
        own_base_fits(context, s),
    ensures
        read_file(file_bytes(data)) matches Some(read) && row_at(read, s) == Some(
            with_constants(context.layout@, context.bit_data.data.row(s)),
        ),
{
    file_is_read_back(data);
    stored_row_has_constants(data, context, table, s);
}

/// A row of a file can be had by itself: it is the row that was compressed. This holds of the
/// original rows and of the condensed ones behind them, whatever the encoding, and whether the base
/// table is kept row by row or as differences.
pub proof fn row_is_read_from_file(
    data: CompressedView,
    context: PreEncodeContext,
    table: TableView,
    s: int,
)
    requires
        keeps_in_file(data, context, table),
        own_base_matches(context, s),
    ensures
        read_file(file_bytes(data)) matches Some(read) && row_at(read, s) == Some(
            context.bit_data.data.row(s),
        ),
{
    file_is_read_back(data);
    stored_row_is_given_back(data, context, table, s);
}

/// A row of an image file can be had by itself: it is the row that was compressed.
pub proof fn row_is_read_from_image_file(
    data: CompressedView,
    context: PreEncodeContext,
    table: TableView,
    info: ImageReconstructionInfo,
    s: int,
)
    requires
        keeps_in_file(data, context, table),
        own_base_matches(context, s),
        is_image_content(data, info),
    ensures
        read_image_file(image_file_bytes(info, data)) matches Some(read) && row_at(read, s) == Some(
            context.bit_data.data.row(s),
        ),
{
    image_file_is_read_back(data, info);
    file_is_read_back(data);
    stored_row_is_given_back(data, context, table, s);
    assert(bases(as_image(stored(data), info)) == bases(stored(data)));
}

/// A row of a table file can be had by itself: it is the row that was compressed.
pub proof fn row_is_read_from_table_file(
    data: CompressedView,
    context: PreEncodeContext,
    table: TableView,
    names: Seq<Seq<char>>,
    types: Seq<ColumnDataType>,
    s: int,
)
    requires
        keeps_in_file(data, context, table),
        own_base_matches(context, s),
        is_table_content(data, names, types),
    ensures
        read_table_file(table_file_bytes(names, types, data)) matches Some(read) && row_at(read, s)
            == Some(context.bit_data.data.row(s)),
{
    table_file_is_read_back(data, names, types);
    file_is_read_back(data);
    stored_row_is_given_back(data, context, table, s);
    assert(bases(as_table(stored(data), names, types)) == bases(stored(data)));
}

/// What is found of compressed data in its file gives the condensed rows.
proof fn stored_condensed_rows(data: CompressedView, context: PreEncodeContext, table: TableView)
    requires
        keeps_in_file(data, context, table),
        forall|s: int|
            original_rows(data) <= s < context.bit_data.data.num_rows
                ==> #[trigger] own_base_matches(context, s),
    ensures
        gives_condensed_rows(stored(data), weights_of(data), context),
{
    stored_parts(data, context, table);
    let first = original_rows(data) as int;
    assert forall|k: int| 0 <= k < weights_of(data).len() implies #[trigger] row_at(
        stored(data),
        original_rows(stored(data)) + k,
    ) == Some(context.bit_data.data.row(first + k)) by {
        assert(own_base_matches(context, first + k));
        stored_row_is_given_back(data, context, table, first + k);
    }
}

/// The condensed rows that were compressed come out of a file, with their weights, without any
/// other row.
pub proof fn condensed_rows_are_read_from_file(
    data: CompressedView,
    context: PreEncodeContext,
    table: TableView,
)
    requires
        keeps_in_file(data, context, table),
        forall|s: int|
            original_rows(data) <= s < context.bit_data.data.num_rows
                ==> #[trigger] own_base_matches(context, s),
    ensures
        read_file(file_bytes(data)) matches Some(read) && gives_condensed_rows(
            read,
            weights_of(data),
            context,
        ),
{
    file_is_read_back(data);
    stored_condensed_rows(data, context, table);
}

/// The condensed rows that were compressed come out of an image file, with their weights.
pub proof fn condensed_rows_are_read_from_image_file(
    data: CompressedView,
    context: PreEncodeContext,
    table: TableView,
    info: ImageReconstructionInfo,
)
    requires
        keeps_in_file(data, context, table),
        forall|s: int|
            original_rows(data) <= s < context.bit_data.data.num_rows
                ==> #[trigger] own_base_matches(context, s),
        is_image_content(data, info),
    ensures
        read_image_file(image_file_bytes(info, data)) matches Some(read) && gives_condensed_rows(
            read,
            weights_of(data),
            context,
        ),
{
    let read = as_image(stored(data), info);
    image_file_is_read_back(data, info);
    file_is_read_back(data);
    stored_condensed_rows(data, context, table);
    same_but_for_purpose(stored(data), read, weights_of(data), context);
}

/// The condensed rows that were compressed come out of a table file, with their weights.
pub proof fn condensed_rows_are_read_from_table_file(
    data: CompressedView,
    context: PreEncodeContext,
    table: TableView,
    names: Seq<Seq<char>>,
    types: Seq<ColumnDataType>,
)
    requires
        keeps_in_file(data, context, table),
        forall|s: int|
            original_rows(data) <= s < context.bit_data.data.num_rows
                ==> #[trigger] own_base_matches(context, s),
        is_table_content(data, names, types),
    ensures
        read_table_file(table_file_bytes(names, types, data)) matches Some(read)
            && gives_condensed_rows(read, weights_of(data), context),
{
    let read = as_table(stored(data), names, types);
    table_file_is_read_back(data, names, types);
    file_is_read_back(data);
    stored_condensed_rows(data, context, table);
    same_but_for_purpose(stored(data), read, weights_of(data), context);
}

/// What data is reconstructed to does not matter for its condensed rows.
proof fn same_but_for_purpose(
    data: CompressedView,
    other: CompressedView,
    weights: Seq<usize>,
    context: PreEncodeContext,
)
    requires
        gives_condensed_rows(data, weights, context),
        other.encoded == data.encoded,
        other.base_table == data.base_table,
        other.layout == data.layout,
        other.weights == data.weights,
        other.metadata.features == data.metadata.features,
        other.metadata.original_size_bits == data.metadata.original_size_bits,
    ensures
        gives_condensed_rows(other, weights, context),
{
    assert(bases(other) == bases(data));
    assert forall|k: int| 0 <= k < weights.len() implies #[trigger] row_at(
        other,
        original_rows(other) + k,
    ) == Some(context.bit_data.data.row(original_rows(other) + k)) by {
        assert(row_at(data, original_rows(data) + k) == Some(
            context.bit_data.data.row(original_rows(data) + k),
        ));
    }
}

} // verus!
