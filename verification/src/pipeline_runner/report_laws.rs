//! What the texts of a report tell.
use vstd::prelude::*;

use crate::data::{ImageColorModel, ImageGroupingTransform};
use crate::encoding::compressed::CompressedView;
use crate::image_preprocessor::builder::ImageColorSpace;
use crate::pipeline_profiles::choices::{
    ConfigEncodeImpl, ConfigImageColorModel, ConfigImageGroupingTransform, ConfigSelectBasesImpl,
    EncodeImpl, FloatStorage, MissingValuePolicy, SelectBasesImpl,
};
use crate::pipeline_runner::inputs::InputKind;
use crate::pipeline_runner::report::{
    colorspace_label, comma_separated, encode_label, flag_cell, header_cells, kind_label,
    missing_label, model_label, number_cell, optional_flag_cell, report_cells, report_lines,
    scaling_label, select_label, storage_label, transform_label, ExperimentRecord,
};
use crate::tabular_processor::columns::FloatScalingMode;
use crate::text::{decimal_spells_number, decimal_value};

verus! {

/// The labels of stages tell the choices apart.
pub proof fn stage_labels_differ(
    kind: InputKind,
    other_kind: InputKind,
    select: SelectBasesImpl,
    other_select: SelectBasesImpl,
    encode: EncodeImpl,
    other_encode: EncodeImpl,
)
    ensures
        kind_label(kind) == kind_label(other_kind) ==> kind == other_kind,
        select_label(select) == select_label(other_select) ==> select == other_select,
        encode_label(encode) == encode_label(other_encode) ==> encode == other_encode,
{
    reveal_strlit("Csv");
    reveal_strlit("Image");
    reveal_strlit("Unsupported");
    reveal_strlit("Naive");
    reveal_strlit("OptimizedV1");
    reveal_strlit("OptimizedV2");
    reveal_strlit("OptimizedV3");
    reveal_strlit("Optimized");
    reveal_strlit("Rle");
    reveal_strlit("Huffman");
    assert("OptimizedV1"@[10] != "OptimizedV2"@[10]);
    assert("OptimizedV2"@[10] != "OptimizedV3"@[10]);
    assert("OptimizedV1"@[10] != "OptimizedV3"@[10]);
    assert("Csv"@.len() == 3);
    assert("Image"@.len() == 5);
    assert("Unsupported"@.len() == 11);
    assert("Naive"@.len() == 5);
    assert("OptimizedV1"@.len() == 11);
    assert("OptimizedV2"@.len() == 11);
    assert("OptimizedV3"@.len() == 11);
    assert("Optimized"@.len() == 9);
    assert("Rle"@.len() == 3);
    assert("Huffman"@.len() == 7);
}

/// The labels of settings of tables tell the choices apart.
pub proof fn table_labels_differ(
    storage: FloatStorage,
    other_storage: FloatStorage,
    missing: MissingValuePolicy,
    other_missing: MissingValuePolicy,
    scaling: FloatScalingMode,
    other_scaling: FloatScalingMode,
)
    ensures
        storage_label(storage) == storage_label(other_storage) ==> storage == other_storage,
        missing_label(missing) == missing_label(other_missing) ==> missing == other_missing,
        scaling_label(scaling) == scaling_label(other_scaling) ==> scaling == other_scaling,
{
    reveal_strlit("F32");
    reveal_strlit("F64");
    reveal_strlit("Error");
    reveal_strlit("Zero");
    reveal_strlit("Disabled");
    reveal_strlit("ScaledSignedInt");
    reveal_strlit("ScaledOffsetSignedInt");
    assert("F32"@[1] != "F64"@[1]);
    assert("F32"@.len() == 3);
    assert("F64"@.len() == 3);
    assert("Error"@.len() == 5);
    assert("Zero"@.len() == 4);
    assert("Disabled"@.len() == 8);
    assert("ScaledSignedInt"@.len() == 15);
    assert("ScaledOffsetSignedInt"@.len() == 21);
}

/// The labels of settings of images tell the choices apart.
pub proof fn image_labels_differ(
    colorspace: ImageColorSpace,
    other_colorspace: ImageColorSpace,
    model: ImageColorModel,
    other_model: ImageColorModel,
    transform: ImageGroupingTransform,
    other_transform: ImageGroupingTransform,
)
    ensures
        colorspace_label(colorspace) == colorspace_label(other_colorspace) ==> colorspace
            == other_colorspace,
        model_label(model) == model_label(other_model) ==> model == other_model,
        transform_label(transform) == transform_label(other_transform) ==> transform
            == other_transform,
{
    reveal_strlit("SrgbWithLinearAlpha");
    reveal_strlit("Linear");
    reveal_strlit("Rgb");
    reveal_strlit("YCoCg");
    reveal_strlit("YCoCgR");
    reveal_strlit("Raw");
    reveal_strlit("ForFirstPixel");
    reveal_strlit("ForMin");
    assert("SrgbWithLinearAlpha"@.len() == 19);
    assert("Linear"@.len() == 6);
    assert("Rgb"@.len() == 3);
    assert("YCoCg"@.len() == 5);
    assert("YCoCgR"@.len() == 6);
    assert("Raw"@.len() == 3);
    assert("ForFirstPixel"@.len() == 13);
    assert("ForMin"@.len() == 6);
}

/// A choice has the same name in a configuration and in a report.
pub proof fn choices_keep_their_names(
    select: ConfigSelectBasesImpl,
    encode: ConfigEncodeImpl,
    model: ConfigImageColorModel,
    transform: ConfigImageGroupingTransform,
)
    ensures
        select_label(<SelectBasesImpl as vstd::std_specs::convert::FromSpec<_>>::from_spec(select))
            == select.label(),
        encode_label(<EncodeImpl as vstd::std_specs::convert::FromSpec<_>>::from_spec(encode))
            == encode.label(),
        model_label(<ImageColorModel as vstd::std_specs::convert::FromSpec<_>>::from_spec(model))
            == model.label(),
        transform_label(
            <ImageGroupingTransform as vstd::std_specs::convert::FromSpec<_>>::from_spec(transform),
        ) == transform.label(),
{
}

/// A number is read back from its cell, a truth value is told from its opposite, and a missing one leaves
/// an empty cell as no other does.
pub proof fn cells_keep_values(number: nat, flag: bool)
    ensures
        decimal_value(number_cell(Some(number))) == number,
        number_cell(Some(number)).len() > 0,
        number_cell(None).len() == 0,
        flag_cell(flag) != flag_cell(!flag),
        optional_flag_cell(Some(flag)) == flag_cell(flag),
        optional_flag_cell(Some(flag)).len() > 0,
        optional_flag_cell(None).len() == 0,
{
    decimal_spells_number(number);
    reveal_strlit("");
    reveal_strlit("true");
    reveal_strlit("false");
    assert(""@.len() == 0);
    assert("true"@.len() == 4);
    assert("false"@.len() == 5);
}

/// The last cell of a line is the total in bits, and is what four other cells add up to: the encoded
/// rows, the base table, the positions and the weights, each under its name.
pub proof fn size_cells_add_up(record: ExperimentRecord, data: CompressedView)
    requires
        record.size_breakdown_bits.measures(data),
    ensures
        ({
            let cells = report_cells(record);
            let names = header_cells();
            let n = cells.len() as int;
            &&& names[n - 1] == "estimated_total_bits"@
            &&& names[n - 2] == "condensed_weights_bits"@
            &&& names[n - 3] == "base_bit_positions_bits"@
            &&& names[n - 4] == "base_table_pattern_bits"@
            &&& names[n - 14] == "encoded_stream_total_bits"@
            &&& decimal_value(cells[n - 1]) == decimal_value(cells[n - 2]) + decimal_value(
                cells[n - 3],
            ) + decimal_value(cells[n - 4]) + decimal_value(cells[n - 14])
        }),
{
    let sizes = record.size_breakdown_bits;
    decimal_spells_number(sizes.estimated_total as nat);
    decimal_spells_number(sizes.condensed_weights as nat);
    decimal_spells_number(sizes.base_bit_positions as nat);
    decimal_spells_number(sizes.base_table_patterns as nat);
    decimal_spells_number(sizes.encoded_stream_total as nat);
}

/// How often a text has a character.
pub open spec fn count_of(text: Seq<char>, c: char) -> nat
    decreases text.len(),
{
    if text.len() == 0 {
        0
    } else {
        count_of(text.drop_last(), c) + (if text.last() == c {
            1nat
        } else {
            0
        })
    }
}

proof fn count_of_both(first: Seq<char>, second: Seq<char>, c: char)
    ensures
        count_of(first + second, c) == count_of(first, c) + count_of(second, c),
    decreases second.len(),
{
    if second.len() == 0 {
        assert(first + second =~= first);
    } else {
        count_of_both(first, second.drop_last(), c);
        assert((first + second).drop_last() =~= first + second.drop_last());
    }
}

proof fn count_of_missing(text: Seq<char>, c: char)
    requires
        !text.contains(c),
    ensures
        count_of(text, c) == 0,
    decreases text.len(),
{
    if text.len() > 0 {
        assert(text[text.len() - 1] != c);
        assert(!text.drop_last().contains(c)) by {
            if text.drop_last().contains(c) {
                let i = choose|i: int| 0 <= i < text.len() - 1 && text.drop_last()[i] == c;
                assert(text[i] == c);
            }
        }
        count_of_missing(text.drop_last(), c);
    }
}

/// Cells without commas are told apart by the commas: there is one fewer of them than cells.
pub proof fn commas_stand_between_cells(cells: Seq<Seq<char>>)
    requires
        cells.len() > 0,
        forall|k: int| 0 <= k < cells.len() ==> !(#[trigger] cells[k]).contains(','),
    ensures
        count_of(comma_separated(cells), ',') == cells.len() - 1,
    decreases cells.len(),
{
    reveal_strlit(",");
    let last = cells.last();
    assert(last == cells[cells.len() - 1]);
    count_of_missing(last, ',');
    if cells.len() > 1 {
        let before = cells.drop_last();
        commas_stand_between_cells(before);
        count_of_both(comma_separated(before), ","@, ',');
        count_of_both(comma_separated(before) + ","@, last, ',');
        assert(","@.drop_last() =~= Seq::empty());
        assert(count_of(","@.drop_last(), ',') == 0);
        assert(count_of(","@, ',') == 1);
    }
}

/// A report has a line for each run, where no cell holds a line feed.
pub proof fn every_run_has_a_line(records: Seq<ExperimentRecord>)
    requires
        forall|i: int|
            0 <= i < records.len() ==> !comma_separated(
                report_cells(#[trigger] records[i]),
            ).contains('\n'),
    ensures
        count_of(report_lines(records), '\n') == records.len(),
        records.len() > 0 ==> report_lines(records).last() == '\n',
    decreases records.len(),
{
    if records.len() > 0 {
        reveal_strlit("\n");
        let before = records.drop_last();
        let line = comma_separated(report_cells(records.last()));
        assert(records.last() == records[records.len() - 1]);
        every_run_has_a_line(before);
        count_of_missing(line, '\n');
        count_of_both(report_lines(before), line, '\n');
        count_of_both(report_lines(before) + line, "\n"@, '\n');
        assert("\n"@.drop_last() =~= Seq::empty());
        assert(count_of("\n"@.drop_last(), '\n') == 0);
        assert(count_of("\n"@, '\n') == 1);
    }
}

} // verus!
