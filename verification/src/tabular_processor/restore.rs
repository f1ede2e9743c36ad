//! The values of a table from its dataset.
use vstd::arithmetic::power2::pow2;
use vstd::prelude::*;

use crate::bits::{bits_value, join, join_concat, low_digits, BitStream};
use crate::data::{
    features_width, features_width_step, texts, BitDataReconstructionInfo, ColumnDataType,
    FeatureSpec, FeatureTransform, ReconstructionView,
};
use crate::dataset::{row_in_bounds, BitDataSet};
use crate::error::{bad_metadata, EntroGdError};
use crate::filter_pipeline::Filter;
use crate::numbers::value_fits;
use crate::tabular_processor::columns::{
    greatest_unsigned, greatest_unsigned_bounds, kept_scale, least_signed, least_unsigned_bounds,
    stored_column, word_difference, Column, FloatScalingMode, PreprocessOptions, ValuesView,
};
use crate::tabular_processor::table::{
    cells, cells_len, narrowest_width, padded_cells, padded_table, specs, stored_facts,
    stored_table, table_accepted, table_info, StoredColumn,
};
use crate::utils::{signed_as_word, word_as_signed, word_of};

verus! {

/// The value of a cell.
#[derive(Debug, Clone, Copy, PartialEq, Eq, Structural)]
pub enum RestoredValue {
    /// The stored number itself, which may be the bit pattern of a float.
    Verbatim(u64),
    Signed(i64),
    Unsigned(u64),
    /// A float times a power of ten.
    Scaled { number: i64, decimal_scale: u8 },
}

/// The signed number that a 64-bit word stands for.
pub open spec fn signed_of(word: int) -> i64 {
    if word < 0x8000_0000_0000_0000 {
        word as i64
    } else {
        (word - 0x1_0000_0000_0000_0000) as i64
    }
}

/// A stored number and a signed one added up, wrapping around.
pub open spec fn shifted(stored: u64, by: i64) -> i64 {
    signed_of((stored + by) % 0x1_0000_0000_0000_0000)
}

/// The value that a stored number stands for.
pub open spec fn value_of(stored: u64, transform: FeatureTransform) -> RestoredValue {
    match transform {
        FeatureTransform::Verbatim => RestoredValue::Verbatim(stored),
        FeatureTransform::ScaledSignedInt { decimal_scale } => RestoredValue::Scaled {
            number: shifted(stored, i64::MIN),
            decimal_scale,
        },
        FeatureTransform::OffsetSignedInt { min_value } => RestoredValue::Signed(
            shifted(stored, min_value),
        ),
        FeatureTransform::OffsetUnsignedInt { min_value } => RestoredValue::Unsigned(
            ((stored + min_value) % 0x1_0000_0000_0000_0000) as u64,
        ),
        FeatureTransform::ScaledOffsetSignedInt {
            decimal_scale,
            min_value,
        } => RestoredValue::Scaled { number: shifted(stored, min_value), decimal_scale },
    }
}

/// A stored number and a signed one added up, wrapping around.
fn shift(stored: u64, by: i64) -> (number: i64)
    ensures
        number == shifted(stored, by),
{
    let word: u64 = stored.wrapping_add(signed_as_word(by));
    let number: i64 = word_as_signed(word);
    assert(word == (stored + by) % 0x1_0000_0000_0000_0000);
    number
}

/// The value that stored bits stand for.
pub fn restore_feature_value(bits: &BitStream, spec: &FeatureSpec) -> (value: RestoredValue)
    requires
        1 <= bits@.len() <= 64,
    ensures
        value == value_of(bits_value(bits@) as u64, spec.transform),
{
    let width: usize = bits.bit_len();
    let stored: u64 = bits.number_at(0, width);
    assert(bits@.subrange(0, width as int) =~= bits@);
    match spec.transform {
        FeatureTransform::Verbatim => RestoredValue::Verbatim(stored),
        FeatureTransform::ScaledSignedInt { decimal_scale } => RestoredValue::Scaled {
            number: shift(stored, i64::MIN),
            decimal_scale,
        },
        FeatureTransform::OffsetSignedInt { min_value } => RestoredValue::Signed(
            shift(stored, min_value),
        ),
        FeatureTransform::OffsetUnsignedInt { min_value } => RestoredValue::Unsigned(
            stored.wrapping_add(min_value),
        ),
        FeatureTransform::ScaledOffsetSignedInt {
            decimal_scale,
            min_value,
        } => RestoredValue::Scaled { number: shift(stored, min_value), decimal_scale },
    }
}

/// A column with the values of its cells.
#[derive(Debug, PartialEq, Eq)]
pub struct RestoredColumn {
    pub name: String,
    pub data_type: ColumnDataType,
    pub values: Vec<RestoredValue>,
}

/// The values of a column of a dataset.
pub open spec fn column_values(set: BitDataSet, f: int) -> Seq<RestoredValue> {
    Seq::new(
        set.data.num_rows as nat,
        |row: int|
            value_of(bits_value(set.feature(row, f)) as u64, set.info@.features[f].transform),
    )
}

/// Whether a dataset is that of a table: each feature has a name, a type and a width that a
/// machine word can hold.
pub open spec fn is_table(set: BitDataSet) -> bool {
    match set.info@.reconstruction {
        ReconstructionView::Tabular { names, types } => {
            &&& names.len() == set.info@.features.len()
            &&& types.len() == set.info@.features.len()
            &&& forall|f: int|
                0 <= f < set.info@.features.len() ==> 1 <= (
                #[trigger] set.info@.features[f]).data_type.width() <= 64
        },
        ReconstructionView::Image(image) => false,
    }
}

/// The cells of one column.
fn restore_column(set: &BitDataSet, f: usize) -> (values: Vec<RestoredValue>)
    requires
        set.valid(),
        f < set.info@.features.len(),
        1 <= set.info@.features[f as int].data_type.width() <= 64,
    ensures
        values@ == column_values(*set, f as int),
{
    let spec: FeatureSpec = set.info.feature_spec(f);
    let mut values: Vec<RestoredValue> = Vec::new();
    let mut row: usize = 0;
    while row < set.data.num_rows
        invariant
            set.valid(),
            f < set.info@.features.len(),
            1 <= set.info@.features[f as int].data_type.width() <= 64,
            spec == set.info@.features[f as int],
            row <= set.data.num_rows,
            values@.len() == row,
            forall|k: int| 0 <= k < row ==> #[trigger] values@[k] == column_values(*set, f as int)[k],
        decreases set.data.num_rows - row,
    {
        let bits = set.get_feature(row, f);
        proof {
            features_width_step(set.info@.features, f as int);
            row_in_bounds(
                row as int,
                set.data.num_rows as int,
                set.data.stride as int,
                set.data.chunk_size as int,
            );
            crate::data::features_width_monotonic(
                set.info@.features,
                f as int + 1,
                set.info@.features.len() as int,
            );
            assert(set.info@.features.take(set.info@.features.len() as int)
                =~= set.info@.features);
        }
        values.push(restore_feature_value(&bits, &spec));
        row += 1;
    }
    assert(values@ =~= column_values(*set, f as int));
    values
}

/// The columns of the table that a dataset holds.
pub fn restore_columns(set: &BitDataSet) -> (result: Result<Vec<RestoredColumn>, EntroGdError>)
    requires
        set.valid(),
    ensures
        result is Ok <==> is_table(*set),
        result matches Ok(columns) ==> {
            &&& columns@.len() == set.info@.features.len()
            &&& set.info@.reconstruction matches ReconstructionView::Tabular { names, types } && (
            forall|f: int|
                0 <= f < columns@.len() ==> (#[trigger] columns@[f]).name@ == names[f]
                    && columns@[f].data_type == types[f] && columns@[f].values@ == column_values(
                    *set,
                    f,
                ))
        },
        result matches Err(error) ==> error is InvalidMetadata,
{
    let (names, types) = match &set.info.reconstruction {
        BitDataReconstructionInfo::Tabular { column_names, original_dtypes } => (
            column_names,
            original_dtypes,
        ),
        _ => {
            return Err(
                bad_metadata("cannot reconstruct a table from image reconstruction data"),
            );
        },
    };
    let count: usize = set.info.num_features();
    if names.len() != count || types.len() != count {
        return Err(bad_metadata("column names count does not match feature count"));
    }
    let mut columns: Vec<RestoredColumn> = Vec::new();
    let mut f: usize = 0;
    while f < count
        invariant
            set.valid(),
            f <= count == set.info@.features.len(),
            names@.len() == count,
            types@.len() == count,
            set.info@.reconstruction == (ReconstructionView::Tabular {
                names: texts(names@),
                types: types@,
            }),
            columns@.len() == f,
            forall|k: int|
                0 <= k < f ==> 1 <= (#[trigger] set.info@.features[k]).data_type.width() <= 64,
            forall|k: int|
                0 <= k < f ==> (#[trigger] columns@[k]).name@ == texts(names@)[k]
                    && columns@[k].data_type == types@[k] && columns@[k].values@ == column_values(
                    *set,
                    k,
                ),
        decreases count - f,
    {
        let width: usize = set.info.feature_bits(f);
        if width == 0 || width > 64 {
            return Err(bad_metadata("feature does not fit into a machine word"));
        }
        let values = restore_column(set, f);
        columns.push(RestoredColumn { name: names[f].clone(), data_type: types[f], values });
        f += 1;
    }
    Ok(columns)
}

/// Gives back the columns of the table that a dataset holds.
#[derive(Debug, Clone, Copy, PartialEq, Eq, Structural)]
pub struct ReconstructDataFrame {}

impl Filter for ReconstructDataFrame {
    type Input = BitDataSet;

    type Output = Vec<RestoredColumn>;

    open spec fn admits(&self, input: BitDataSet) -> bool {
        input.valid()
    }

    open spec fn yields(
        &self,
        input: BitDataSet,
        result: Result<Vec<RestoredColumn>, EntroGdError>,
    ) -> bool {
        &&& result is Ok <==> is_table(input)
        &&& (result matches Ok(columns) ==> {
            &&& columns@.len() == input.info@.features.len()
            &&& input.info@.reconstruction matches ReconstructionView::Tabular { names, types }
                && (forall|f: int|
                0 <= f < columns@.len() ==> (#[trigger] columns@[f]).name@ == names[f]
                    && columns@[f].data_type == types[f] && columns@[f].values@ == column_values(
                    input,
                    f,
                ))
        })
        &&& (result matches Err(error) ==> error is InvalidMetadata)
    }

    fn process(&self, input: BitDataSet) -> (result: Result<Vec<RestoredColumn>, EntroGdError>) {
        restore_columns(&input)
    }
}

/// The value that a cell of a table held before it was stored.
pub open spec fn original_value(
    values: ValuesView,
    row: int,
    options: PreprocessOptions,
) -> RestoredValue {
    match values {
        ValuesView::Signed(numbers) => RestoredValue::Signed(numbers[row]),
        ValuesView::Unsigned(numbers) => if options.integer_zero_normalization {
            RestoredValue::Unsigned(numbers[row])
        } else {
            RestoredValue::Verbatim(numbers[row])
        },
        ValuesView::FloatBits(patterns) => RestoredValue::Verbatim(patterns[row]),
        ValuesView::Scaled(numbers) => RestoredValue::Scaled {
            number: numbers[row],
            decimal_scale: kept_scale(options),
        },
    }
}

/// A stored number fits the width of its column, where float patterns do.
proof fn stored_fits(
    data_type: ColumnDataType,
    values: ValuesView,
    options: PreprocessOptions,
    row: int,
)
    requires
        stored_column(data_type, values, options) is Some,
        0 <= row < values.rows(),
        values matches ValuesView::FloatBits(patterns) ==> patterns[row] < pow2(
            (stored_column(data_type, values, options)->0).1.width(),
        ),
    ensures
        (stored_column(data_type, values, options)->0).2[row] < pow2(
            (stored_column(data_type, values, options)->0).1.width(),
        ),
{
    let stored = (stored_column(data_type, values, options)->0).2;
    if !(values is FloatBits) {
        let greatest = greatest_unsigned(stored);
        greatest_unsigned_bounds(stored);
        narrowest_width(greatest);
        assert(stored[row] <= greatest);
    }
}

/// Taking a number away and adding it again gives the number back.
proof fn difference_is_undone(value: i64, less: i64)
    ensures
        shifted(word_difference(value, less), less) == value,
{
    let word = word_difference(value, less);
    assert(word == value - less || word == value - less + 0x1_0000_0000_0000_0000);
    assert((word + less) % 0x1_0000_0000_0000_0000 == word_of(value));
}

/// The value of a cell is found again from the number that is stored for it.
pub proof fn cell_is_restored(
    data_type: ColumnDataType,
    values: ValuesView,
    options: PreprocessOptions,
    row: int,
)
    requires
        stored_column(data_type, values, options) is Some,
        0 <= row < values.rows(),
        values matches ValuesView::FloatBits(patterns) ==> patterns[row] < pow2(
            (stored_column(data_type, values, options)->0).1.width(),
        ),
    ensures
        ({
            let (transform, stored_type, stored) = stored_column(data_type, values, options)->0;
            let bits = low_digits(stored[row] as nat, stored_type.width());
            value_of(bits_value(bits) as u64, transform) == original_value(values, row, options)
        }),
{
    let (transform, stored_type, stored) = stored_column(data_type, values, options)->0;
    stored_fits(data_type, values, options, row);
    value_fits(stored[row] as nat, stored_type.width());
    let found = bits_value(low_digits(stored[row] as nat, stored_type.width())) as u64;
    assert(found == stored[row]);
    match values {
        ValuesView::Signed(numbers) => {
            let less = transform->OffsetSignedInt_min_value;
            assert(found == word_difference(numbers[row], less));
            difference_is_undone(numbers[row], less);
        },
        ValuesView::Unsigned(numbers) => {
            least_unsigned_bounds(numbers);
        },
        ValuesView::FloatBits(patterns) => {},
        ValuesView::Scaled(numbers) => {
            let less = if options.float_scaling == FloatScalingMode::ScaledSignedInt {
                i64::MIN
            } else {
                least_signed(numbers)
            };
            assert(found == word_difference(numbers[row], less));
            difference_is_undone(numbers[row], less);
        },
    }
}

/// A feature of a row stands where the widths before it put it.
proof fn cell_in_row(columns: Seq<StoredColumn>, row: int, f: int)
    requires
        0 <= f < columns.len(),
    ensures
        join(cells(columns, row)).subrange(
            features_width(specs(columns).take(f)) as int,
            features_width(specs(columns).take(f + 1)) as int,
        ) == cells(columns, row)[f],
        features_width(specs(columns).take(f + 1)) <= features_width(specs(columns)),
{
    let parts = cells(columns, row);
    let features = specs(columns);
    let before = columns.take(f);
    let upto = columns.take(f + 1);
    assert(cells(before, row) =~= parts.take(f));
    assert(cells(upto, row) =~= parts.take(f + 1));
    assert(specs(before) =~= features.take(f));
    assert(specs(upto) =~= features.take(f + 1));
    cells_len(before, row);
    cells_len(upto, row);
    cells_len(columns, row);
    assert(parts =~= parts.take(f + 1) + parts.skip(f + 1));
    join_concat(parts.take(f + 1), parts.skip(f + 1));
    assert(parts.take(f + 1).drop_last() =~= parts.take(f));
    assert(join(parts).subrange(
        join(parts.take(f)).len() as int,
        join(parts.take(f + 1)).len() as int,
    ) =~= parts[f]);
}

/// The bits of a cell in the dataset of a table.
proof fn feature_of_table(set: BitDataSet, columns: Seq<StoredColumn>, row: int, f: int)
    requires
        set.valid(),
        set.info@.features == specs(columns),
        set.data.data@ == join(
            padded_table(columns, set.data.stride as nat, set.data.num_rows as nat),
        ),
        0 <= row < set.data.num_rows,
        0 <= f < columns.len(),
    ensures
        set.feature(row, f) == cells(columns, row)[f],
{
    let stride = set.data.stride as nat;
    let rows = padded_table(columns, stride, set.data.num_rows as nat);
    assert forall|r: int| 0 <= r < rows.len() implies (#[trigger] rows[r]).len() == stride by {
        cells_len(columns, r);
    }
    crate::bits::join_uniform(rows, stride);
    row_in_bounds(
        row,
        set.data.num_rows as int,
        set.data.stride as int,
        set.data.chunk_size as int,
    );
    cells_len(columns, row);
    assert(rows[row] == set.data.data@.subrange(row * stride, row * stride + stride));
    assert(rows[row] == padded_cells(columns, stride, row));
    assert(set.data.row(row) =~= join(cells(columns, row)));
    cell_in_row(columns, row, f);
}

/// Every value of a table is restored from the dataset that it became, where the patterns of
/// floats fit their type.
pub proof fn table_is_restored(
    table: Seq<Column>,
    options: PreprocessOptions,
    pad: bool,
    set: BitDataSet,
    row: int,
    f: int,
)
    requires
        table_accepted(table, options, pad),
        set.valid(),
        set.info@ == table_info(table, options, pad),
        set.data.num_rows == table[0].values@.rows(),
        set.data.stride == set.info@.row_stride,
        set.data.data@ == join(
            padded_table(
                stored_table(table, options),
                set.info@.row_stride,
                table[0].values@.rows(),
            ),
        ),
        0 <= row < table[0].values@.rows(),
        0 <= f < table.len(),
        table[f].values@ matches ValuesView::FloatBits(patterns) ==> patterns[row] < pow2(
            (stored_column(table[f].data_type, table[f].values@, options)->0).1.width(),
        ),
    ensures
        is_table(set),
        column_values(set, f)[row] == original_value(table[f].values@, row, options),
{
    let columns = stored_table(table, options);
    stored_facts(table, options);
    assert(specs(columns) == set.info@.features);
    assert forall|k: int| 0 <= k < set.info@.features.len() implies 1 <= (
    #[trigger] set.info@.features[k]).data_type.width() <= 64 by {
        assert(columns[k].0.data_type.width() <= 64);
    }
    assert(stored_column(table[f].data_type, table[f].values@, options) is Some);
    assert(table[f].values@.rows() == table[0].values@.rows());
    feature_of_table(set, columns, row, f);
    cell_is_restored(table[f].data_type, table[f].values@, options, row);
}

} // verus!
