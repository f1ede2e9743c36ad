//! Datasets from the columns of a table, and the values of its cells back.
use vstd::arithmetic::power2::{lemma2_to64, pow2};
use vstd::prelude::*;

use crate::bits::{join, join_push, low_digits, BitStream, MAX_STREAM_BITS};
use crate::data::{
    aligned_stride, features_width, features_width_monotonic, features_width_step,
    narrowest_unsigned, significant_bits, stride_for, texts, BitDataInfo, BitDataReconstructionInfo,
    ColumnDataType, FeatureSpec, InfoView, ReconstructionView, DEFAULT_ALIGN_ROWS_TO_WORD,
};
use crate::dataset::{BitData, BitDataSet};
use crate::error::{bad_features, EntroGdError};
use crate::file_format::egd_laws::widths_add_up;
use crate::filter_pipeline::Filter;
use crate::tabular_processor::columns::{
    greatest_unsigned, has_kind, stored_column, transform_column, Column, FloatScalingMode,
    PreprocessOptions, TransformedColumn, ValuesView, MAX_DECIMAL_SCALE,
};

verus! {

/// A stored column: its schema entry and the stored number of each row.
pub type StoredColumn = (FeatureSpec, Seq<u64>);

/// The content of stored columns.
pub open spec fn stored_view(columns: Seq<TransformedColumn>) -> Seq<StoredColumn> {
    Seq::new(columns.len(), |f: int| (columns[f].spec, columns[f].values@))
}

/// What the columns of a table become.
pub open spec fn stored_table(table: Seq<Column>, options: PreprocessOptions) -> Seq<StoredColumn> {
    Seq::new(
        table.len(),
        |f: int|
            {
                let stored = stored_column(table[f].data_type, table[f].values@, options)->0;
                (FeatureSpec { data_type: stored.1, transform: stored.0 }, stored.2)
            },
    )
}

/// The schema entries of stored columns.
pub open spec fn specs(columns: Seq<StoredColumn>) -> Seq<FeatureSpec> {
    Seq::new(columns.len(), |f: int| columns[f].0)
}

/// The bits of the cells of a row.
pub open spec fn cells(columns: Seq<StoredColumn>, row: int) -> Seq<Seq<bool>> {
    Seq::new(
        columns.len(),
        |f: int| low_digits(columns[f].1[row] as nat, columns[f].0.data_type.width()),
    )
}

/// A row with the padding behind it.
pub open spec fn padded_cells(columns: Seq<StoredColumn>, stride: nat, row: int) -> Seq<bool> {
    join(cells(columns, row)) + Seq::new(
        (stride - features_width(specs(columns))) as nat,
        |i: int| false,
    )
}

/// All rows with their padding.
pub open spec fn padded_table(columns: Seq<StoredColumn>, stride: nat, rows: nat) -> Seq<
    Seq<bool>,
> {
    Seq::new(rows, |row: int| padded_cells(columns, stride, row))
}

/// Whether all columns of a table can be stored and have as many rows as the first one.
pub open spec fn columns_stored(table: Seq<Column>, options: PreprocessOptions) -> bool {
    forall|f: int|
        0 <= f < table.len() ==> stored_column(
            (#[trigger] table[f]).data_type,
            table[f].values@,
            options,
        ) is Some && table[f].values@.rows() == table[0].values@.rows()
}

/// The width of a row of a table.
pub open spec fn table_chunk(table: Seq<Column>, options: PreprocessOptions) -> nat {
    features_width(specs(stored_table(table, options)))
}

/// Whether a table can become a dataset: it has columns and rows, all columns can be stored, and
/// all bits fit into one stream.
pub open spec fn table_accepted(
    table: Seq<Column>,
    options: PreprocessOptions,
    pad: bool,
) -> bool {
    &&& table.len() > 0
    &&& table[0].values@.rows() > 0
    &&& columns_stored(table, options)
    &&& stride_for(table_chunk(table, options), pad) * table[0].values@.rows() <= MAX_STREAM_BITS
}

/// The names of columns.
pub open spec fn column_name_texts(table: Seq<Column>) -> Seq<Seq<char>> {
    Seq::new(table.len(), |f: int| table[f].name@)
}

/// The types of columns.
pub open spec fn column_type_list(table: Seq<Column>) -> Seq<ColumnDataType> {
    Seq::new(table.len(), |f: int| table[f].data_type)
}

/// Whether a dataset is that of a table.
pub open spec fn is_table_set(
    set: BitDataSet,
    table: Seq<Column>,
    options: PreprocessOptions,
    pad: bool,
) -> bool {
    let rows = table[0].values@.rows();
    &&& set.valid()
    &&& set.info@ == table_info(table, options, pad)
    &&& set.data.num_rows == rows
    &&& set.data.stride == set.info@.row_stride
    &&& set.data.data@ == join(
        padded_table(stored_table(table, options), set.info@.row_stride, rows),
    )
}

/// Whether a column is the first that cannot be stored.
pub open spec fn first_refused(table: Seq<Column>, options: PreprocessOptions, f: int) -> bool {
    let rows = table[0].values@.rows();
    let column = table[f];
    &&& 0 <= f < table.len()
    &&& column.values@.rows() != rows || stored_column(
        column.data_type,
        column.values@,
        options,
    ) is None
    &&& forall|k: int|
        0 <= k < f ==> (#[trigger] table[k]).values@.rows() == rows && stored_column(
            table[k].data_type,
            table[k].values@,
            options,
        ) is Some
}

/// Whether an error is the one for a table that cannot become a dataset. It speaks of a data type
/// where the first column that cannot be stored has values of another kind than its type.
pub open spec fn table_error(
    table: Seq<Column>,
    options: PreprocessOptions,
    error: EntroGdError,
) -> bool {
    let has_rows = table.len() > 0 && table[0].values@.rows() > 0;
    if has_rows && !columns_stored(table, options) {
        exists|f: int| #[trigger]
            first_refused(table, options, f) && if table[f].values@.rows()
                == table[0].values@.rows() && !has_kind(
                table[f].data_type,
                table[f].values@,
                options,
            ) {
                error is InvalidDataType
            } else {
                error is InvalidFeatureSpec
            }
    } else {
        error is InvalidFeatureSpec
    }
}

/// The metadata of a table.
pub open spec fn table_info(
    table: Seq<Column>,
    options: PreprocessOptions,
    pad: bool,
) -> InfoView {
    InfoView {
        features: specs(stored_table(table, options)),
        original_size_bits: table[0].values@.rows() * table_chunk(table, options),
        row_stride: stride_for(table_chunk(table, options), pad),
        weights: None,
        reconstruction: ReconstructionView::Tabular {
            names: column_name_texts(table),
            types: column_type_list(table),
        },
    }
}

/// Stored columns have some width, at most 64 bits each.
proof fn stored_width(
    data_type: ColumnDataType,
    values: ValuesView,
    options: PreprocessOptions,
)
    requires
        stored_column(data_type, values, options) is Some,
    ensures
        1 <= (stored_column(data_type, values, options)->0).1.width() <= 64,
        (stored_column(data_type, values, options)->0).2.len() == values.rows(),
{
    let stored = stored_column(data_type, values, options)->0;
    narrowest_width(greatest_unsigned(stored.2));
}

/// The narrowest type for a number holds it.
pub proof fn narrowest_width(value: u64)
    ensures
        1 <= narrowest_unsigned(value as nat).width() <= 64,
        value < pow2(narrowest_unsigned(value as nat).width()),
{
    lemma2_to64();
    vstd::arithmetic::power2::lemma2_to64_rest();
    crate::data::significant_bits_bound(value as nat, 64);
    significant_bits_hold(value as nat);
    if value > 0xffff_ffff {
        let width = significant_bits(value as nat);
        if width == 0 {
            assert(pow2(0) == 1);
        }
    }
}

/// A number is below the power of two of its number of digits.
proof fn significant_bits_hold(value: nat)
    ensures
        value < pow2(significant_bits(value)),
    decreases value,
{
    lemma2_to64();
    if value > 0 {
        significant_bits_hold(value / 2);
        vstd::arithmetic::power2::lemma_pow2_unfold(significant_bits(value));
    }
}

/// A row has the width of its features.
pub proof fn cells_len(columns: Seq<StoredColumn>, row: int)
    ensures
        join(cells(columns, row)).len() == features_width(specs(columns)),
    decreases columns.len(),
{
    if columns.len() > 0 {
        let before = columns.drop_last();
        cells_len(before, row);
        assert(cells(columns, row).drop_last() =~= cells(before, row));
        assert(specs(columns).drop_last() =~= specs(before));
    }
}

/// The columns of a table as they are stored.
fn transform_columns(table: &Vec<Column>, options: &PreprocessOptions, num_rows: usize) -> (result:
    Result<Vec<TransformedColumn>, EntroGdError>)
    requires
        table@.len() > 0,
        num_rows == table@[0].values@.rows(),
    ensures
        result is Ok <==> columns_stored(table@, *options),
        result matches Ok(columns) ==> stored_view(columns@) == stored_table(table@, *options),
        result matches Err(error) ==> num_rows > 0 ==> table_error(table@, *options, error),
{
    let mut columns: Vec<TransformedColumn> = Vec::new();
    let mut f: usize = 0;
    while f < table.len()
        invariant
            f <= table@.len(),
            columns@.len() == f,
            num_rows == table@[0].values@.rows(),
            forall|k: int|
                0 <= k < f ==> stored_column(
                    (#[trigger] table@[k]).data_type,
                    table@[k].values@,
                    *options,
                ) == Some(
                    (columns@[k].spec.transform, columns@[k].spec.data_type, columns@[k].values@),
                ) && table@[k].values@.rows() == num_rows,
        decreases table@.len() - f,
    {
        if table[f].values.rows() != num_rows {
            assert(first_refused(table@, *options, f as int));
            return Err(bad_features("columns differ in their number of rows"));
        }
        match transform_column(&table[f], options) {
            Ok(column) => {
                columns.push(column);
            },
            Err(error) => {
                assert(first_refused(table@, *options, f as int));
                return Err(error);
            },
        }
        f += 1;
    }
    assert(stored_view(columns@) =~= stored_table(table@, *options));
    Ok(columns)
}

/// The width of a row, where it can be computed.
fn row_width(columns: &Vec<TransformedColumn>) -> (width: Option<usize>)
    ensures
        width is Some <==> features_width(specs(stored_view(columns@))) <= usize::MAX,
        width matches Some(bits) ==> bits == features_width(specs(stored_view(columns@))),
{
    let ghost features = specs(stored_view(columns@));
    let mut bits: usize = 0;
    let mut f: usize = 0;
    assert(features.take(0) =~= Seq::empty());
    while f < columns.len()
        invariant
            f <= columns@.len(),
            features == specs(stored_view(columns@)),
            bits == features_width(features.take(f as int)),
        decreases columns@.len() - f,
    {
        proof {
            features_width_step(features, f as int);
            features_width_monotonic(features, f as int + 1, features.len() as int);
            assert(features.take(features.len() as int) =~= features);
        }
        match bits.checked_add(columns[f].spec.data_type.bits()) {
            Some(sum) => {
                bits = sum;
            },
            None => {
                return None;
            },
        }
        f += 1;
    }
    assert(features.take(f as int) =~= features);
    Some(bits)
}

/// Appends the cells of a row.
fn append_cells(out: &mut BitStream, columns: &Vec<TransformedColumn>, row: usize)
    requires
        forall|f: int|
            0 <= f < columns@.len() ==> row < (#[trigger] columns@[f]).values@.len()
                && columns@[f].spec.data_type.width() <= 64,
        old(out)@.len() + features_width(specs(stored_view(columns@))) <= MAX_STREAM_BITS,
    ensures
        final(out)@ == old(out)@ + join(cells(stored_view(columns@), row as int)),
{
    let ghost start = out@;
    let ghost parts = cells(stored_view(columns@), row as int);
    let ghost features = specs(stored_view(columns@));
    let mut f: usize = 0;
    proof {
        assert(parts.take(0) =~= Seq::empty());
        assert(start + join(parts.take(0)) =~= start);
        assert(features.take(0) =~= Seq::empty());
    }
    while f < columns.len()
        invariant
            f <= columns@.len() == parts.len(),
            parts == cells(stored_view(columns@), row as int),
            features == specs(stored_view(columns@)),
            forall|k: int|
                0 <= k < columns@.len() ==> row < (#[trigger] columns@[k]).values@.len()
                    && columns@[k].spec.data_type.width() <= 64,
            start.len() + features_width(features) <= MAX_STREAM_BITS,
            out@ == start + join(parts.take(f as int)),
            join(parts.take(f as int)).len() == features_width(features.take(f as int)),
        decreases columns@.len() - f,
    {
        proof {
            features_width_step(features, f as int);
            features_width_monotonic(features, f as int + 1, features.len() as int);
            assert(features.take(features.len() as int) =~= features);
            assert(parts.take(f as int + 1) =~= parts.take(f as int).push(parts[f as int]));
            join_push(parts.take(f as int), parts[f as int]);
        }
        let width: usize = columns[f].spec.data_type.bits();
        out.append_low_first(columns[f].values[row], width);
        assert(out@ =~= start + join(parts.take(f as int + 1)));
        f += 1;
    }
    assert(parts.take(f as int) =~= parts);
}

/// All rows of a table with their padding.
fn pack_rows(
    columns: &Vec<TransformedColumn>,
    num_rows: usize,
    chunk_size: usize,
    stride: usize,
) -> (stream: BitStream)
    requires
        forall|f: int|
            0 <= f < columns@.len() ==> (#[trigger] columns@[f]).values@.len() == num_rows
                && columns@[f].spec.data_type.width() <= 64,
        chunk_size == features_width(specs(stored_view(columns@))),
        chunk_size <= stride,
        num_rows * stride <= MAX_STREAM_BITS,
    ensures
        stream@ == join(padded_table(stored_view(columns@), stride as nat, num_rows as nat)),
        stream@.len() == num_rows * stride,
{
    let ghost parts = padded_table(stored_view(columns@), stride as nat, num_rows as nat);
    let mut stream = BitStream::empty();
    let mut row: usize = 0;
    proof {
        assert(parts.take(0) =~= Seq::empty());
        assert(0 * stride == 0);
    }
    while row < num_rows
        invariant
            row <= num_rows == parts.len(),
            parts == padded_table(stored_view(columns@), stride as nat, num_rows as nat),
            forall|f: int|
                0 <= f < columns@.len() ==> (#[trigger] columns@[f]).values@.len() == num_rows
                    && columns@[f].spec.data_type.width() <= 64,
            chunk_size == features_width(specs(stored_view(columns@))),
            chunk_size <= stride,
            num_rows * stride <= MAX_STREAM_BITS,
            stream@ == join(parts.take(row as int)),
            stream@.len() == row * stride,
        decreases num_rows - row,
    {
        proof {
            assert(row * stride + stride <= num_rows * stride) by (nonlinear_arith)
                requires
                    row < num_rows,
            ;
            assert((row + 1) * stride == row * stride + stride) by (nonlinear_arith);
            cells_len(stored_view(columns@), row as int);
        }
        append_cells(&mut stream, columns, row);
        crate::dataset::append_row_padding(&mut stream, stride - chunk_size);
        proof {
            assert(parts.take(row as int + 1) =~= parts.take(row as int).push(parts[row as int]));
            join_push(parts.take(row as int), parts[row as int]);
            assert(stream@ =~= join(parts.take(row as int + 1)));
        }
        row += 1;
    }
    assert(parts.take(row as int) =~= parts);
    stream
}

/// The names of the columns of a table.
fn column_names(table: &Vec<Column>) -> (names: Vec<String>)
    ensures
        texts(names@) == Seq::new(table@.len(), |f: int| table@[f].name@),
{
    let mut names: Vec<String> = Vec::new();
    let mut f: usize = 0;
    while f < table.len()
        invariant
            f <= table@.len(),
            names@.len() == f,
            forall|k: int| 0 <= k < f ==> (#[trigger] names@[k])@ == table@[k].name@,
        decreases table@.len() - f,
    {
        names.push(table[f].name.clone());
        f += 1;
    }
    assert(texts(names@) =~= Seq::new(table@.len(), |k: int| table@[k].name@));
    names
}

/// The types of the columns of a table.
fn column_types(table: &Vec<Column>) -> (types: Vec<ColumnDataType>)
    ensures
        types@ == Seq::new(table@.len(), |f: int| table@[f].data_type),
{
    let mut types: Vec<ColumnDataType> = Vec::new();
    let mut f: usize = 0;
    while f < table.len()
        invariant
            f <= table@.len(),
            types@.len() == f,
            forall|k: int| 0 <= k < f ==> #[trigger] types@[k] == table@[k].data_type,
        decreases table@.len() - f,
    {
        types.push(table[f].data_type);
        f += 1;
    }
    assert(types@ =~= Seq::new(table@.len(), |k: int| table@[k].data_type));
    types
}

/// The schema entries of stored columns.
fn column_specs(columns: &Vec<TransformedColumn>) -> (features: Vec<FeatureSpec>)
    ensures
        features@ == specs(stored_view(columns@)),
{
    let mut features: Vec<FeatureSpec> = Vec::new();
    let mut f: usize = 0;
    while f < columns.len()
        invariant
            f <= columns@.len(),
            features@.len() == f,
            forall|k: int| 0 <= k < f ==> #[trigger] features@[k] == columns@[k].spec,
        decreases columns@.len() - f,
    {
        features.push(columns[f].spec);
        f += 1;
    }
    assert(features@ =~= specs(stored_view(columns@)));
    features
}

/// What is known of the stored columns of a table.
pub proof fn stored_facts(table: Seq<Column>, options: PreprocessOptions)
    requires
        columns_stored(table, options),
        table.len() > 0,
    ensures
        table_chunk(table, options) > 0,
        forall|f: int|
            0 <= f < table.len() ==> (#[trigger] stored_table(table, options)[f]).1.len()
                == table[0].values@.rows() && 1 <= stored_table(
                table,
                options,
            )[f].0.data_type.width() <= 64,
{
    let columns = stored_table(table, options);
    assert forall|f: int| 0 <= f < columns.len() implies (#[trigger] columns[f]).1.len()
        == table[0].values@.rows() && 1 <= columns[f].0.data_type.width() <= 64 by {
        assert(table[f].values@.rows() == table[0].values@.rows());
        stored_width(table[f].data_type, table[f].values@, options);
    }
    assert(columns[0].0.data_type.width() >= 1);
    widths_add_up(specs(columns));
}

impl BitDataSet {
    /// Turns the columns of a table into a dataset.
    pub fn from_columns(
        table: Vec<Column>,
        options: PreprocessOptions,
        pad_rows_to_word: bool,
    ) -> (result: Result<BitDataSet, EntroGdError>)
        ensures
            result is Ok <==> table_accepted(table@, options, pad_rows_to_word),
            result matches Ok(set) ==> is_table_set(set, table@, options, pad_rows_to_word),
            result matches Err(error) ==> table_error(table@, options, error),
    {
        if table.len() == 0 {
            return Err(bad_features("dataframe has no columns"));
        }
        let num_rows: usize = table[0].values.rows();
        if num_rows == 0 {
            return Err(bad_features("cannot build a BitDataSet from an empty dataframe"));
        }
        let columns = match transform_columns(&table, &options, num_rows) {
            Ok(columns) => columns,
            Err(error) => {
                return Err(error);
            },
        };
        proof {
            stored_facts(table@, options);
            assert forall|f: int| 0 <= f < columns@.len() implies (
            #[trigger] columns@[f]).values@.len() == num_rows
                && columns@[f].spec.data_type.width() <= 64 by {
                assert(stored_view(columns@)[f] == stored_table(table@, options)[f]);
            }
            let c = table_chunk(table@, options) as int;
            let s = stride_for(table_chunk(table@, options), pad_rows_to_word) as int;
            let r = num_rows as int;
            stride_covers(table_chunk(table@, options), pad_rows_to_word);
            assert(s * r >= s && r * s == s * r && 0 <= r * c <= r * s) by (nonlinear_arith)
                requires
                    r >= 1,
                    s >= c,
                    c >= 0,
            ;
        }
        let chunk_size: usize = match row_width(&columns) {
            Some(bits) => bits,
            None => {
                return Err(bad_features("rows are too wide"));
            },
        };
        if chunk_size > MAX_STREAM_BITS {
            return Err(bad_features("rows are too wide"));
        }
        let stride: usize = aligned_stride(chunk_size, pad_rows_to_word);
        match num_rows.checked_mul(stride) {
            Some(bits) => {
                if bits > MAX_STREAM_BITS {
                    return Err(bad_features("dataset is too large"));
                }
            },
            None => {
                return Err(bad_features("dataset is too large"));
            },
        }
        let original_size_bits: usize = num_rows * chunk_size;
        let reconstruction = BitDataReconstructionInfo::Tabular {
            column_names: column_names(&table),
            original_dtypes: column_types(&table),
        };
        let features = column_specs(&columns);
        let info = match BitDataInfo::new_with_reconstruction_info(
            features,
            original_size_bits,
            reconstruction,
        ) {
            Ok(info) => info.with_original_size_bits_and_row_stride(original_size_bits, stride),
            Err(error) => {
                return Err(error);
            },
        };
        let bits = pack_rows(&columns, num_rows, chunk_size, stride);
        let data = BitData { data: bits, chunk_size, stride, num_rows };
        Ok(BitDataSet { data, info })
    }
}

/// Builds a dataset from the columns of a table.
#[derive(Debug, Clone, Copy, PartialEq, Eq, Structural)]
pub struct BuildBitDataSet {
    pub options: PreprocessOptions,
    pub pad_rows_to_word: bool,
}

impl Default for BuildBitDataSet {
    fn default() -> (builder: BuildBitDataSet)
        ensures
            builder.options == (PreprocessOptions {
                float_scaling: FloatScalingMode::ScaledOffsetSignedInt,
                decimal_scale: MAX_DECIMAL_SCALE,
                integer_zero_normalization: true,
            }),
            builder.pad_rows_to_word == DEFAULT_ALIGN_ROWS_TO_WORD,
    {
        BuildBitDataSet {
            options: PreprocessOptions::default(),
            pad_rows_to_word: DEFAULT_ALIGN_ROWS_TO_WORD,
        }
    }
}

impl Filter for BuildBitDataSet {
    type Input = Vec<Column>;

    type Output = BitDataSet;

    open spec fn admits(&self, input: Vec<Column>) -> bool {
        true
    }

    open spec fn yields(
        &self,
        input: Vec<Column>,
        result: Result<BitDataSet, EntroGdError>,
    ) -> bool {
        &&& result is Ok <==> table_accepted(input@, self.options, self.pad_rows_to_word)
        &&& (result matches Ok(set) ==> is_table_set(
            set,
            input@,
            self.options,
            self.pad_rows_to_word,
        ))
        &&& (result matches Err(error) ==> table_error(input@, self.options, error))
    }

    fn process(&self, input: Vec<Column>) -> (result: Result<BitDataSet, EntroGdError>) {
        BitDataSet::from_columns(input, self.options, self.pad_rows_to_word)
    }
}

/// The storage of a row covers the row, with less than a word more.
proof fn stride_covers(chunk_size: nat, pad: bool)
    ensures
        chunk_size <= stride_for(chunk_size, pad) <= chunk_size + 64,
{
    if pad {
        let w = usize::BITS as int;
        let c = chunk_size as int;
        assert(w == 32 || w == 64);
        let q = (c + w - 1) / w;
        assert(c <= q * w <= c + w) by (nonlinear_arith)
            requires
                w > 0,
                q == (c + w - 1) / w,
        ;
    }
}

} // verus!
