//! The encodings and the treatment of the base table as pipeline steps.
use vstd::prelude::*;

use crate::base_table::{table_view, PreEncodeContext};
use crate::bits::{join_uniform, BitStream};
use crate::encoding::compressed::{
    build_compressed_data, compressed_content, BaseTable, CompressedData, CompressedView,
    EncodedData, EncodedView, TableView,
};
use crate::encoding::delta_table::{
    delta_encode_base_rows, descending, key_numbers, order_in_range, rows_uniform, sort_key,
    step_codes, steps_fit, DeltaBaseTableData, DeltaView,
};
use crate::encoding::deviation::{encode_data, encoded_rows, symbols_fit};
use crate::encoding::huffman_encode::{
    encode_data_huffman, huffman_encodes, huffman_fits, huffman_rows,
};
use crate::encoding::layout::{row_symbols, row_symbols_uniform};
use crate::encoding::rle_encode::{
    controls_fit, encode_data_offset_rle, encode_data_rle, holds_original_rows, rle_offset_encodes,
    rle_offset_rows, rle_rows, row_layout,
};
use crate::error::EntroGdError;
use crate::file_format::tags::{BASE_TABLE_TAG_DELTA_FIXED, BASE_TABLE_TAG_DELTA_UNARY};
use crate::filter_pipeline::Filter;

verus! {

/// The plain encoding holds the symbols of all rows.
proof fn encoded_rows_are_held(context: PreEncodeContext)
    ensures
        encoded_rows(context).holds_samples(),
{
    row_symbols_uniform(context);
    join_uniform(row_symbols(context), encoded_rows(context).symbol_width());
}

/// Encodes rows as symbols of one width.
pub struct EncodeData {}

impl Filter for EncodeData {
    type Input = PreEncodeContext;

    type Output = CompressedData;

    open spec fn admits(&self, input: PreEncodeContext) -> bool {
        input.valid() && symbols_fit(input)
    }

    open spec fn yields(
        &self,
        input: PreEncodeContext,
        result: Result<CompressedData, EntroGdError>,
    ) -> bool {
        result matches Ok(data) && data.valid() && data@ == compressed_content(
            input,
            EncodedView::Normal(encoded_rows(input)),
        )
    }

    fn process(&self, input: PreEncodeContext) -> (result: Result<CompressedData, EntroGdError>) {
        let encoded = EncodedData::Normal(encode_data(&input));
        proof {
            encoded_rows_are_held(input);
        }
        Ok(build_compressed_data(input, encoded))
    }
}

/// Encodes rows as symbols of one width.
pub struct EncodeDataOptimized {}

impl Filter for EncodeDataOptimized {
    type Input = PreEncodeContext;

    type Output = CompressedData;

    open spec fn admits(&self, input: PreEncodeContext) -> bool {
        input.valid() && symbols_fit(input)
    }

    open spec fn yields(
        &self,
        input: PreEncodeContext,
        result: Result<CompressedData, EntroGdError>,
    ) -> bool {
        result matches Ok(data) && data.valid() && data@ == compressed_content(
            input,
            EncodedView::Normal(encoded_rows(input)),
        )
    }

    fn process(&self, input: PreEncodeContext) -> (result: Result<CompressedData, EntroGdError>) {
        let encoded = EncodedData::Normal(encode_data(&input));
        proof {
            encoded_rows_are_held(input);
        }
        Ok(build_compressed_data(input, encoded))
    }
}

/// Encodes rows as runs.
pub struct EncodeDataRLE {}

impl Filter for EncodeDataRLE {
    type Input = PreEncodeContext;

    type Output = CompressedData;

    open spec fn admits(&self, input: PreEncodeContext) -> bool {
        input.valid() && symbols_fit(input) && controls_fit(input)
    }

    open spec fn yields(
        &self,
        input: PreEncodeContext,
        result: Result<CompressedData, EntroGdError>,
    ) -> bool {
        result matches Ok(data) && data.valid() && data@ == compressed_content(
            input,
            EncodedView::Rle(rle_rows(input)),
        )
    }

    fn process(&self, input: PreEncodeContext) -> (result: Result<CompressedData, EntroGdError>) {
        let encoded = EncodedData::Rle(encode_data_rle(&input));
        Ok(build_compressed_data(input, encoded))
    }
}

/// Encodes rows as runs in groups whose starts are kept.
pub struct EncodeDataOffsetRLE {}

impl Filter for EncodeDataOffsetRLE {
    type Input = PreEncodeContext;

    type Output = CompressedData;

    open spec fn admits(&self, input: PreEncodeContext) -> bool {
        input.valid() && symbols_fit(input) && controls_fit(input) && holds_original_rows(input)
    }

    open spec fn yields(
        &self,
        input: PreEncodeContext,
        result: Result<CompressedData, EntroGdError>,
    ) -> bool {
        &&& result is Ok <==> rle_offset_encodes(input)
        &&& result matches Ok(data) ==> {
            let layout = row_layout(input.bit_data.info@)->0;
            data.valid() && data@ == compressed_content(
                input,
                EncodedView::RleOffset(rle_offset_rows(input, layout.0, layout.1, layout.2)),
            )
        }
        &&& result matches Err(error) ==> error is InvalidMetadata
    }

    fn process(&self, input: PreEncodeContext) -> (result: Result<CompressedData, EntroGdError>) {
        match encode_data_offset_rle(&input) {
            Ok(rows) => Ok(build_compressed_data(input, EncodedData::RleOffset(rows))),
            Err(error) => Err(error),
        }
    }
}

/// Encodes the base numbers of rows in prefix codes.
pub struct EncodeDataHuffman {}

impl Filter for EncodeDataHuffman {
    type Input = PreEncodeContext;

    type Output = CompressedData;

    open spec fn admits(&self, input: PreEncodeContext) -> bool {
        input.valid() && huffman_fits(input)
    }

    open spec fn yields(
        &self,
        input: PreEncodeContext,
        result: Result<CompressedData, EntroGdError>,
    ) -> bool {
        &&& result is Ok <==> huffman_encodes(input)
        &&& result matches Ok(data) ==> data.valid() && data@ == compressed_content(
            input,
            EncodedView::Huffman(huffman_rows(input)),
        )
        &&& result matches Err(error) ==> error is InvalidMetadata
    }

    fn process(&self, input: PreEncodeContext) -> (result: Result<CompressedData, EntroGdError>) {
        match encode_data_huffman(&input) {
            Ok(rows) => Ok(build_compressed_data(input, EncodedData::Huffman(rows))),
            Err(error) => Err(error),
        }
    }
}

/// Whether rows can be kept as differences: there is an order, all its columns exist, and the
/// keys of the rows go down at each step.
pub open spec fn has_differences(rows: Seq<(Seq<bool>, usize)>, order: Option<Seq<usize>>) -> bool {
    order matches Some(columns) && (rows.len() > 0 ==> order_in_range(columns, rows[0].0.len())
        && descending(key_numbers(rows, columns), rows.len() as int))
}

/// Rows as differences where that can be, else as they are.
pub open spec fn table_of_differences(
    rows: Seq<(Seq<bool>, usize)>,
    order: Option<Seq<usize>>,
    codec_id: u8,
) -> TableView {
    if has_differences(rows, order) {
        let columns = order->0;
        if rows.len() == 0 {
            TableView::Delta(
                DeltaView {
                    num_bases: 0,
                    first_sort_key: Seq::empty(),
                    steps: Seq::empty(),
                    delta_count: 0,
                    order: columns,
                    codec_id,
                },
            )
        } else {
            TableView::Delta(
                DeltaView {
                    num_bases: rows.len(),
                    first_sort_key: sort_key(rows[0].0, columns),
                    steps: crate::bits::join(
                        step_codes(codec_id, key_numbers(rows, columns), rows[0].0.len()),
                    ),
                    delta_count: (rows.len() - 1) as nat,
                    order: columns,
                    codec_id,
                },
            )
        }
    } else {
        TableView::Raw(rows)
    }
}

/// Whether the rows of a base table have one width, an order is no longer than that, and the
/// differences fit into one stream.
pub open spec fn differences_fit(data: CompressedView, codec_id: u8) -> bool {
    match data.base_table.rows() {
        Some(rows) => rows.len() > 0 ==> {
            let width = rows[0].0.len();
            &&& rows_uniform(rows, width)
            &&& match data.order {
                Some(columns) => order_in_range(columns, width) ==> columns.len() <= width
                    && steps_fit(codec_id, key_numbers(rows, columns), width),
                None => true,
            }
        },
        None => true,
    }
}

/// Compressed data with another base table.
pub open spec fn with_table(data: CompressedView, base_table: TableView) -> CompressedView {
    CompressedView { base_table, ..data }
}

/// Compressed data with the base table as differences where that can be.
fn with_differences(input: CompressedData, codec_id: u8) -> (result: Result<
    CompressedData,
    EntroGdError,
>)
    requires
        input.valid(),
        differences_fit(input@, codec_id),
    ensures
        match input@.base_table.rows() {
            Some(rows) => result matches Ok(data) && data.valid() && data@ == with_table(
                input@,
                table_of_differences(rows, input@.order, codec_id),
            ),
            None => result matches Err(error) && error is InvalidMetadata,
        },
{
    let raw_rows = match input.base_table.to_rows() {
        Ok(rows) => rows,
        Err(error) => {
            return Err(error);
        },
    };
    let ghost rows = table_view(raw_rows@);
    let mut output = input;
    let base_table: BaseTable;
    match &output.entropy_sorted_column_order {
        Some(order) => {
            if raw_rows.len() == 0 {
                base_table = BaseTable::Delta(
                    DeltaBaseTableData {
                        num_bases: 0,
                        first_sort_key: BitStream::empty(),
                        delta_bit_stream: BitStream::empty(),
                        delta_count: 0,
                        sort_column_order: crate::data::copy_sizes(order),
                        codec_id,
                    },
                );
            } else if !columns_exist(order, raw_rows[0].0.bit_len()) {
                base_table = BaseTable::Raw(raw_rows);
            } else {
                assert(rows[0].0 == raw_rows@[0].0@);
                match delta_encode_base_rows(&raw_rows, order, codec_id) {
                    Some((first_sort_key, delta_bit_stream, stats)) => {
                        base_table = BaseTable::Delta(
                            DeltaBaseTableData {
                                num_bases: raw_rows.len(),
                                first_sort_key,
                                delta_bit_stream,
                                delta_count: raw_rows.len() - 1,
                                sort_column_order: crate::data::copy_sizes(order),
                                codec_id,
                            },
                        );
                    },
                    None => {
                        base_table = BaseTable::Raw(raw_rows);
                    },
                }
            }
        },
        None => {
            base_table = BaseTable::Raw(raw_rows);
        },
    }
    assert(base_table@ =~= table_of_differences(rows, input@.order, codec_id));
    output.base_table = base_table;
    Ok(output)
}

/// Whether all columns of an order exist.
fn columns_exist(order: &Vec<usize>, width: usize) -> (exist: bool)
    ensures
        exist == order_in_range(order@, width as nat),
{
    let mut rank: usize = 0;
    while rank < order.len()
        invariant
            rank <= order@.len(),
            forall|r: int| 0 <= r < rank ==> #[trigger] order@[r] < width,
        decreases order@.len() - rank,
    {
        if order[rank] >= width {
            assert(!(order@[rank as int] < width));
            return false;
        }
        rank += 1;
    }
    true
}

/// Keeps the base table as differences with unary prefixes.
pub struct DeltaEncodeBaseTable {}

impl Filter for DeltaEncodeBaseTable {
    type Input = CompressedData;

    type Output = CompressedData;

    open spec fn admits(&self, input: CompressedData) -> bool {
        input.valid() && differences_fit(input@, BASE_TABLE_TAG_DELTA_UNARY)
    }

    open spec fn yields(
        &self,
        input: CompressedData,
        result: Result<CompressedData, EntroGdError>,
    ) -> bool {
        match input@.base_table.rows() {
            Some(rows) => result matches Ok(data) && data.valid() && data@ == with_table(
                input@,
                table_of_differences(rows, input@.order, BASE_TABLE_TAG_DELTA_UNARY),
            ),
            None => result matches Err(error) && error is InvalidMetadata,
        }
    }

    fn process(&self, input: CompressedData) -> (result: Result<CompressedData, EntroGdError>) {
        with_differences(input, BASE_TABLE_TAG_DELTA_UNARY)
    }
}

/// Keeps the base table as differences with fixed prefixes.
pub struct DeltaEncodeBaseTableFixed {}

impl Filter for DeltaEncodeBaseTableFixed {
    type Input = CompressedData;

    type Output = CompressedData;

    open spec fn admits(&self, input: CompressedData) -> bool {
        input.valid() && differences_fit(input@, BASE_TABLE_TAG_DELTA_FIXED)
    }

    open spec fn yields(
        &self,
        input: CompressedData,
        result: Result<CompressedData, EntroGdError>,
    ) -> bool {
        match input@.base_table.rows() {
            Some(rows) => result matches Ok(data) && data.valid() && data@ == with_table(
                input@,
                table_of_differences(rows, input@.order, BASE_TABLE_TAG_DELTA_FIXED),
            ),
            None => result matches Err(error) && error is InvalidMetadata,
        }
    }

    fn process(&self, input: CompressedData) -> (result: Result<CompressedData, EntroGdError>) {
        with_differences(input, BASE_TABLE_TAG_DELTA_FIXED)
    }
}

/// Writes out a base table that is kept as differences.
pub struct DecodeDeltaBaseTable {}

impl Filter for DecodeDeltaBaseTable {
    type Input = CompressedData;

    type Output = CompressedData;

    open spec fn admits(&self, input: CompressedData) -> bool {
        input.valid()
    }

    open spec fn yields(
        &self,
        input: CompressedData,
        result: Result<CompressedData, EntroGdError>,
    ) -> bool {
        match input@.base_table.rows() {
            Some(rows) => result matches Ok(data) && data.valid() && data@ == with_table(
                input@,
                TableView::Raw(rows),
            ),
            None => result matches Err(error) && error is InvalidMetadata,
        }
    }

    fn process(&self, input: CompressedData) -> (result: Result<CompressedData, EntroGdError>) {
        match input.base_table.to_rows() {
            Ok(rows) => {
                let mut output = input;
                output.base_table = BaseTable::Raw(rows);
                Ok(output)
            },
            Err(error) => Err(error),
        }
    }
}

} // verus!
