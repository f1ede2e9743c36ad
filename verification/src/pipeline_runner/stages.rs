//! The encoding stage of a run.
use vstd::prelude::*;

use crate::base_table::{table_view, PreEncodeContext};
use crate::encoding::compressed::{compressed_content, CompressedData, CompressedView, EncodedView};
use crate::encoding::deviation::{encoded_rows, symbols_fit};
use crate::encoding::filters::{
    differences_fit, table_of_differences, with_table, DeltaEncodeBaseTable, EncodeData,
    EncodeDataHuffman, EncodeDataOptimized, EncodeDataRLE,
};
use crate::encoding::huffman_encode::{huffman_encodes, huffman_fits, huffman_rows};
use crate::encoding::rle_encode::{controls_fit, rle_rows};
use crate::error::EntroGdError;
use crate::file_format::tags::BASE_TABLE_TAG_DELTA_UNARY;
use crate::filter_pipeline::Filter;
use crate::pipeline_profiles::choices::EncodeImpl;

verus! {

/// Whether rows can be encoded in a way: the encoded rows fit into streams.
pub open spec fn can_encode(implementation: EncodeImpl, input: PreEncodeContext) -> bool {
    match implementation {
        EncodeImpl::Naive => symbols_fit(input),
        EncodeImpl::Optimized => symbols_fit(input),
        EncodeImpl::Rle => symbols_fit(input) && controls_fit(input),
        EncodeImpl::Huffman => huffman_fits(input),
    }
}

/// The rows encoded in a way; there may be too many different bases for codes.
pub open spec fn encoded_content(implementation: EncodeImpl, input: PreEncodeContext) -> Option<
    CompressedView,
> {
    match implementation {
        EncodeImpl::Naive => Some(
            compressed_content(input, EncodedView::Normal(encoded_rows(input))),
        ),
        EncodeImpl::Optimized => Some(
            compressed_content(input, EncodedView::Normal(encoded_rows(input))),
        ),
        EncodeImpl::Rle => Some(compressed_content(input, EncodedView::Rle(rle_rows(input)))),
        EncodeImpl::Huffman => if huffman_encodes(input) {
            Some(compressed_content(input, EncodedView::Huffman(huffman_rows(input))))
        } else {
            None
        },
    }
}

/// Compressed data, with the base table of a context as differences where that is asked for and
/// can be.
pub open spec fn finished_content(
    content: CompressedView,
    input: PreEncodeContext,
    delta_encode_base_table: bool,
) -> CompressedView {
    if delta_encode_base_table {
        with_table(
            content,
            table_of_differences(
                table_view(input.variable_base_table@),
                content.order,
                BASE_TABLE_TAG_DELTA_UNARY,
            ),
        )
    } else {
        content
    }
}

/// Encodes rows in the way that a profile asks for.
pub fn encode_data(
    implementation: EncodeImpl,
    delta_encode_base_table: bool,
    input: PreEncodeContext,
) -> (result: Result<CompressedData, EntroGdError>)
    requires
        input.valid(),
        can_encode(implementation, input),
        delta_encode_base_table ==> match encoded_content(implementation, input) {
            Some(content) => differences_fit(content, BASE_TABLE_TAG_DELTA_UNARY),
            None => true,
        },
    ensures
        match encoded_content(implementation, input) {
            Some(content) => result matches Ok(data) && data.valid() && data@ == finished_content(
                content,
                input,
                delta_encode_base_table,
            ),
            None => result matches Err(error) && error is InvalidMetadata,
        },
{
    let compressed = match implementation {
        EncodeImpl::Naive => EncodeData {  }.process(input),
        EncodeImpl::Optimized => EncodeDataOptimized {  }.process(input),
        EncodeImpl::Rle => EncodeDataRLE {  }.process(input),
        EncodeImpl::Huffman => EncodeDataHuffman {  }.process(input),
    };
    if delta_encode_base_table {
        match compressed {
            Ok(data) => DeltaEncodeBaseTable {  }.process(data),
            Err(error) => Err(error),
        }
    } else {
        compressed
    }
}

} // verus!
