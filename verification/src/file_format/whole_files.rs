//! Files decompressed in one step.
use vstd::prelude::*;

use crate::bits::MAX_STREAM_BITS;
use crate::data::ReconstructionView;
use crate::dataset::BitDataSet;
use crate::decompression::{decodes, decompress_file, holds_rows, is_fault, original_rows};
use crate::encoding::compressed::{CompressedData, CompressedView};
use crate::error::{bad_metadata, EntroGdError};
use crate::file_format::egd::{read_file, EgdFile};
use crate::file_format::igd::{read_image_file, IgdFile};
use crate::file_format::tgd::{read_table_file, TgdFile};
use crate::image_preprocessor::restore::{image_restorable, restore_image, restored_image};
use crate::tabular_processor::restore::{column_values, is_table, restore_columns, RestoredColumn};

verus! {

/// Whether the rows of compressed data fit into one stream.
pub open spec fn rows_fit(data: CompressedView) -> bool {
    &&& data.layout.len() <= MAX_STREAM_BITS
    &&& original_rows(data) * data.metadata.row_stride <= MAX_STREAM_BITS
}

/// Whether a result is that of decompressing what was read of a file: the rows where there is
/// compressed data whose rows fit and can be put together, else what is wrong with it.
pub open spec fn decompresses_to(
    read: Option<CompressedView>,
    result: Result<BitDataSet, EntroGdError>,
) -> bool {
    match read {
        Some(data) => if rows_fit(data) {
            match result {
                Ok(set) => decodes(data) && holds_rows(set, data),
                Err(error) => !decodes(data) && is_fault(data, error),
            }
        } else {
            result matches Err(error) && error is InvalidMetadata
        },
        None => result matches Err(error) && error is InvalidMetadata,
    }
}

/// The rows of compressed data.
fn decompress_checked(compressed: CompressedData) -> (result: Result<BitDataSet, EntroGdError>)
    requires
        compressed.valid(),
    ensures
        decompresses_to(Some(compressed@), result),
{
    let chunk_size: usize = compressed.metadata.chunk_size();
    let rows: usize = compressed.metadata.original_size_bits() / chunk_size;
    if chunk_size > MAX_STREAM_BITS {
        return Err(bad_metadata("rows are too wide"));
    }
    match rows.checked_mul(compressed.metadata.row_stride()) {
        Some(bits) => if bits > MAX_STREAM_BITS {
            Err(bad_metadata("too many rows"))
        } else {
            decompress_file(compressed)
        },
        None => Err(bad_metadata("too many rows")),
    }
}

/// What is read of a file that is not too long.
pub open spec fn within_limit(bytes: Seq<u8>, read: Option<CompressedView>) -> Option<
    CompressedView,
> {
    if 8 * bytes.len() <= MAX_STREAM_BITS {
        read
    } else {
        None
    }
}

fn is_too_long(bytes: &Vec<u8>) -> (long: bool)
    ensures
        long == (8 * bytes@.len() > MAX_STREAM_BITS),
{
    bytes.len() > MAX_STREAM_BITS / 8
}

/// The rows of a file of compressed rows.
pub fn load_and_decompress_egd(bytes: Vec<u8>) -> (result: Result<BitDataSet, EntroGdError>)
    ensures
        decompresses_to(within_limit(bytes@, read_file(bytes@)), result),
{
    if is_too_long(&bytes) {
        return Err(bad_metadata("file is too long"));
    }
    match EgdFile::from_bytes(bytes).to_compressed_data() {
        Ok(compressed) => decompress_checked(compressed),
        Err(error) => Err(error),
    }
}

/// The rows of a file of a compressed image.
pub fn load_and_decompress_igd(bytes: Vec<u8>) -> (result: Result<BitDataSet, EntroGdError>)
    ensures
        decompresses_to(within_limit(bytes@, read_image_file(bytes@)), result),
{
    if is_too_long(&bytes) {
        return Err(bad_metadata("file is too long"));
    }
    match IgdFile::from_bytes(bytes).to_compressed_data() {
        Ok(compressed) => decompress_checked(compressed),
        Err(error) => Err(error),
    }
}

/// The rows of a file of a compressed table.
pub fn load_and_decompress_tgd(bytes: Vec<u8>) -> (result: Result<BitDataSet, EntroGdError>)
    ensures
        decompresses_to(within_limit(bytes@, read_table_file(bytes@)), result),
{
    if is_too_long(&bytes) {
        return Err(bad_metadata("file is too long"));
    }
    match TgdFile::from_bytes(bytes).to_compressed_data() {
        Ok(compressed) => decompress_checked(compressed),
        Err(error) => Err(error),
    }
}

/// Whether a result is the image of decompressed rows.
pub open spec fn is_image_of(
    rows: Result<BitDataSet, EntroGdError>,
    result: Result<Vec<u8>, EntroGdError>,
) -> bool {
    match rows {
        Ok(set) => {
            &&& result is Ok <==> image_restorable(set)
            &&& result matches Ok(bytes) ==> set.info@.reconstruction
                matches ReconstructionView::Image(image) && bytes@ == restored_image(set.data, image)
            &&& result matches Err(error) ==> error is InvalidMetadata
        },
        Err(error) => result == Err::<Vec<u8>, EntroGdError>(error),
    }
}

/// The bytes of the image in a file of a compressed image.
pub fn decompress_igd_to_image(bytes: Vec<u8>) -> (result: Result<Vec<u8>, EntroGdError>)
    ensures
        exists|rows: Result<BitDataSet, EntroGdError>| #[trigger]
            decompresses_to(within_limit(bytes@, read_image_file(bytes@)), rows) && is_image_of(
                rows,
                result,
            ),
{
    let ghost read = within_limit(bytes@, read_image_file(bytes@));
    let rows = load_and_decompress_igd(bytes);
    assert(decompresses_to(read, rows));
    match rows {
        Ok(set) => restore_image(&set),
        Err(error) => Err(error),
    }
}

/// Whether a result is the table of decompressed rows.
pub open spec fn is_table_of(
    rows: Result<BitDataSet, EntroGdError>,
    result: Result<Vec<RestoredColumn>, EntroGdError>,
) -> bool {
    match rows {
        Ok(set) => {
            &&& result is Ok <==> is_table(set)
            &&& result matches Ok(columns) ==> {
                &&& columns@.len() == set.info@.features.len()
                &&& set.info@.reconstruction matches ReconstructionView::Tabular { names, types }
                    && (forall|f: int|
                    0 <= f < columns@.len() ==> (#[trigger] columns@[f]).name@ == names[f]
                        && columns@[f].data_type == types[f] && columns@[f].values@
                        == column_values(set, f))
            }
            &&& result matches Err(error) ==> error is InvalidMetadata
        },
        Err(error) => result == Err::<Vec<RestoredColumn>, EntroGdError>(error),
    }
}

/// The columns of the table in a file of a compressed table.
pub fn decompress_tgd_to_columns(bytes: Vec<u8>) -> (result: Result<
    Vec<RestoredColumn>,
    EntroGdError,
>)
    ensures
        exists|rows: Result<BitDataSet, EntroGdError>| #[trigger]
            decompresses_to(within_limit(bytes@, read_table_file(bytes@)), rows) && is_table_of(
                rows,
                result,
            ),
{
    let ghost read = within_limit(bytes@, read_table_file(bytes@));
    let rows = load_and_decompress_tgd(bytes);
    assert(decompresses_to(read, rows));
    match rows {
        Ok(set) => restore_columns(&set),
        Err(error) => Err(error),
    }
}

} // verus!
