//! Files as steps of a pipeline.
use vstd::prelude::*;

use crate::bits::MAX_STREAM_BITS;
use crate::data::ReconstructionView;
use crate::encoding::compressed::CompressedData;
use crate::error::EntroGdError;
use crate::file_format::egd::{file_bytes, read_file, shape_of, writes, EgdFile};
use crate::file_format::egd_rows::encoded_fits;
use crate::file_format::igd::{image_file_bytes, read_image_file, IgdFile};
use crate::file_format::tgd::{names_fit, read_table_file, table_file_bytes, TgdFile};
use crate::filter_pipeline::Filter;

verus! {

/// Turns compressed data into a file of compressed rows.
pub struct SaveEgdFile {}

impl Filter for SaveEgdFile {
    type Input = CompressedData;

    type Output = EgdFile;

    open spec fn admits(&self, input: CompressedData) -> bool {
        &&& input.valid()
        &&& 2 * input@.layout.len() <= MAX_STREAM_BITS
        &&& encoded_fits(input@.encoded, shape_of(input@).width())
    }

    open spec fn yields(&self, input: CompressedData, result: Result<EgdFile, EntroGdError>) -> bool {
        &&& result is Ok <==> writes(input@)
        &&& (result matches Ok(file) ==> file@ == file_bytes(input@))
        &&& (result matches Err(error) ==> error is InvalidMetadata)
    }

    fn process(&self, input: CompressedData) -> (result: Result<EgdFile, EntroGdError>) {
        EgdFile::from_compressed_data(input)
    }
}

/// Reads compressed data from a file of compressed rows.
pub struct LoadEgdFile {}

impl Filter for LoadEgdFile {
    type Input = EgdFile;

    type Output = CompressedData;

    open spec fn admits(&self, input: EgdFile) -> bool {
        8 * input@.len() <= MAX_STREAM_BITS
    }

    open spec fn yields(&self, input: EgdFile, result: Result<CompressedData, EntroGdError>) -> bool {
        match read_file(input@) {
            Some(data) => result matches Ok(found) && found@ == data && found.valid(),
            None => result matches Err(error) && error is InvalidMetadata,
        }
    }

    fn process(&self, input: EgdFile) -> (result: Result<CompressedData, EntroGdError>) {
        input.to_compressed_data()
    }
}

/// Turns compressed data into a file of a compressed image.
pub struct SaveIgdFile {}

impl Filter for SaveIgdFile {
    type Input = CompressedData;

    type Output = IgdFile;

    open spec fn admits(&self, input: CompressedData) -> bool {
        &&& input.valid()
        &&& 2 * input@.layout.len() <= MAX_STREAM_BITS
        &&& encoded_fits(input@.encoded, shape_of(input@).width())
    }

    open spec fn yields(&self, input: CompressedData, result: Result<IgdFile, EntroGdError>) -> bool {
        &&& result is Ok <==> input@.metadata.reconstruction is Image && writes(input@)
        &&& (result matches Ok(file) ==> file@ == image_file_bytes(
            input@.metadata.reconstruction->Image_0,
            input@,
        ))
        &&& (result matches Err(error) ==> error is InvalidMetadata)
    }

    fn process(&self, input: CompressedData) -> (result: Result<IgdFile, EntroGdError>) {
        IgdFile::from_compressed_data(input)
    }
}

/// Reads compressed data from a file of a compressed image.
pub struct LoadIgdFile {}

impl Filter for LoadIgdFile {
    type Input = IgdFile;

    type Output = CompressedData;

    open spec fn admits(&self, input: IgdFile) -> bool {
        8 * input@.len() <= MAX_STREAM_BITS
    }

    open spec fn yields(&self, input: IgdFile, result: Result<CompressedData, EntroGdError>) -> bool {
        match read_image_file(input@) {
            Some(data) => result matches Ok(found) && found@ == data && found.valid(),
            None => result matches Err(error) && error is InvalidMetadata,
        }
    }

    fn process(&self, input: IgdFile) -> (result: Result<CompressedData, EntroGdError>) {
        input.to_compressed_data()
    }
}

/// Turns compressed data into a file of a compressed table.
pub struct SaveTgdFile {}

impl Filter for SaveTgdFile {
    type Input = CompressedData;

    type Output = TgdFile;

    open spec fn admits(&self, input: CompressedData) -> bool {
        &&& input.valid()
        &&& 2 * input@.layout.len() <= MAX_STREAM_BITS
        &&& encoded_fits(input@.encoded, shape_of(input@).width())
    }

    open spec fn yields(&self, input: CompressedData, result: Result<TgdFile, EntroGdError>) -> bool {
        &&& match input@.metadata.reconstruction {
            ReconstructionView::Tabular { names, types } => {
                let count = input@.metadata.features.len();
                &&& result is Ok <==> names.len() == count && types.len() == count && writes(
                    input@,
                ) && names_fit(names)
                &&& (result matches Ok(file) ==> file@ == table_file_bytes(names, types, input@))
            },
            ReconstructionView::Image(info) => result is Err,
        }
        &&& (result matches Err(error) ==> error is InvalidMetadata)
    }

    fn process(&self, input: CompressedData) -> (result: Result<TgdFile, EntroGdError>) {
        TgdFile::from_compressed_data(input)
    }
}

/// Reads compressed data from a file of a compressed table.
pub struct LoadTgdFile {}

impl Filter for LoadTgdFile {
    type Input = TgdFile;

    type Output = CompressedData;

    open spec fn admits(&self, input: TgdFile) -> bool {
        8 * input@.len() <= MAX_STREAM_BITS
    }

    open spec fn yields(&self, input: TgdFile, result: Result<CompressedData, EntroGdError>) -> bool {
        match read_table_file(input@) {
            Some(data) => result matches Ok(found) && found@ == data && found.valid(),
            None => result matches Err(error) && error is InvalidMetadata,
        }
    }

    fn process(&self, input: TgdFile) -> (result: Result<CompressedData, EntroGdError>) {
        input.to_compressed_data()
    }
}

} // verus!
