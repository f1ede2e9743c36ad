//! The tags that mark variants in files.
use vstd::prelude::*;

use crate::data::FeatureDataType;
use crate::error::EntroGdError;
use crate::text::numbered;

verus! {

/// Rows as symbols of one width.
pub const ENCODING_TAG_NORMAL: u8 = 0;

/// Rows as runs, with group starts.
pub const ENCODING_TAG_RLE_OFFSET: u8 = 2;

/// Rows with base numbers in prefix codes.
pub const ENCODING_TAG_HUFFMAN_BASE_ID_ONLY: u8 = 3;

/// A base table row by row.
pub const BASE_TABLE_TAG_RAW: u8 = 0;

/// A base table as differences with unary prefixes.
pub const BASE_TABLE_TAG_DELTA_UNARY: u8 = 1;

/// A base table as differences with fixed prefixes.
pub const BASE_TABLE_TAG_DELTA_FIXED: u8 = 2;

/// The tag of a storage type; that of an odd width leaves the width out.
pub open spec fn type_tag(data_type: FeatureDataType) -> u8 {
    match data_type {
        FeatureDataType::Int8 => 0,
        FeatureDataType::Int16 => 1,
        FeatureDataType::Int32 => 2,
        FeatureDataType::Int64 => 3,
        FeatureDataType::UInt8 => 4,
        FeatureDataType::UInt16 => 5,
        FeatureDataType::UInt32 => 6,
        FeatureDataType::UInt64 => 7,
        FeatureDataType::Float16 => 8,
        FeatureDataType::Float32 => 9,
        FeatureDataType::Float64 => 10,
        FeatureDataType::UInt(bits) => 11,
    }
}

/// The storage type of a tag, where there is one; that of an odd width has the given one.
pub open spec fn tagged_type(tag: u8, bits: u16) -> Option<FeatureDataType> {
    match tag {
        0 => Some(FeatureDataType::Int8),
        1 => Some(FeatureDataType::Int16),
        2 => Some(FeatureDataType::Int32),
        3 => Some(FeatureDataType::Int64),
        4 => Some(FeatureDataType::UInt8),
        5 => Some(FeatureDataType::UInt16),
        6 => Some(FeatureDataType::UInt32),
        7 => Some(FeatureDataType::UInt64),
        8 => Some(FeatureDataType::Float16),
        9 => Some(FeatureDataType::Float32),
        10 => Some(FeatureDataType::Float64),
        11 => Some(FeatureDataType::UInt(bits)),
        _ => None,
    }
}

/// The storage type of a tag and a width. A feature has the width that is stored with it: where the
/// type of the tag has another one, the feature is a number of that odd width.
pub open spec fn typed(tag: u8, bits: nat) -> Option<FeatureDataType> {
    match tagged_type(tag, bits as u16) {
        Some(data_type) => if data_type.width() == bits {
            Some(data_type)
        } else {
            Some(FeatureDataType::UInt(bits as u16))
        },
        None => None,
    }
}

/// The tag of a storage type.
pub fn encode_data_type(data_type: FeatureDataType) -> (tag: u8)
    ensures
        tag == type_tag(data_type),
{
    match data_type {
        FeatureDataType::Int8 => 0,
        FeatureDataType::Int16 => 1,
        FeatureDataType::Int32 => 2,
        FeatureDataType::Int64 => 3,
        FeatureDataType::UInt8 => 4,
        FeatureDataType::UInt16 => 5,
        FeatureDataType::UInt32 => 6,
        FeatureDataType::UInt64 => 7,
        FeatureDataType::Float16 => 8,
        FeatureDataType::Float32 => 9,
        FeatureDataType::Float64 => 10,
        FeatureDataType::UInt(_) => 11,
    }
}

/// The storage type of a tag and a width.
pub fn decode_data_type(tag: u8, bits: u16) -> (result: Result<FeatureDataType, EntroGdError>)
    ensures
        match typed(tag, bits as nat) {
            Some(data_type) => result == Ok::<FeatureDataType, EntroGdError>(data_type),
            None => result matches Err(error) && error is InvalidMetadata,
        },
{
    let data_type: FeatureDataType = match tag {
        0 => FeatureDataType::Int8,
        1 => FeatureDataType::Int16,
        2 => FeatureDataType::Int32,
        3 => FeatureDataType::Int64,
        4 => FeatureDataType::UInt8,
        5 => FeatureDataType::UInt16,
        6 => FeatureDataType::UInt32,
        7 => FeatureDataType::UInt64,
        8 => FeatureDataType::Float16,
        9 => FeatureDataType::Float32,
        10 => FeatureDataType::Float64,
        11 => FeatureDataType::UInt(bits),
        _ => {
            return Err(
                EntroGdError::InvalidMetadata {
                    message: numbered("unsupported feature data type tag ", tag as usize),
                },
            );
        },
    };
    if data_type.bits() != bits as usize {
        return Ok(FeatureDataType::UInt(bits));
    }
    Ok(data_type)
}

} // verus!
