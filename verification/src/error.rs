//! The errors of the library.
use vstd::prelude::*;

use crate::text::{append_text, decimal, numbered, two_numbers};

verus! {

/// What can go wrong while building, reading or decoding compressed data.
#[derive(Debug, PartialEq, Eq)]
pub enum EntroGdError {
    DataLoad { message: String },
    BitSliceLengthMismatch { expected: usize, actual: usize },
    DecompressionSampleMissing { sample_idx: usize },
    InvalidBaseId { base_id: usize, table_len: usize },
    InvalidMetadata { message: String },
    InvalidFeatureSpec { message: String },
    InvalidDataType { message: String },
}

/// The text that describes an error to a reader.
pub open spec fn error_text(error: EntroGdError) -> Seq<char> {
    match error {
        EntroGdError::DataLoad { message } => "Data load error: "@ + message@,
        EntroGdError::BitSliceLengthMismatch { expected, actual } => {
            "Bit slice length mismatch (expected "@ + decimal(expected as nat) + ", got "@ + decimal(
                actual as nat,
            ) + ")"@
        },
        EntroGdError::DecompressionSampleMissing { sample_idx } => {
            "Failed to retrieve sample at index "@ + decimal(sample_idx as nat)
        },
        EntroGdError::InvalidBaseId { base_id, table_len } => {
            "Invalid base ID: "@ + decimal(base_id as nat) + " (base table has "@ + decimal(
                table_len as nat,
            ) + " entries)"@
        },
        EntroGdError::InvalidMetadata { message } => "Invalid compression metadata: "@ + message@,
        EntroGdError::InvalidFeatureSpec { message } => {
            "Invalid feature specification: "@ + message@
        },
        EntroGdError::InvalidDataType { message } => "Invalid data type: "@ + message@,
    }
}

impl EntroGdError {
    /// The description of the error.
    pub fn describe(&self) -> (text: String)
        ensures
            text@ == error_text(*self),
    {
        match self {
            EntroGdError::DataLoad { message } => labelled("Data load error: ", message),
            EntroGdError::BitSliceLengthMismatch { expected, actual } => {
                let mut text = two_numbers(
                    "Bit slice length mismatch (expected ",
                    *expected,
                    ", got ",
                    *actual,
                );
                append_text(&mut text, ")");
                text
            },
            EntroGdError::DecompressionSampleMissing { sample_idx } => numbered(
                "Failed to retrieve sample at index ",
                *sample_idx,
            ),
            EntroGdError::InvalidBaseId { base_id, table_len } => {
                let mut text = two_numbers(
                    "Invalid base ID: ",
                    *base_id,
                    " (base table has ",
                    *table_len,
                );
                append_text(&mut text, " entries)");
                text
            },
            EntroGdError::InvalidMetadata { message } => labelled(
                "Invalid compression metadata: ",
                message,
            ),
            EntroGdError::InvalidFeatureSpec { message } => labelled(
                "Invalid feature specification: ",
                message,
            ),
            EntroGdError::InvalidDataType { message } => labelled("Invalid data type: ", message),
        }
    }
}

fn labelled(label: &str, message: &String) -> (text: String)
    ensures
        text@ == label@ + message@,
{
    let mut text = label.to_owned();
    append_text(&mut text, message.as_str());
    text
}

/// The error for metadata that contradicts itself or the data it describes.
pub(crate) fn bad_metadata(message: &str) -> (error: EntroGdError)
    ensures
        error is InvalidMetadata,
        error->InvalidMetadata_message@ == message@,
{
    EntroGdError::InvalidMetadata { message: message.to_owned() }
}

/// The error for a feature list that no dataset can have.
pub(crate) fn bad_features(message: &str) -> (error: EntroGdError)
    ensures
        error is InvalidFeatureSpec,
        error->InvalidFeatureSpec_message@ == message@,
{
    EntroGdError::InvalidFeatureSpec { message: message.to_owned() }
}

} // verus!
