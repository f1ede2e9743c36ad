//! The condensed rows of compressed data, without the other rows.
use vstd::prelude::*;

use crate::bits::MAX_STREAM_BITS;
use crate::data::copy_sizes;
use crate::decompression::{original_rows, widths_agree};
use crate::decompression_rows::{decompress_rows, is_row_fault, row_at};
use crate::encoding::compressed::{CompressedData, CompressedView, CondensedSamples};
use crate::error::EntroGdError;

verus! {

/// The weights of the condensed rows, of which there may be none.
pub open spec fn weights_of(data: CompressedView) -> Seq<usize> {
    match data.weights {
        Some(weights) => weights,
        None => Seq::empty(),
    }
}

/// Where the condensed rows are: one for each weight, behind the original rows.
pub open spec fn condensed_indices(data: CompressedView) -> Seq<usize> {
    Seq::new(weights_of(data).len(), |k: int| (original_rows(data) + k) as usize)
}

/// The condensed rows of compressed data and how many rows each of them stands for. No other row is
/// put together.
pub fn decompress_analytics(compressed: &CompressedData) -> (result: Result<
    CondensedSamples,
    EntroGdError,
>)
    requires
        compressed.valid(),
        compressed@.layout.len() <= MAX_STREAM_BITS,
        original_rows(compressed@) + weights_of(compressed@).len() <= usize::MAX,
    ensures
        result is Ok <==> widths_agree(compressed@) && (forall|k: int|
            0 <= k < weights_of(compressed@).len() ==> (#[trigger] row_at(
                compressed@,
                original_rows(compressed@) + k,
            )) is Some),
        result matches Ok(condensed) ==> {
            &&& condensed.weights@ == weights_of(compressed@)
            &&& condensed.samples@.len() == condensed.weights@.len()
            &&& forall|k: int|
                0 <= k < condensed.samples@.len() ==> row_at(
                    compressed@,
                    original_rows(compressed@) + k,
                ) == Some((#[trigger] condensed.samples@[k])@)
        },
        result matches Err(error) ==> is_row_fault(
            compressed@,
            condensed_indices(compressed@),
            error,
        ),
{
    let ghost data = compressed@;
    let weights: Vec<usize> = match &compressed.condensed_sample_weights {
        Some(weights) => copy_sizes(weights),
        None => Vec::new(),
    };
    assert(weights@ =~= weights_of(data));
    let first: usize = compressed.metadata.n_data_samples();
    assert(first == original_rows(data));
    let mut indices: Vec<usize> = Vec::new();
    let mut k: usize = 0;
    while k < weights.len()
        invariant
            k <= weights@.len(),
            weights@ == weights_of(data),
            first == original_rows(data),
            first + weights@.len() <= usize::MAX,
            indices@ == condensed_indices(data).take(k as int),
        decreases weights@.len() - k,
    {
        indices.push(first + k);
        k += 1;
    }
    assert(indices@ =~= condensed_indices(data));
    match decompress_rows(compressed, &indices) {
        Ok(samples) => {
            proof {
                assert forall|j: int| 0 <= j < samples@.len() implies row_at(
                    data,
                    original_rows(data) + j,
                ) == Some((#[trigger] samples@[j])@) by {
                    assert(indices@[j] == original_rows(data) + j);
                }
                assert forall|j: int| 0 <= j < weights@.len() implies (#[trigger] row_at(
                    data,
                    original_rows(data) + j,
                )) is Some by {
                    assert(row_at(data, original_rows(data) + j) == Some(samples@[j]@));
                }
            }
            Ok(CondensedSamples { samples, weights })
        },
        Err(error) => {
            proof {
                if widths_agree(data) && (forall|j: int|
                    0 <= j < weights_of(data).len() ==> (#[trigger] row_at(
                        data,
                        original_rows(data) + j,
                    )) is Some) {
                    assert forall|i: int| 0 <= i < indices@.len() implies row_at(
                        data,
                        #[trigger] indices@[i] as int,
                    ) is Some by {
                        assert(row_at(data, original_rows(data) + i) is Some);
                    }
                }
            }
            Err(error)
        },
    }
}

} // verus!
