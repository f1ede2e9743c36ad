//! The compression pipeline.
use vstd::prelude::*;

use crate::base_bits::BaseBitGroups;
use crate::base_table::PreEncodeContext;
use crate::base_table_builder::{has_constants, row_matches_own_base};
use crate::bits::{join, join_push, BitStream, MAX_STREAM_BITS};
use crate::dataset::{row_in_bounds, with_padding, BitData, BitDataSet};
use crate::decompression::{base_number, bases, decodes, original_rows, restored_row, widths_agree};
use crate::decompression_rows::{row_at, single_row_is_given_back};
use crate::encoding::compressed::{CompressedData, CondensedSamples, EncodedView};
use crate::encoding::deviation::encoded_rows;
use crate::entropy::{calculate_entropy, scores};
use crate::pipeline::compress::{
    compress_rows, flat_bits_hold, gives_back, has_flat_bits, is_compressed, rows_hold_flat_bits,
    tells_bits_apart,
};
use crate::pipeline::interface::CompressionParams;

verus! {

/// Rows with their padding, which is clear.
pub open spec fn padded_samples(samples: Seq<BitStream>, stride: nat) -> Seq<Seq<bool>> {
    Seq::new(samples.len(), |k: int| with_padding(samples[k]@, stride))
}

/// Whether a dataset holds the rows of another one, and behind them further rows.
pub open spec fn extends(set: BitDataSet, before: BitDataSet, samples: Seq<BitStream>) -> bool {
    &&& set.valid()
    &&& set.data.data@.len() == set.data.num_rows * set.data.stride
    &&& set.data.data@ == before.data.data@.take(before.data.num_rows * before.data.stride) + join(
        padded_samples(samples, before.data.stride as nat),
    )
    &&& set.info == before.info
    &&& set.data.chunk_size == before.data.chunk_size
    &&& set.data.stride == before.data.stride
    &&& set.data.num_rows == before.data.num_rows + samples.len()
    &&& forall|row: int|
        0 <= row < before.data.num_rows ==> #[trigger] set.data.row(row) == before.data.row(row)
    &&& forall|k: int|
        0 <= k < samples.len() ==> set.data.row(before.data.num_rows + k) == (
        #[trigger] samples[k])@
}

/// Whether rows of the width of a dataset can be put behind its own.
pub open spec fn can_extend(set: BitDataSet, samples: Seq<BitStream>) -> bool {
    &&& set.valid()
    &&& (set.data.num_rows + samples.len()) * set.data.stride <= MAX_STREAM_BITS
    &&& set.data.num_rows + samples.len() <= usize::MAX
    &&& forall|k: int|
        0 <= k < samples.len() ==> (#[trigger] samples[k])@.len() == set.data.chunk_size
}

/// Rows stay where they are when bits are put behind them, and these are the next row.
proof fn row_is_added(before: BitData, after: BitData, bits: Seq<bool>)
    requires
        before.valid(),
        before.data@.len() == before.num_rows * before.stride,
        after.chunk_size == before.chunk_size == bits.len(),
        after.stride == before.stride,
        after.num_rows == before.num_rows + 1,
        after.data@ == before.data@ + with_padding(bits, before.stride as nat),
    ensures
        forall|row: int|
            0 <= row < before.num_rows ==> #[trigger] after.row(row) == before.row(row),
        after.row(before.num_rows as int) == bits,
{
    assert forall|row: int| 0 <= row < before.num_rows implies #[trigger] after.row(row)
        == before.row(row) by {
        row_in_bounds(
            row,
            before.num_rows as int,
            before.stride as int,
            before.chunk_size as int,
        );
        assert(after.row(row) =~= before.row(row));
    }
    assert(after.row(before.num_rows as int) =~= bits);
}

/// Puts further rows behind those of a dataset.
pub fn extend_rows(set: BitDataSet, samples: &Vec<BitStream>) -> (more: BitDataSet)
    requires
        can_extend(set, samples@),
    ensures
        extends(more, set, samples@),
{
    let ghost before = set;
    let mut data = set.data;
    let stored: usize = data.data.bit_len();
    let whole: usize = data.num_rows * data.stride;
    if whole < stored {
        data.data = data.data.copy_range(0, whole);
    }
    proof {
        assert forall|row: int| 0 <= row < before.data.num_rows implies #[trigger] data.row(row)
            == before.data.row(row) by {
            row_in_bounds(
                row,
                before.data.num_rows as int,
                before.data.stride as int,
                before.data.chunk_size as int,
            );
            assert(data.row(row) =~= before.data.row(row));
        }
    }
    let ghost first = before.data.data@.take(before.data.num_rows * before.data.stride);
    let ghost parts = padded_samples(samples@, before.data.stride as nat);
    let mut k: usize = 0;
    proof {
        assert(parts.take(0) =~= Seq::empty());
        assert(data.data@ =~= first + join(parts.take(0)));
    }
    while k < samples.len()
        invariant
            k <= samples@.len(),
            can_extend(before, samples@),
            data.valid(),
            data.data@.len() == data.num_rows * data.stride,
            data.chunk_size == before.data.chunk_size,
            data.stride == before.data.stride,
            data.num_rows == before.data.num_rows + k,
            first == before.data.data@.take(before.data.num_rows * before.data.stride),
            parts == padded_samples(samples@, before.data.stride as nat),
            data.data@ == first + join(parts.take(k as int)),
            forall|row: int|
                0 <= row < before.data.num_rows ==> #[trigger] data.row(row) == before.data.row(row),
            forall|j: int|
                0 <= j < k ==> data.row(before.data.num_rows + j) == (#[trigger] samples@[j])@,
        decreases samples@.len() - k,
    {
        let ghost so_far = data;
        proof {
            let rows = data.num_rows as int;
            let all = before.data.num_rows + samples@.len();
            let stride = data.stride as int;
            assert((rows + 1) * stride == rows * stride + stride) by (nonlinear_arith);
            assert((rows + 1) * stride <= all * stride) by (nonlinear_arith)
                requires
                    rows + 1 <= all,
                    0 <= stride,
            ;
        }
        let added = data.extend_from_bitslice(&samples[k]);
        proof {
            assert(added is Ok);
            row_is_added(so_far, data, samples@[k as int]@);
            assert(parts.take(k as int + 1) =~= parts.take(k as int).push(parts[k as int]));
            join_push(parts.take(k as int), parts[k as int]);
            assert(data.data@ =~= first + join(parts.take(k as int + 1)));
        }
        k += 1;
    }
    assert(parts.take(k as int) =~= parts);
    BitDataSet { data, info: set.info }
}

/// The condensed rows that take part in a compression.
pub open spec fn used_samples(params: CompressionParams, samples: Seq<BitStream>) -> Seq<BitStream> {
    if params.enable_condensed_samples && params.condensed_sample_max_bases > 0 {
        samples
    } else {
        Seq::empty()
    }
}

/// The weights of the condensed rows that take part in a compression.
pub open spec fn used_weights(params: CompressionParams, weights: Seq<usize>) -> Option<Seq<usize>> {
    if !params.enable_condensed_samples {
        None
    } else if params.condensed_sample_max_bases > 0 {
        Some(weights)
    } else {
        Some(Seq::empty())
    }
}

/// Whether a dataset can be compressed together with condensed rows.
pub open spec fn can_compress_with(
    params: CompressionParams,
    bit_data: BitDataSet,
    samples: Seq<BitStream>,
) -> bool {
    let used = used_samples(params, samples);
    let data = bit_data.data;
    &&& can_extend(bit_data, used)
    &&& (data.num_rows + used.len()) * (2 * data.chunk_size + 64) <= MAX_STREAM_BITS
    &&& data.chunk_size <= MAX_STREAM_BITS
}

/// Whether compressed data is that of a dataset and the condensed rows behind it, and keeps their
/// weights.
pub open spec fn is_compressed_with(
    data: CompressedData,
    plain: CompressedData,
    all: BitDataSet,
    params: CompressionParams,
    bit_data: BitDataSet,
    condensed: CondensedSamples,
    score_of_count: Seq<u64>,
) -> bool {
    &&& extends(all, bit_data, used_samples(params, condensed.samples@))
    &&& exists|context: PreEncodeContext, groups: BaseBitGroups| #[trigger]
        is_compressed(
            plain,
            context,
            groups,
            all,
            scores(bit_data.data, score_of_count),
            params.base_optimization_patience as nat,
        )
    &&& data@.encoded == plain@.encoded
    &&& data@.base_table == plain@.base_table
    &&& data@.layout == plain@.layout
    &&& data@.order == plain@.order
    &&& data@.metadata == plain@.metadata
    &&& data@.weights == used_weights(params, condensed.weights@)
}

/// A compression pipeline with its settings.
#[derive(Debug, Clone, Copy, PartialEq, Eq, Structural)]
pub struct CompressionPipeline {
    pub params: CompressionParams,
}

impl CompressionPipeline {
    /// A pipeline with the given settings.
    pub fn new(params: CompressionParams) -> (pipeline: CompressionPipeline)
        ensures
            pipeline.params == params,
    {
        CompressionPipeline { params }
    }

    /// The settings.
    pub fn params(&self) -> (params: &CompressionParams)
        ensures
            *params == self.params,
    {
        &self.params
    }

    /// Compresses a dataset. Bits are chosen by their entropy in the dataset; the condensed rows,
    /// where the settings ask for them, are encoded behind its own rows and count in the choice.
    /// All rows of the dataset come out again when the result is decompressed.
    pub fn compress(
        &self,
        bit_data: BitDataSet,
        score_of_count: &Vec<u64>,
        condensed: CondensedSamples,
    ) -> (data: CompressedData)
        requires
            can_compress_with(self.params, bit_data, condensed.samples@),
            tells_bits_apart(score_of_count@, bit_data.data.num_rows as nat),
        ensures
            data.valid(),
            exists|plain: CompressedData, all: BitDataSet| #[trigger]
                is_compressed_with(
                    data,
                    plain,
                    all,
                    self.params,
                    bit_data,
                    condensed,
                    score_of_count@,
                ),
            original_rows(data@) <= bit_data.data.num_rows ==> gives_back(data@, bit_data.data),
    {
        let ghost set = bit_data;
        let ghost entries = scores(set.data, score_of_count@);
        let ghost given = condensed;
        let entropy = calculate_entropy(&bit_data, score_of_count);
        let makes = self.params.makes_condensed_samples();
        let mut samples: Vec<BitStream> = Vec::new();
        let mut weights: Vec<usize> = Vec::new();
        if makes {
            samples = condensed.samples;
            weights = condensed.weights;
        }
        assert(samples@ =~= used_samples(self.params, given.samples@));
        let all = extend_rows(bit_data, &samples);
        let ghost kept = all;
        let plain = compress_rows(all, &entropy, self.params.base_optimization_patience);
        let ghost before = plain;
        let mut data = plain;
        data.condensed_sample_weights = self.params.kept_weights(weights);
        proof {
            assert(data@.weights =~= used_weights(self.params, given.weights@));
            assert(is_compressed_with(
                data,
                before,
                kept,
                self.params,
                set,
                given,
                score_of_count@,
            ));
            let n = original_rows(data@) as int;
            if n <= set.data.num_rows {
                rows_hold_flat_bits(set.data, score_of_count@);
                assert(flat_bits_hold(set.data, entries, n));
                assert forall|row: int| 0 <= row < n implies #[trigger] has_flat_bits(
                    kept.data,
                    entries,
                    row,
                ) by {
                    assert(has_flat_bits(set.data, entries, row));
                    assert(kept.data.row(0) == set.data.row(0));
                    assert(kept.data.row(row) == set.data.row(row));
                }
                assert(gives_back(before@, kept.data));
                assert(bases(data@) == bases(before@));
                assert(decodes(data@)) by {
                    assert(decodes(before@));
                    assert(widths_agree(data@));
                    assert forall|s: int| 0 <= s < n implies (
                    #[trigger] data@.encoded.row_in_sequence(s)) is Some && base_number(data@, s)
                        < bases(data@).len() by {
                        assert(before@.encoded.row_in_sequence(s) is Some);
                        assert(base_number(before@, s) == base_number(data@, s));
                    }
                }
                assert forall|s: int| 0 <= s < n implies #[trigger] restored_row(data@, s)
                    == set.data.row(s) by {
                    assert(restored_row(before@, s) == kept.data.row(s));
                }
            }
        }
        data
    }
}

/// A condensed row that takes part in a compression can be had by itself from the result, where it
/// has the bits that are the same in all rows.
pub proof fn condensed_row_is_given_back(
    data: CompressedData,
    plain: CompressedData,
    all: BitDataSet,
    params: CompressionParams,
    bit_data: BitDataSet,
    condensed: CondensedSamples,
    score_of_count: Seq<u64>,
    k: int,
)
    requires
        is_compressed_with(data, plain, all, params, bit_data, condensed, score_of_count),
        0 <= k < used_samples(params, condensed.samples@).len(),
        has_flat_bits(
            all.data,
            scores(bit_data.data, score_of_count),
            bit_data.data.num_rows + k,
        ),
    ensures
        row_at(data@, bit_data.data.num_rows + k) == Some(
            used_samples(params, condensed.samples@)[k]@,
        ),
{
    let entries = scores(bit_data.data, score_of_count);
    let patience = params.base_optimization_patience as nat;
    let s = bit_data.data.num_rows + k;
    let (context, groups) = choose|context: PreEncodeContext, groups: BaseBitGroups| #[trigger]
        is_compressed(plain, context, groups, all, entries, patience);
    let encoded = EncodedView::Normal(encoded_rows(context));
    assert(has_constants(all.data, groups, s));
    row_matches_own_base(all.data, groups, s);
    assert(context.row_to_base_id@[s] == groups.row_to_id@[s]);
    single_row_is_given_back(context, encoded, s);
    assert(bases(data@) == bases(plain@));
    assert(row_at(data@, s) == row_at(plain@, s));
    assert(all.data.row(s) == used_samples(params, condensed.samples@)[k]@);
}

/// There is a weight for each condensed row that takes part, and weights are kept just where condensed
/// rows are asked for; where none may be made, none takes part.
pub proof fn used_rows_have_weights(
    params: CompressionParams,
    samples: Seq<BitStream>,
    weights: Seq<usize>,
)
    requires
        samples.len() == weights.len(),
    ensures
        used_weights(params, weights) is Some <==> params.enable_condensed_samples,
        used_weights(params, weights) matches Some(kept) ==> kept.len() == used_samples(
            params,
            samples,
        ).len(),
        used_weights(params, weights) is None ==> used_samples(params, samples).len() == 0,
        params.condensed_sample_max_bases == 0 ==> used_samples(params, samples).len() == 0,
        used_samples(params, samples).len() > 0 ==> used_samples(params, samples) == samples
            && used_weights(params, weights) == Some(weights),
        params.enable_condensed_samples && params.condensed_sample_max_bases > 0 ==> used_samples(
            params,
            samples,
        ).len() == samples.len(),
{
}

} // verus!
