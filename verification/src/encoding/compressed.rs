//! Compressed data: encoded rows with the base table and the layout that belong to them.
use vstd::prelude::*;

use crate::base_table::{
    copy_rows, table_view, BaseBitLayoutState, BaseLayoutInfo, PreEncodeContext,
};
use crate::bits::{join, BitStream, MAX_STREAM_BITS};
use crate::data::{copy_sizes, features_width, weights_view, BitDataInfo, InfoView};
use crate::encoding::delta_table::{DeltaBaseTableData, DeltaView};
use crate::encoding::deviation::{DeviationData, DeviationSample, DeviationView, SampleView};
use crate::encoding::huffman_data::{decoded_prefix, HuffmanDeviationData, HuffmanView};
use crate::encoding::rle::control_stream;
use crate::encoding::rle_data::{
    available, complete, expands_to, offset_bits, row_from, sample_view, RleDeviationData,
    RleDeviationOffsetData, RleOffsetView, RleView,
};
use crate::error::EntroGdError;

verus! {

/// Encoded rows in one of the encodings.
#[derive(Debug, PartialEq, Eq)]
pub enum EncodedData {
    Normal(DeviationData),
    Rle(RleDeviationData),
    RleOffset(RleDeviationOffsetData),
    Huffman(HuffmanDeviationData),
}

/// The content of encoded rows.
#[verifier::ext_equal]
pub enum EncodedView {
    Normal(DeviationView),
    Rle(RleView),
    RleOffset(RleOffsetView),
    Huffman(HuffmanView),
}

impl View for EncodedData {
    type V = EncodedView;

    open spec fn view(&self) -> EncodedView {
        match *self {
            EncodedData::Normal(data) => EncodedView::Normal(data@),
            EncodedData::Rle(data) => EncodedView::Rle(data@),
            EncodedData::RleOffset(data) => EncodedView::RleOffset(data@),
            EncodedData::Huffman(data) => EncodedView::Huffman(data@),
        }
    }
}

impl EncodedView {
    /// The number of rows.
    pub open spec fn num_samples(self) -> nat {
        match self {
            EncodedView::Normal(data) => data.num_samples,
            EncodedView::Rle(data) => data.num_samples,
            EncodedView::RleOffset(data) => data.num_samples,
            EncodedView::Huffman(data) => data.num_samples,
        }
    }

    /// The width of the deviation part of a row.
    pub open spec fn num_deviation_bits(self) -> nat {
        match self {
            EncodedView::Normal(data) => data.num_deviation_bits,
            EncodedView::Rle(data) => data.num_deviation_bits,
            EncodedView::RleOffset(data) => data.num_deviation_bits,
            EncodedView::Huffman(data) => data.num_deviation_bits,
        }
    }

    /// The width of a base number.
    pub open spec fn num_id_bits(self) -> nat {
        match self {
            EncodedView::Normal(data) => data.num_id_bits,
            EncodedView::Rle(data) => data.num_id_bits,
            EncodedView::RleOffset(data) => data.num_id_bits,
            EncodedView::Huffman(data) => data.num_id_bits,
        }
    }

    /// The stream that holds the base numbers.
    pub open spec fn stream(self) -> Seq<bool> {
        match self {
            EncodedView::Normal(data) => data.bits,
            EncodedView::Rle(data) => data.symbols,
            EncodedView::RleOffset(data) => data.symbols,
            EncodedView::Huffman(data) => data.pixels,
        }
    }

    /// The size of the encoded rows in bits.
    pub open spec fn encoded_size(self) -> nat {
        match self {
            EncodedView::Normal(data) => data.bits.len(),
            EncodedView::Rle(data) => data.symbols.len() + control_stream(data.pairs).len(),
            EncodedView::RleOffset(data) => 64 + offset_bits(data.row_offsets).len()
                + control_stream(data.pairs).len() + data.symbols.len(),
            EncodedView::Huffman(data) => data.encoded_size(),
        }
    }

    /// The row at an index, decoded by itself.
    pub open spec fn sample(self, index: int) -> Option<SampleView> {
        match self {
            EncodedView::Normal(data) => if index < data.num_samples {
                Some(data.sample(index))
            } else {
                None
            },
            EncodedView::Rle(data) => data.sample(index),
            EncodedView::RleOffset(data) => data.sample(index),
            EncodedView::Huffman(data) => data.sample(index),
        }
    }

    /// The row at an index, decoded from the first row on.
    pub open spec fn row_in_sequence(self, index: int) -> Option<SampleView> {
        match self {
            EncodedView::Normal(data) => Some(data.sample(index)),
            EncodedView::Rle(data) => row_from(
                data.symbols,
                data.pairs,
                0,
                index,
                data.num_deviation_bits,
                data.num_id_bits,
            ),
            EncodedView::RleOffset(data) => row_from(
                data.symbols,
                data.pairs,
                0,
                index,
                data.num_deviation_bits,
                data.num_id_bits,
            ),
            EncodedView::Huffman(data) => match data.ids(0, (index + 1) as nat) {
                Some((ids, at)) => Some(data.row_with(index, ids.last())),
                None => None,
            },
        }
    }

    /// Whether the rows can be written out as symbols of one width.
    pub open spec fn has_plain_rows(self) -> bool {
        let size = self.num_samples() * (self.num_deviation_bits() + self.num_id_bits());
        match self {
            EncodedView::Normal(data) => true,
            EncodedView::Rle(data) => size <= usize::MAX && complete(
                data.symbols,
                data.pairs,
                data.num_samples,
                data.symbol_width(),
            ),
            EncodedView::RleOffset(data) => size <= usize::MAX && complete(
                data.symbols,
                data.pairs,
                data.num_samples,
                data.symbol_width(),
            ),
            EncodedView::Huffman(data) => size <= usize::MAX && data.ids(0, data.num_samples) is Some,
        }
    }

    /// Whether symbols of one width are the rows written out.
    pub open spec fn has_plain(self, plain: DeviationView) -> bool {
        &&& plain.num_samples == self.num_samples()
        &&& plain.num_deviation_bits == self.num_deviation_bits()
        &&& plain.num_id_bits == self.num_id_bits()
        &&& match self {
            EncodedView::Normal(data) => plain == data,
            EncodedView::Rle(data) => expands_to(
                data.pairs,
                data.symbols,
                data.symbol_width(),
                plain.bits,
            ),
            EncodedView::RleOffset(data) => expands_to(
                data.pairs,
                data.symbols,
                data.symbol_width(),
                plain.bits,
            ),
            EncodedView::Huffman(data) => data.ids(0, data.num_samples) matches Some((ids, at))
                && plain.bits == join(data.rows(ids)),
        }
    }

    /// How many rows the first `limit` ones are; runs may stand for fewer rows than declared.
    pub open spec fn rows_within(self, limit: nat) -> nat {
        let capped = if limit <= self.num_samples() {
            limit
        } else {
            self.num_samples()
        };
        match self {
            EncodedView::Normal(data) => capped,
            EncodedView::Rle(data) => available(data.pairs, limit, data.num_samples),
            EncodedView::RleOffset(data) => available(data.pairs, limit, data.num_samples),
            EncodedView::Huffman(data) => capped,
        }
    }
}

impl Clone for EncodedData {
    fn clone(&self) -> (copy: EncodedData)
        ensures
            copy@ == self@,
            self.valid() ==> copy.valid(),
    {
        match self {
            EncodedData::Normal(data) => EncodedData::Normal(data.clone()),
            EncodedData::Rle(data) => EncodedData::Rle(data.clone()),
            EncodedData::RleOffset(data) => EncodedData::RleOffset(data.clone()),
            EncodedData::Huffman(data) => EncodedData::Huffman(data.clone()),
        }
    }
}

impl EncodedData {
    /// Whether the encoded rows are sound.
    pub open spec fn valid(self) -> bool {
        match self {
            EncodedData::Normal(data) => data@.holds_samples(),
            EncodedData::Rle(data) => data.valid(),
            EncodedData::RleOffset(data) => data.valid(),
            EncodedData::Huffman(data) => data.valid(),
        }
    }

    /// The row at an index.
    pub fn get_sample(&self, sample_idx: usize) -> (sample: Option<DeviationSample>)
        requires
            self.valid(),
        ensures
            sample_view(sample) == self@.sample(sample_idx as int),
    {
        match self {
            EncodedData::Normal(data) => data.get_sample(sample_idx),
            EncodedData::Rle(data) => data.get_sample(sample_idx),
            EncodedData::RleOffset(data) => data.get_sample(sample_idx),
            EncodedData::Huffman(data) => data.get_sample(sample_idx),
        }
    }

    /// The size of the encoded rows in bits.
    pub fn get_encoded_size(&self) -> (bits: usize)
        requires
            self.valid(),
            self@.encoded_size() <= usize::MAX,
        ensures
            bits == self@.encoded_size(),
    {
        match self {
            EncodedData::Normal(data) => data.get_encoded_size(),
            EncodedData::Rle(data) => data.get_encoded_size(),
            EncodedData::RleOffset(data) => data.get_encoded_size(),
            EncodedData::Huffman(data) => data.get_encoded_size(),
        }
    }

    /// The stream that holds the base numbers.
    pub fn encoded_bit_stream(&self) -> (stream: &BitStream)
        ensures
            stream@ == self@.stream(),
    {
        match self {
            EncodedData::Normal(data) => data.encoded_bit_stream(),
            EncodedData::Rle(data) => data.symbol_bit_stream(),
            EncodedData::RleOffset(data) => data.symbol_bit_stream(),
            EncodedData::Huffman(data) => data.pixel_bit_stream(),
        }
    }

    /// The number of rows.
    pub fn get_num_samples(&self) -> (samples: usize)
        ensures
            samples == self@.num_samples(),
    {
        match self {
            EncodedData::Normal(data) => data.get_num_samples(),
            EncodedData::Rle(data) => data.get_num_samples(),
            EncodedData::RleOffset(data) => data.get_num_samples(),
            EncodedData::Huffman(data) => data.get_num_samples(),
        }
    }

    /// The width of the deviation part of a row.
    pub fn get_num_deviation_bits(&self) -> (bits: usize)
        ensures
            bits == self@.num_deviation_bits(),
    {
        match self {
            EncodedData::Normal(data) => data.get_num_deviation_bits(),
            EncodedData::Rle(data) => data.get_num_deviation_bits(),
            EncodedData::RleOffset(data) => data.get_num_deviation_bits(),
            EncodedData::Huffman(data) => data.get_num_deviation_bits(),
        }
    }

    /// The width of a base number.
    pub fn get_num_id_bits(&self) -> (bits: usize)
        ensures
            bits == self@.num_id_bits(),
    {
        match self {
            EncodedData::Normal(data) => data.get_num_id_bits(),
            EncodedData::Rle(data) => data.get_num_id_bits(),
            EncodedData::RleOffset(data) => data.get_num_id_bits(),
            EncodedData::Huffman(data) => data.get_num_id_bits(),
        }
    }

    /// The first `limit` rows, or all of them where there are fewer, decoded from the beginning.
    pub fn for_each_sample_n(&self, limit: usize) -> (result: Result<
        Vec<DeviationSample>,
        EntroGdError,
    >)
        requires
            self.valid(),
        ensures
            result is Ok <==> (forall|s: int|
                0 <= s < self@.rows_within(limit as nat) ==> #[trigger] self@.row_in_sequence(s) is Some),
            result matches Ok(samples) ==> {
                &&& samples@.len() == self@.rows_within(limit as nat)
                &&& forall|s: int|
                    0 <= s < samples@.len() ==> self@.row_in_sequence(s) == Some(
                        (#[trigger] samples@[s])@,
                    )
            },
            result matches Err(error) ==> error is InvalidMetadata,
    {
        match self {
            EncodedData::Normal(data) => Ok(data.for_each_sample_n(limit)),
            EncodedData::Rle(data) => {
                let result = data.for_each_sample_n(limit);
                proof {
                    let n = available(data@.pairs, limit as nat, data@.num_samples) as int;
                    assert forall|s: int| 0 <= s < n implies #[trigger] data@.sample(s)
                        == self@.row_in_sequence(s) by {
                    }
                    assert forall|s: int| 0 <= s < n implies #[trigger] self@.row_in_sequence(s)
                        == data@.sample(s) by {
                    }
                }
                result
            },
            EncodedData::RleOffset(data) => {
                let result = data.for_each_sample_n(limit);
                proof {
                    let n = available(data@.pairs, limit as nat, data@.num_samples) as int;
                    assert forall|s: int| 0 <= s < n implies #[trigger] row_from(
                        data@.symbols,
                        data@.pairs,
                        0,
                        s,
                        data@.num_deviation_bits,
                        data@.num_id_bits,
                    ) == self@.row_in_sequence(s) by {
                    }
                }
                result
            },
            EncodedData::Huffman(data) => {
                let result = data.for_each_sample_n(limit);
                proof {
                    huffman_in_sequence(data@, self@.rows_within(limit as nat));
                }
                result
            },
        }
    }

    /// The rows at the given indices, in that order.
    pub fn for_each_sample_at_sorted_indices(&self, sorted_indices: &Vec<usize>) -> (result: Result<
        Vec<DeviationSample>,
        EntroGdError,
    >)
        requires
            self.valid(),
        ensures
            result is Ok <==> (forall|i: int|
                0 <= i < sorted_indices@.len() ==> self@.sample(#[trigger] sorted_indices@[i] as int) is Some),
            result matches Ok(samples) ==> samples@.len() == sorted_indices@.len() && (forall|
                i: int,
            |
                0 <= i < samples@.len() ==> self@.sample(sorted_indices@[i] as int) == Some(
                    (#[trigger] samples@[i])@,
                )),
            result matches Err(error) ==> exists|i: int|
                0 <= i < sorted_indices@.len() && error
                    == (EntroGdError::DecompressionSampleMissing {
                    sample_idx: #[trigger] sorted_indices@[i],
                }) && self@.sample(sorted_indices@[i] as int) is None && (forall|k: int|
                    0 <= k < i ==> self@.sample(#[trigger] sorted_indices@[k] as int) is Some),
    {
        let mut samples: Vec<DeviationSample> = Vec::new();
        let mut i: usize = 0;
        while i < sorted_indices.len()
            invariant
                self.valid(),
                i <= sorted_indices@.len(),
                samples@.len() == i,
                forall|k: int|
                    0 <= k < i ==> self@.sample(#[trigger] sorted_indices@[k] as int) == Some(
                        samples@[k]@,
                    ),
            decreases sorted_indices@.len() - i,
        {
            let sample_idx: usize = sorted_indices[i];
            match self.get_sample(sample_idx) {
                Some(sample) => {
                    samples.push(sample);
                },
                None => {
                    assert(self@.sample(sorted_indices@[i as int] as int) is None);
                    return Err(EntroGdError::DecompressionSampleMissing { sample_idx });
                },
            }
            i += 1;
        }
        Ok(samples)
    }

    /// The rows as symbols of one width.
    pub fn to_raw_deviation_data(&self) -> (result: Result<DeviationData, EntroGdError>)
        requires
            self.valid(),
            self@.num_deviation_bits() + self@.num_id_bits() <= usize::MAX,
            self@.num_samples() * (self@.num_deviation_bits() + self@.num_id_bits())
                <= MAX_STREAM_BITS || self@.num_samples() * (self@.num_deviation_bits()
                + self@.num_id_bits()) > usize::MAX,
        ensures
            result is Ok <==> self@.has_plain_rows(),
            result matches Ok(data) ==> self@.has_plain(data@),
            result matches Err(error) ==> error is InvalidMetadata,
    {
        match self {
            EncodedData::Normal(data) => Ok(data.clone()),
            EncodedData::Rle(data) => data.to_deviation_data(),
            EncodedData::RleOffset(data) => data.to_deviation_data(),
            EncodedData::Huffman(data) => data.to_deviation_data(),
        }
    }
}

/// The rows with prefix codes that are decoded one by one are those decoded together.
proof fn huffman_in_sequence(content: HuffmanView, count: nat)
    ensures
        content.ids(0, count) is Some <==> (forall|s: int|
            0 <= s < count ==> #[trigger] EncodedView::Huffman(content).row_in_sequence(s) is Some),
        content.ids(0, count) matches Some((ids, at)) ==> ids.len() == count && (forall|s: int|
            0 <= s < count ==> #[trigger] EncodedView::Huffman(content).row_in_sequence(s) == Some(
                content.row_with(s, ids[s]),
            )),
{
    let (symbols, lengths, bits) = (content.symbols, content.lengths, content.pixels);
    match content.ids(0, count) {
        Some((ids, at)) => {
            decoded_prefix(symbols, lengths, bits, 0, count, count);
            assert forall|s: int| 0 <= s < count implies #[trigger] EncodedView::Huffman(
                content,
            ).row_in_sequence(s) == Some(content.row_with(s, ids[s])) by {
                decoded_prefix(symbols, lengths, bits, 0, (s + 1) as nat, count);
                assert(ids.take(s + 1).last() == ids[s]);
            }
        },
        None => {
            if count > 0 {
                assert(EncodedView::Huffman(content).row_in_sequence(count - 1) is None);
            }
        },
    }
}

/// The table of distinct bases, row by row or as differences.
#[derive(Debug, PartialEq, Eq)]
pub enum BaseTable {
    Raw(Vec<(BitStream, usize)>),
    Delta(DeltaBaseTableData),
}

/// The content of a base table.
#[verifier::ext_equal]
pub enum TableView {
    Raw(Seq<(Seq<bool>, usize)>),
    Delta(DeltaView),
}

impl View for BaseTable {
    type V = TableView;

    open spec fn view(&self) -> TableView {
        match *self {
            BaseTable::Raw(rows) => TableView::Raw(table_view(rows@)),
            BaseTable::Delta(delta) => TableView::Delta(delta@),
        }
    }
}

impl TableView {
    /// The number of bases.
    pub open spec fn num_bases(self) -> nat {
        match self {
            TableView::Raw(rows) => rows.len(),
            TableView::Delta(delta) => delta.num_bases,
        }
    }

    /// The rows, where they can be decoded.
    pub open spec fn rows(self) -> Option<Seq<(Seq<bool>, usize)>> {
        match self {
            TableView::Raw(rows) => Some(rows),
            TableView::Delta(delta) => delta.rows(),
        }
    }
}

impl Clone for DeltaBaseTableData {
    fn clone(&self) -> (copy: DeltaBaseTableData)
        ensures
            copy@ == self@,
    {
        DeltaBaseTableData {
            num_bases: self.num_bases,
            first_sort_key: self.first_sort_key.clone(),
            delta_bit_stream: self.delta_bit_stream.clone(),
            delta_count: self.delta_count,
            sort_column_order: copy_sizes(&self.sort_column_order),
            codec_id: self.codec_id,
        }
    }
}

impl Clone for BaseTable {
    fn clone(&self) -> (copy: BaseTable)
        ensures
            copy@ == self@,
    {
        match self {
            BaseTable::Raw(rows) => BaseTable::Raw(copy_rows(rows)),
            BaseTable::Delta(delta) => BaseTable::Delta(delta.clone()),
        }
    }
}

impl BaseTable {
    /// The rows of a table that is kept row by row.
    pub fn as_raw(&self) -> (rows: &Vec<(BitStream, usize)>)
        requires
            self is Raw,
        ensures
            self@ == TableView::Raw(table_view(rows@)),
    {
        match self {
            BaseTable::Raw(rows) => rows,
            BaseTable::Delta(delta) => {
                assert(false);
                vstd::pervasive::unreached()
            },
        }
    }

    /// The rows of a table that is kept row by row, to be changed.
    pub fn as_raw_mut(&mut self) -> (rows: &mut Vec<(BitStream, usize)>)
        requires
            *old(self) is Raw,
        ensures
            *old(self) == BaseTable::Raw(*rows),
            *final(self) == BaseTable::Raw(*final(rows)),
    {
        match self {
            BaseTable::Raw(rows) => rows,
            BaseTable::Delta(delta) => {
                assert(false);
                vstd::pervasive::unreached()
            },
        }
    }

    /// The number of bases.
    pub fn len(&self) -> (count: usize)
        ensures
            count == self@.num_bases(),
    {
        match self {
            BaseTable::Raw(rows) => {
                assert(table_view(rows@).len() == rows@.len());
                rows.len()
            },
            BaseTable::Delta(delta) => delta.num_bases,
        }
    }

    /// Whether there are no bases.
    pub fn is_empty(&self) -> (empty: bool)
        ensures
            empty == (self@.num_bases() == 0),
    {
        self.len() == 0
    }

    /// The rows, decoded where the table is kept as differences.
    pub fn to_rows(&self) -> (result: Result<Vec<(BitStream, usize)>, EntroGdError>)
        ensures
            match self@.rows() {
                Some(rows) => result matches Ok(found) && table_view(found@) == rows,
                None => result matches Err(error) && error is InvalidMetadata,
            },
    {
        match self {
            BaseTable::Raw(rows) => Ok(copy_rows(rows)),
            BaseTable::Delta(delta) => delta.decode_rows(),
        }
    }
}

/// A few rows that stand for all of them, with the number of rows that each stands for.
#[derive(Debug, PartialEq, Eq)]
pub struct CondensedSamples {
    pub samples: Vec<BitStream>,
    pub weights: Vec<usize>,
}

/// Encoded rows with all that is needed to decode them.
#[derive(Debug)]
pub struct CompressedData {
    pub encoded_data: EncodedData,
    /// The weights of the condensed rows.
    pub condensed_sample_weights: Option<Vec<usize>>,
    pub base_table: BaseTable,
    /// The role of each bit of a row.
    pub layout: BaseLayoutInfo,
    /// The columns of the base table, the one that comes first in sorting first.
    pub entropy_sorted_column_order: Option<Vec<usize>>,
    pub metadata: BitDataInfo,
}

/// The content of compressed data.
#[verifier::ext_equal]
pub struct CompressedView {
    pub encoded: EncodedView,
    pub weights: Option<Seq<usize>>,
    pub base_table: TableView,
    pub layout: Seq<BaseBitLayoutState>,
    pub order: Option<Seq<usize>>,
    pub metadata: InfoView,
}

impl View for CompressedData {
    type V = CompressedView;

    open spec fn view(&self) -> CompressedView {
        CompressedView {
            encoded: self.encoded_data@,
            weights: weights_view(self.condensed_sample_weights),
            base_table: self.base_table@,
            layout: self.layout@,
            order: weights_view(self.entropy_sorted_column_order),
            metadata: self.metadata@,
        }
    }
}

fn copy_list(list: &Option<Vec<usize>>) -> (copy: Option<Vec<usize>>)
    ensures
        weights_view(copy) == weights_view(*list),
{
    match list {
        Some(values) => Some(copy_sizes(values)),
        None => None,
    }
}

impl Clone for CompressedData {
    fn clone(&self) -> (copy: CompressedData)
        ensures
            copy@ == self@,
            self.valid() ==> copy.valid(),
    {
        CompressedData {
            encoded_data: self.encoded_data.clone(),
            condensed_sample_weights: copy_list(&self.condensed_sample_weights),
            base_table: self.base_table.clone(),
            layout: self.layout.clone(),
            entropy_sorted_column_order: copy_list(&self.entropy_sorted_column_order),
            metadata: self.metadata.clone(),
        }
    }
}

impl CompressedData {
    /// Whether the parts are sound and the layout covers a row.
    pub open spec fn valid(self) -> bool {
        &&& self.encoded_data.valid()
        &&& self.metadata.valid()
        &&& self.layout@.len() == features_width(self.metadata@.features)
    }

    /// Encoded rows without bases, weights or order, in which every bit is stored per row.
    pub fn new(encoded_data: EncodedData, metadata: BitDataInfo) -> (data: CompressedData)
        requires
            metadata.valid(),
        ensures
            data.encoded_data == encoded_data,
            data.metadata == metadata,
            data@ == (CompressedView {
                encoded: encoded_data@,
                weights: None,
                base_table: TableView::Raw(Seq::empty()),
                layout: Seq::new(
                    features_width(metadata@.features),
                    |i: int| BaseBitLayoutState::Deviation,
                ),
                order: None,
                metadata: metadata@,
            }),
    {
        let chunk_size: usize = metadata.chunk_size();
        let mut states: Vec<BaseBitLayoutState> = Vec::new();
        let mut i: usize = 0;
        while i < chunk_size
            invariant
                i <= chunk_size,
                states@ == Seq::new(i as nat, |k: int| BaseBitLayoutState::Deviation),
            decreases chunk_size - i,
        {
            states.push(BaseBitLayoutState::Deviation);
            assert(states@ =~= Seq::new(i as nat + 1, |k: int| BaseBitLayoutState::Deviation));
            i += 1;
        }
        let rows: Vec<(BitStream, usize)> = Vec::new();
        assert(table_view(rows@) =~= Seq::empty());
        CompressedData {
            encoded_data,
            condensed_sample_weights: None,
            base_table: BaseTable::Raw(rows),
            layout: BaseLayoutInfo::from_bit_states(states),
            entropy_sorted_column_order: None,
            metadata,
        }
    }
}

/// The encoded rows of a context with the base table, layout and order of that context.
pub open spec fn compressed_content(context: PreEncodeContext, encoded: EncodedView) -> CompressedView {
    CompressedView {
        encoded,
        weights: context.bit_data.info@.weights,
        base_table: TableView::Raw(table_view(context.variable_base_table@)),
        layout: context.layout@,
        order: weights_view(context.entropy_sorted_column_order),
        metadata: context.bit_data.info@,
    }
}

/// Encoded rows with the base table, layout and order of their context.
pub fn build_compressed_data(input: PreEncodeContext, encoded_data: EncodedData) -> (data:
    CompressedData)
    requires
        input.valid(),
    ensures
        data@ == compressed_content(input, encoded_data@),
        data.encoded_data == encoded_data,
        encoded_data.valid() ==> data.valid(),
{
    let weights = copy_list(&input.bit_data.info.compression.m_condensed_sample_weights);
    CompressedData {
        encoded_data,
        condensed_sample_weights: weights,
        base_table: BaseTable::Raw(input.variable_base_table),
        layout: input.layout,
        entropy_sorted_column_order: input.entropy_sorted_column_order,
        metadata: input.bit_data.info,
    }
}

} // verus!
