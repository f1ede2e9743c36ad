//! Putting rows together again from deviations and bases.
use vstd::prelude::*;

use crate::base_table::{
    positions, positions_bounded, table_view, BaseBitLayoutState, BaseLayoutInfo, PositionKind,
};
use crate::bits::{bits_value, join, join_push, BitStream, MAX_STREAM_BITS};
use crate::data::features_width;
use crate::dataset::{with_padding, BitData, BitDataSet};
use crate::encoding::compressed::{CompressedData, CompressedView, EncodedData};
use crate::encoding::deviation::slot_in_bounds;
use crate::encoding::layout::{base_mask, clear_count, clear_count_of_states};
use crate::encoding::rle::{source, source_in_bounds};
use crate::error::{bad_metadata, EntroGdError};
use crate::filter_pipeline::Filter;

verus! {

/// The row made of deviation bits, the bits of a base and constant bits, each at the positions of
/// its kind.
pub open spec fn merged(
    states: Seq<BaseBitLayoutState>,
    deviation: Seq<bool>,
    base: Seq<bool>,
) -> Seq<bool>
    decreases states.len(),
{
    if states.len() == 0 {
        Seq::empty()
    } else {
        let before = states.drop_last();
        let bit = match states.last() {
            BaseBitLayoutState::Deviation => deviation[clear_count(base_mask(before)) as int],
            BaseBitLayoutState::Variable => base[positions(
                before,
                PositionKind::Variable,
            ).len() as int],
            BaseBitLayoutState::ConstantZero => false,
            BaseBitLayoutState::ConstantOne => true,
        };
        merged(before, deviation, base).push(bit)
    }
}

/// How many rows of compressed data are original ones.
pub open spec fn original_rows(data: CompressedView) -> nat {
    data.metadata.original_size_bits / features_width(data.metadata.features)
}

/// The bases of compressed data.
pub open spec fn bases(data: CompressedView) -> Seq<(Seq<bool>, usize)> {
    data.base_table.rows()->0
}

/// The base number of a decoded row.
pub open spec fn base_number(data: CompressedView, s: int) -> nat {
    bits_value((data.encoded.row_in_sequence(s)->0).id)
}

/// Whether the base table can be decoded and its rows, like the deviations, have the widths that
/// the layout asks for.
pub open spec fn widths_agree(data: CompressedView) -> bool {
    &&& data.base_table.rows() is Some
    &&& forall|i: int|
        0 <= i < bases(data).len() ==> (#[trigger] bases(data)[i]).0.len() == positions(
            data.layout,
            PositionKind::Variable,
        ).len()
    &&& data.encoded.num_deviation_bits() == clear_count(base_mask(data.layout))
    &&& 1 <= data.encoded.num_id_bits() <= 64
}

/// Whether all original rows can be put together again.
pub open spec fn decodes(data: CompressedView) -> bool {
    &&& widths_agree(data)
    &&& data.encoded.rows_within(original_rows(data)) == original_rows(data)
    &&& forall|s: int|
        0 <= s < original_rows(data) ==> (#[trigger] data.encoded.row_in_sequence(s)) is Some
            && base_number(data, s) < bases(data).len()
}

/// Whether every row that is there can be decoded.
pub open spec fn rows_decode(data: CompressedView) -> bool {
    forall|s: int|
        0 <= s < data.encoded.rows_within(original_rows(data))
            ==> #[trigger] data.encoded.row_in_sequence(s) is Some
}

/// Whether a row is the first with a base number that the table does not have.
pub open spec fn first_without_base(data: CompressedView, s: int) -> bool {
    &&& 0 <= s < original_rows(data)
    &&& base_number(data, s) >= bases(data).len()
    &&& forall|k: int| 0 <= k < s ==> #[trigger] base_number(data, k) < bases(data).len()
}

/// Whether an error is the one that keeps compressed data from being decompressed: its parts do
/// not fit together or its rows cannot be decoded, rows are missing, or a row has no base.
pub open spec fn is_fault(data: CompressedView, error: EntroGdError) -> bool {
    let found = data.encoded.rows_within(original_rows(data));
    match error {
        EntroGdError::InvalidMetadata { message } => !widths_agree(data) || !rows_decode(data),
        EntroGdError::DecompressionSampleMissing { sample_idx } => {
            &&& widths_agree(data)
            &&& rows_decode(data)
            &&& sample_idx == found
            &&& found != original_rows(data)
        },
        EntroGdError::InvalidBaseId { base_id, table_len } => {
            &&& widths_agree(data)
            &&& rows_decode(data)
            &&& found == original_rows(data)
            &&& table_len == bases(data).len()
            &&& exists|s: int| #[trigger]
                first_without_base(data, s) && base_id == base_number(data, s) as usize
        },
        _ => false,
    }
}

/// The row at an index.
pub open spec fn restored_row(data: CompressedView, s: int) -> Seq<bool> {
    merged(
        data.layout,
        (data.encoded.row_in_sequence(s)->0).deviation,
        bases(data)[base_number(data, s) as int].0,
    )
}

/// A merged row has a bit for each position.
pub proof fn merged_len(states: Seq<BaseBitLayoutState>, deviation: Seq<bool>, base: Seq<bool>)
    ensures
        merged(states, deviation, base).len() == states.len(),
    decreases states.len(),
{
    if states.len() > 0 {
        merged_len(states.drop_last(), deviation, base);
    }
}

/// Positions of one kind up to a position are among all of that kind.
proof fn kinds_grow(states: Seq<BaseBitLayoutState>, p: int)
    requires
        0 <= p < states.len(),
    ensures
        clear_count(base_mask(states.take(p))) <= clear_count(base_mask(states)),
        positions(states.take(p), PositionKind::Variable).len() <= positions(
            states,
            PositionKind::Variable,
        ).len(),
        states[p] == BaseBitLayoutState::Deviation ==> clear_count(base_mask(states.take(p)))
            < clear_count(base_mask(states)),
        states[p] == BaseBitLayoutState::Variable ==> positions(
            states.take(p),
            PositionKind::Variable,
        ).len() < positions(states, PositionKind::Variable).len(),
    decreases states.len(),
{
    let before = states.drop_last();
    assert(base_mask(states).drop_last() =~= base_mask(before));
    if p < states.len() - 1 {
        kinds_grow(before, p);
        assert(before.take(p) =~= states.take(p));
    } else {
        assert(states.take(p) =~= before);
    }
}

/// Puts a row together.
pub fn merge_row(layout: &BaseLayoutInfo, deviation: &BitStream, base: &BitStream) -> (row:
    BitStream)
    requires
        layout@.len() <= MAX_STREAM_BITS,
        deviation@.len() == clear_count(base_mask(layout@)),
        base@.len() == positions(layout@, PositionKind::Variable).len(),
    ensures
        row@ == merged(layout@, deviation@, base@),
{
    let ghost states = layout@;
    let mut row = BitStream::empty();
    let mut next_deviation: usize = 0;
    let mut next_base: usize = 0;
    let mut p: usize = 0;
    proof {
        assert(states.take(0) =~= Seq::empty());
        assert(base_mask(states.take(0)) =~= Seq::empty());
    }
    while p < layout.bit_states.len()
        invariant
            p <= states.len() <= MAX_STREAM_BITS,
            states == layout@,
            deviation@.len() == clear_count(base_mask(states)),
            base@.len() == positions(states, PositionKind::Variable).len(),
            next_deviation == clear_count(base_mask(states.take(p as int))),
            next_base == positions(states.take(p as int), PositionKind::Variable).len(),
            next_deviation <= p,
            next_base <= p,
            row@ == merged(states.take(p as int), deviation@, base@),
            row@.len() == p,
        decreases states.len() - p,
    {
        proof {
            kinds_grow(states, p as int);
            let more = states.take(p as int + 1);
            assert(more.drop_last() =~= states.take(p as int));
            assert(base_mask(more).drop_last() =~= base_mask(states.take(p as int)));
        }
        match layout.bit_states[p] {
            BaseBitLayoutState::Deviation => {
                row.append_bit(deviation.bit(next_deviation));
                next_deviation += 1;
            },
            BaseBitLayoutState::Variable => {
                row.append_bit(base.bit(next_base));
                next_base += 1;
            },
            BaseBitLayoutState::ConstantZero => {
                row.append_bit(false);
            },
            BaseBitLayoutState::ConstantOne => {
                row.append_bit(true);
            },
        }
        p += 1;
    }
    assert(states.take(p as int) =~= states);
    row
}

/// A product of numbers that are not negative is not negative.
pub proof fn product_not_negative(a: int, b: int)
    requires
        0 <= a,
        0 <= b,
    ensures
        0 <= a * b,
{
    assert(0 <= a * b) by (nonlinear_arith)
        requires
            0 <= a,
            0 <= b,
    ;
}

/// Both parts of a row that is decoded in sequence have their widths.
proof fn sequence_widths(rows: EncodedData, s: int)
    requires
        rows.valid(),
        0 <= s < rows@.num_samples(),
        rows@.row_in_sequence(s) is Some,
    ensures
        (rows@.row_in_sequence(s)->0).id.len() == rows@.num_id_bits(),
        (rows@.row_in_sequence(s)->0).deviation.len() == rows@.num_deviation_bits(),
{
    match rows {
        EncodedData::Normal(data) => {
            slot_in_bounds(s, data@.num_samples as int, data@.symbol_width() as int);
        },
        EncodedData::Rle(data) => {
            source_in_bounds(data@.pairs, s);
            product_not_negative(source(data@.pairs, s), data@.symbol_width() as int);
        },
        EncodedData::RleOffset(data) => {
            source_in_bounds(data@.pairs, s);
            product_not_negative(source(data@.pairs, s), data@.symbol_width() as int);
        },
        EncodedData::Huffman(data) => {
            slot_in_bounds(s, data@.num_samples as int, data@.num_deviation_bits as int);
        },
    }
}

/// The number that a base number spells.
pub(crate) fn number_of(id: &BitStream) -> (number: u64)
    requires
        1 <= id@.len() <= 64,
    ensures
        number == bits_value(id@),
{
    let width: usize = id.bit_len();
    assert(id@.subrange(0, width as int) =~= id@);
    id.number_at(0, width)
}

/// Whether all bases have a width.
pub(crate) fn bases_have_width(rows: &Vec<(BitStream, usize)>, width: usize) -> (have: bool)
    ensures
        have == (forall|i: int|
            0 <= i < table_view(rows@).len() ==> (#[trigger] table_view(rows@)[i]).0.len()
                == width),
{
    let mut i: usize = 0;
    while i < rows.len()
        invariant
            i <= rows@.len(),
            forall|k: int|
                0 <= k < i ==> (#[trigger] table_view(rows@)[k]).0.len() == width,
        decreases rows@.len() - i,
    {
        if rows[i].0.bit_len() != width {
            assert(table_view(rows@)[i as int].0.len() != width);
            return false;
        }
        i += 1;
    }
    true
}

/// The original rows of compressed data with their padding, which is clear.
pub open spec fn padded_rows(data: CompressedView) -> Seq<Seq<bool>> {
    Seq::new(
        original_rows(data),
        |s: int| with_padding(restored_row(data, s), data.metadata.row_stride),
    )
}

/// Whether a dataset holds the original rows of compressed data, one behind the other.
pub open spec fn holds_rows(set: BitDataSet, data: CompressedView) -> bool {
    &&& set.valid()
    &&& set.info@ == data.metadata
    &&& set.data.num_rows == original_rows(data)
    &&& set.data.stride == data.metadata.row_stride
    &&& set.data.data@ == join(padded_rows(data))
    &&& set.data.data@.len() == set.data.num_rows * set.data.stride
    &&& forall|s: int|
        0 <= s < set.data.num_rows ==> #[trigger] set.data.row(s) == restored_row(data, s)
}

/// The rows of compressed data, put together again.
pub fn decompress_file(compressed: CompressedData) -> (result: Result<BitDataSet, EntroGdError>)
    requires
        compressed.valid(),
        compressed@.layout.len() <= MAX_STREAM_BITS,
        original_rows(compressed@) * compressed@.metadata.row_stride <= MAX_STREAM_BITS,
    ensures
        result is Ok <==> decodes(compressed@),
        result matches Ok(set) ==> holds_rows(set, compressed@),
        result matches Err(error) ==> is_fault(compressed@, error),
{
    let ghost data = compressed@;
    let rows = match compressed.base_table.to_rows() {
        Ok(rows) => rows,
        Err(error) => {
            return Err(error);
        },
    };
    proof {
        positions_bounded(data.layout, PositionKind::Variable);
        positions_bounded(data.layout, PositionKind::Selected);
        clear_count_of_states(data.layout);
    }
    let width: usize = compressed.layout.variable_base_bit_positions().len();
    if !bases_have_width(&rows, width) {
        return Err(bad_metadata("base table rows do not have the width of the layout"));
    }
    let selected: usize = compressed.layout.selected_base_bit_positions().len();
    let id_bits: usize = compressed.encoded_data.get_num_id_bits();
    if compressed.encoded_data.get_num_deviation_bits() != compressed.layout.bit_states.len()
        - selected {
        return Err(bad_metadata("deviations do not have the width of the layout"));
    }
    if id_bits == 0 || id_bits > 64 {
        return Err(bad_metadata("base numbers do not fit into 64 bits"));
    }
    let chunk_size: usize = compressed.metadata.chunk_size();
    let count: usize = compressed.metadata.original_size_bits() / chunk_size;
    let samples = match compressed.encoded_data.for_each_sample_n(count) {
        Ok(samples) => samples,
        Err(error) => {
            return Err(error);
        },
    };
    if samples.len() != count {
        return Err(EntroGdError::DecompressionSampleMissing { sample_idx: samples.len() });
    }
    let stride: usize = compressed.metadata.row_stride();
    let mut restored = BitData { data: BitStream::empty(), stride, chunk_size, num_rows: 0 };
    let mut s: usize = 0;
    proof {
        assert(0 * stride == 0);
        assert(padded_rows(data).take(0) =~= Seq::empty());
    }
    while s < count
        invariant
            s <= count == samples@.len() == original_rows(data),
            data == compressed@,
            compressed.valid(),
            widths_agree(data),
            table_view(rows@) == bases(data),
            data.layout.len() <= MAX_STREAM_BITS,
            data.encoded.rows_within(count as nat) == count,
            rows_decode(data),
            forall|k: int|
                0 <= k < samples@.len() ==> data.encoded.row_in_sequence(k) == Some(
                    (#[trigger] samples@[k])@,
                ),
            forall|k: int|
                0 <= k < s ==> (#[trigger] data.encoded.row_in_sequence(k)) is Some && base_number(
                    data,
                    k,
                ) < bases(data).len(),
            chunk_size == data.layout.len(),
            stride == data.metadata.row_stride,
            count * stride <= MAX_STREAM_BITS,
            restored.valid(),
            restored.data@.len() == s * stride,
            restored.num_rows == s,
            restored.stride == stride,
            restored.chunk_size == chunk_size,
            restored.data@ == join(padded_rows(data).take(s as int)),
            forall|k: int| 0 <= k < s ==> #[trigger] restored.row(k) == restored_row(data, k),
        decreases count - s,
    {
        proof {
            assert(data.encoded.row_in_sequence(s as int) == Some(samples@[s as int]@));
            sequence_widths(compressed.encoded_data, s as int);
        }
        let base: u64 = number_of(&samples[s].id);
        if base >= rows.len() as u64 {
            assert(!decodes(data)) by {
                assert(data.encoded.row_in_sequence(s as int) is Some);
            }
            assert(first_without_base(data, s as int)) by {
                assert forall|k: int| 0 <= k < s implies #[trigger] base_number(data, k) < bases(
                    data,
                ).len() by {
                    assert(data.encoded.row_in_sequence(k) is Some);
                }
            }
            return Err(
                EntroGdError::InvalidBaseId { base_id: base as usize, table_len: rows.len() },
            );
        }
        let found: usize = base as usize;
        assert(bases(data)[found as int].0 == rows@[found as int].0@);
        let row = merge_row(&compressed.layout, &samples[s].deviation, &rows[found].0);
        let ghost before = restored;
        proof {
            merged_len(data.layout, samples@[s as int].deviation@, rows@[found as int].0@);
            assert(s * stride + stride <= count * stride) by (nonlinear_arith)
                requires
                    s < count,
            ;
        }
        match restored.extend_from_bitslice(&row) {
            Ok(()) => {},
            Err(error) => {
                return Err(error);
            },
        }
        proof {
            let parts = padded_rows(data);
            assert(parts.take(s as int + 1) =~= parts.take(s as int).push(parts[s as int]));
            join_push(parts.take(s as int), parts[s as int]);
            assert((s + 1) * stride == s * stride + stride) by (nonlinear_arith);
            assert forall|k: int| 0 <= k < s + 1 implies #[trigger] restored.row(k)
                == restored_row(data, k) by {
                let st = stride as int;
                if k < s {
                    assert(before.row(k) == restored_row(data, k));
                    assert(0 <= k * st && k * st + st <= s * st) by (nonlinear_arith)
                        requires
                            0 <= k < s,
                            0 <= st,
                    ;
                    assert(restored.row(k) =~= before.row(k));
                } else {
                    assert(restored.row(k) =~= row@);
                }
            }
        }
        s += 1;
    }
    assert(padded_rows(data).take(count as int) =~= padded_rows(data));
    Ok(BitDataSet { data: restored, info: compressed.metadata })
}

/// Puts the rows of compressed data together again.
pub struct DecompressFileData {}

impl Filter for DecompressFileData {
    type Input = CompressedData;

    type Output = BitDataSet;

    open spec fn admits(&self, input: CompressedData) -> bool {
        &&& input.valid()
        &&& input@.layout.len() <= MAX_STREAM_BITS
        &&& original_rows(input@) * input@.metadata.row_stride <= MAX_STREAM_BITS
    }

    open spec fn yields(
        &self,
        input: CompressedData,
        result: Result<BitDataSet, EntroGdError>,
    ) -> bool {
        &&& result is Ok <==> decodes(input@)
        &&& (result matches Ok(set) ==> holds_rows(set, input@))
        &&& (result matches Err(error) ==> is_fault(input@, error))
    }

    fn process(&self, input: CompressedData) -> (result: Result<BitDataSet, EntroGdError>) {
        decompress_file(input)
    }
}

} // verus!
