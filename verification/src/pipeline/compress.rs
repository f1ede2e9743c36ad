//! Compression from rows to encoded rows in one step.
use vstd::arithmetic::power2::lemma2_to64;
use vstd::prelude::*;

use crate::base_bits::BaseBitGroups;
use crate::base_table::PreEncodeContext;
use crate::base_table_builder::{build_base_table, built, constants_hold, has_constants};
use crate::bits::MAX_STREAM_BITS;
use crate::dataset::{BitData, BitDataSet};
use crate::decompression::{decodes, original_rows, restored_row};
use crate::decompression_laws::decompression_undoes_encoding;
use crate::encoding::compressed::{
    build_compressed_data, compressed_content, CompressedData, CompressedView, EncodedData,
    EncodedView,
};
use crate::encoding::deviation::{
    encode_data, encoded_rows, encoded_rows_random_access, symbols_fit,
};
use crate::encoding::layout::{base_mask, deviation_width, id_width, unmasked_len};
use crate::entropy::{
    calculate_entropy, ones, ones_bound, ones_of_constants, scores, EntropyBitScore,
};
use crate::pipeline::ordering::{by_score, by_score_orders, leading_are_up_to};
use crate::pipeline::search::bits_taken;
use crate::pipeline::selection::{
    can_select, flat_bits, optimize_with_tau, sizes_with_bits, varying_bits,
};
use crate::utils::bits_needed_bound;

verus! {

/// Whether the sizes of rows can be computed and their symbols fit into one stream.
pub open spec fn can_compress(bit_data: BitDataSet) -> bool {
    let data = bit_data.data;
    &&& bit_data.valid()
    &&& data.num_rows * (2 * data.chunk_size + 64) <= MAX_STREAM_BITS
    &&& data.chunk_size <= MAX_STREAM_BITS
}

/// Whether every bit that differs between rows has some entropy.
pub open spec fn tells_bits_apart(score_of_count: Seq<u64>, num_rows: nat) -> bool {
    &&& score_of_count.len() >= num_rows
    &&& forall|count: int| 0 < count < num_rows ==> #[trigger] score_of_count[count] > 0
}

/// Whether groups are those of the base bits that are chosen for rows.
pub open spec fn are_chosen(
    groups: BaseBitGroups,
    data: BitData,
    entries: Seq<EntropyBitScore>,
    patience: nat,
) -> bool {
    &&& groups.groups(data)
    &&& groups.constant_bits@ == flat_bits(entries)
    &&& groups.variable_bits@ == varying_bits(entries).take(
        bits_taken(sizes_with_bits(data, entries), patience),
    )
}

/// A bit without entropy is the same in all rows.
proof fn flat_bit_is_constant(
    data: BitData,
    score_of_count: Seq<u64>,
    k: int,
    row: int,
)
    requires
        tells_bits_apart(score_of_count, data.num_rows as nat),
        0 <= k < flat_bits(scores(data, score_of_count)).len(),
        0 <= row < data.num_rows,
    ensures
        data.row(row)[flat_bits(scores(data, score_of_count))[k] as int] == data.row(
            0,
        )[flat_bits(scores(data, score_of_count))[k] as int],
{
    broadcast use vstd::seq_lib::group_to_multiset_ensures;
    let entries = scores(data, score_of_count);
    let sorted = by_score(entries);
    by_score_orders(entries);
    leading_are_up_to(sorted, 0);
    let entry = sorted[k];
    assert(entry.1 == 0);
    assert(sorted.contains(entry));
    assert(sorted.to_multiset().count(entry) > 0);
    assert(entries.to_multiset().count(entry) > 0);
    assert(entries.contains(entry));
    let bit = choose|bit: int| 0 <= bit < entries.len() && entries[bit] == entry;
    let n = data.num_rows as nat;
    ones_bound(data, bit, n);
    ones_of_constants(data, bit, n);
    let count = ones(data, bit, n);
    if 0 < count < n {
        assert(score_of_count[count as int] > 0);
    }
    assert(entry.0 == bit as usize);
}

/// Bits without entropy are the same in all rows.
pub proof fn rows_hold_flat_bits(data: BitData, score_of_count: Seq<u64>)
    requires
        tells_bits_apart(score_of_count, data.num_rows as nat),
    ensures
        forall|n: int|
            n <= data.num_rows ==> #[trigger] flat_bits_hold(
                data,
                scores(data, score_of_count),
                n,
            ),
{
    let entries = scores(data, score_of_count);
    let flat = flat_bits(entries);
    assert forall|row: int| 0 <= row < data.num_rows implies #[trigger] has_flat_bits(
        data,
        entries,
        row,
    ) by {
        assert forall|k: int| 0 <= k < flat.len() implies data.row(row)[#[trigger] flat[k] as int]
            == data.row(0)[flat[k] as int] by {
            flat_bit_is_constant(data, score_of_count, k, row);
        }
    }
}

/// The symbols of rows fit into one stream.
proof fn context_fits(context: PreEncodeContext)
    requires
        can_compress(context.bit_data),
        context.valid(),
        context.variable_base_table@.len() <= usize::MAX,
    ensures
        symbols_fit(context),
{
    let data = context.bit_data.data;
    let rows = data.num_rows as int;
    let width = (deviation_width(context) + id_width(context)) as int;
    unmasked_len(data.row(0), base_mask(context.layout@));
    lemma2_to64();
    bits_needed_bound(context.variable_base_table@.len(), 64);
    let limit = 2 * data.chunk_size + 64;
    assert(rows * width <= rows * limit) by (nonlinear_arith)
        requires
            0 <= rows,
            width <= limit,
    ;
}

/// Whether compressed data comes from rows: base bits are chosen by entropy and size, rows are put
/// into groups, and each row is encoded as its own bits and the number of its group.
pub open spec fn is_compressed(
    data: CompressedData,
    context: PreEncodeContext,
    groups: BaseBitGroups,
    bit_data: BitDataSet,
    entries: Seq<EntropyBitScore>,
    patience: nat,
) -> bool {
    &&& are_chosen(groups, bit_data.data, entries, patience)
    &&& context.valid()
    &&& built(context, bit_data, groups, context.entropy_sorted_column_order)
    &&& context.entropy_sorted_column_order is None
    &&& data@ == compressed_content(context, EncodedView::Normal(encoded_rows(context)))
}

/// Whether bits without entropy are in a row as they are in the first one.
pub open spec fn has_flat_bits(data: BitData, entries: Seq<EntropyBitScore>, row: int) -> bool {
    forall|k: int|
        0 <= k < flat_bits(entries).len() ==> data.row(row)[#[trigger] flat_bits(entries)[k] as int]
            == data.row(0)[flat_bits(entries)[k] as int]
}

/// Whether bits without entropy are in each of the first `n` rows as they are in the first one.
pub open spec fn flat_bits_hold(data: BitData, entries: Seq<EntropyBitScore>, n: int) -> bool {
    forall|row: int| 0 <= row < n ==> #[trigger] has_flat_bits(data, entries, row)
}

/// Whether compressed data gives back original rows.
pub open spec fn gives_back(data: CompressedView, rows: BitData) -> bool {
    &&& decodes(data)
    &&& forall|s: int|
        0 <= s < original_rows(data) ==> #[trigger] restored_row(data, s) == rows.row(s)
}

/// Compresses rows whose bits have the given entropy.
pub fn compress_rows(bit_data: BitDataSet, entropy: &Vec<EntropyBitScore>, patience: usize) -> (data:
    CompressedData)
    requires
        can_compress(bit_data),
        forall|i: int|
            0 <= i < entropy@.len() ==> (#[trigger] entropy@[i]).0 < bit_data.data.chunk_size,
    ensures
        data.valid(),
        exists|context: PreEncodeContext, groups: BaseBitGroups| #[trigger]
            is_compressed(data, context, groups, bit_data, entropy@, patience as nat),
        original_rows(data@) <= bit_data.data.num_rows && flat_bits_hold(
            bit_data.data,
            entropy@,
            original_rows(data@) as int,
        ) ==> gives_back(data@, bit_data.data),
{
    let ghost set = bit_data;
    proof {
        let rows = set.data.num_rows as int;
        assert(rows * (2 * set.data.chunk_size + 64) >= 2 * rows) by (nonlinear_arith)
            requires
                0 <= rows,
                0 <= set.data.chunk_size,
        ;
        assert(can_select(set.data, entropy@));
    }
    let groups = optimize_with_tau(&bit_data, entropy, patience);
    let context = build_base_table(bit_data, &groups, None);
    let ghost kept = context;
    proof {
        assert(context.variable_base_table.len() == context.variable_base_table@.len());
        context_fits(context);
    }
    let encoded = EncodedData::Normal(encode_data(&context));
    proof {
        if set.data.num_rows > 0 {
            encoded_rows_random_access(kept, 0);
        }
        assert(encoded_rows(kept).holds_samples());
        assert(encoded.valid());
    }
    let data = build_compressed_data(context, encoded);
    proof {
        assert(is_compressed(data, kept, groups, set, entropy@, patience as nat));
        let n = original_rows(data@) as int;
        if n <= set.data.num_rows && flat_bits_hold(set.data, entropy@, n) {
            assert forall|row: int| 0 <= row < n implies #[trigger] has_constants(
                set.data,
                groups,
                row,
            ) by {
                assert(has_flat_bits(set.data, entropy@, row));
            }
            assert(constants_hold(set.data, groups, n));
            decompression_undoes_encoding(kept, EncodedView::Normal(encoded_rows(kept)));
        }
    }
    data
}

/// Compresses rows. All of them come out again when the result is decompressed.
pub fn compress(bit_data: BitDataSet, score_of_count: &Vec<u64>, patience: usize) -> (data:
    CompressedData)
    requires
        can_compress(bit_data),
        tells_bits_apart(score_of_count@, bit_data.data.num_rows as nat),
    ensures
        data.valid(),
        exists|context: PreEncodeContext, groups: BaseBitGroups| #[trigger]
            is_compressed(
                data,
                context,
                groups,
                bit_data,
                scores(bit_data.data, score_of_count@),
                patience as nat,
            ),
        original_rows(data@) <= bit_data.data.num_rows ==> gives_back(data@, bit_data.data),
{
    let entropy = calculate_entropy(&bit_data, score_of_count);
    proof {
        rows_hold_flat_bits(bit_data.data, score_of_count@);
    }
    compress_rows(bit_data, &entropy, patience)
}

} // verus!
