//! Prefix codes write the base numbers of rows in the fewest bits.
use vstd::prelude::*;
use vstd::seq_lib::to_multiset_contains;

use crate::base_table::PreEncodeContext;
use crate::base_table_builder::rows_in_group;
use crate::bits::join;
use crate::encoding::huffman_encode::{
    base_code_table, base_frequencies, code_of, entry_of, every_base_has_entry, row_codes,
    table_exists,
};
use crate::encoding::huffman_laws::{
    code_cost, code_lengths, code_lengths_cost_least, frequencies, is_prefix_code,
};
use crate::encoding::huffman_tree::{code_length, side_by_side, table_entries, total_frequency};
use crate::numbers::sum_of;

verus! {

/// Whether every row has a base, each base counts the rows that have it, and code lengths fit a byte.
pub open spec fn counts_rows(context: PreEncodeContext) -> bool {
    let bases = context.variable_base_table@;
    let ids = context.row_to_base_id@;
    let rows = context.bit_data.data.num_rows as int;
    &&& ids.len() == rows
    &&& 2 * bases.len() <= usize::MAX
    &&& forall|row: int| 0 <= row < rows ==> #[trigger] ids[row] < bases.len()
    &&& forall|id: int|
        0 <= id < bases.len() ==> (#[trigger] bases[id]).1 == rows_in_group(ids, id, rows)
    &&& forall|id: int|
        0 <= id < bases.len() ==> #[trigger] code_length(base_frequencies(context), id) <= 255
}

/// The code of a base has the length that was built for it.
proof fn code_has_built_length(context: PreEncodeContext, id: int)
    requires
        counts_rows(context),
        0 <= id < context.variable_base_table@.len(),
    ensures
        ({
            let (symbols, lengths) = base_code_table(context);
            code_of(symbols, lengths, id as u64).len() == code_length(base_frequencies(context), id)
        }),
{
    let (symbols, lengths) = base_code_table(context);
    let bases = base_frequencies(context);
    let entries = side_by_side(symbols, lengths);
    let unsorted = table_entries(bases);
    table_exists(context);
    every_base_has_entry(symbols, lengths, context, id);
    let k = entry_of(symbols, id as u64);
    assert(symbols[k] == id as u64);
    to_multiset_contains(entries, entries[k]);
    to_multiset_contains(unsorted, entries[k]);
    assert(entries.contains(entries[k]));
    let j = choose|j: int| 0 <= j < unsorted.len() && unsorted[j] == entries[k];
    assert(bases[j].symbol == j as u64);
    assert(code_length(bases, id) <= 255);
}

/// One more occurrence of a symbol costs one more code.
proof fn one_more_occurrence(weights: Seq<nat>, lengths: Seq<nat>, i: int)
    requires
        weights.len() == lengths.len(),
        0 <= i < weights.len(),
    ensures
        code_cost(weights.update(i, weights[i] + 1), lengths) == code_cost(weights, lengths)
            + lengths[i],
    decreases weights.len(),
{
    let more = weights.update(i, weights[i] + 1);
    if i < weights.len() - 1 {
        one_more_occurrence(weights.drop_last(), lengths.drop_last(), i);
        assert(more.drop_last() =~= weights.drop_last().update(i, weights[i] + 1));
    } else {
        let (w, l) = (weights[i] as int, lengths[i] as int);
        assert(more.drop_last() =~= weights.drop_last());
        assert((w + 1) * l == w * l + l) by (nonlinear_arith);
    }
}

/// Symbols that do not occur cost nothing.
proof fn nothing_occurs(weights: Seq<nat>, lengths: Seq<nat>)
    requires
        weights.len() == lengths.len(),
        forall|i: int| 0 <= i < weights.len() ==> #[trigger] weights[i] == 0,
    ensures
        code_cost(weights, lengths) == 0,
    decreases weights.len(),
{
    if weights.len() > 0 {
        assert(weights.last() == weights[weights.len() - 1]);
        let l = lengths.last() as int;
        assert(0 * l == 0);
        nothing_occurs(weights.drop_last(), lengths.drop_last());
    }
}

/// The cost of codes is what the rows take together.
proof fn cost_is_of_rows(ids: Seq<usize>, lengths: Seq<nat>, n: int)
    requires
        0 <= n <= ids.len(),
        forall|row: int| 0 <= row < n ==> #[trigger] ids[row] < lengths.len(),
    ensures
        code_cost(Seq::new(lengths.len(), |id: int| rows_in_group(ids, id, n)), lengths) == sum_of(
            Seq::new(n as nat, |row: int| lengths[ids[row] as int]),
        ),
    decreases n,
{
    let counts = Seq::new(lengths.len(), |id: int| rows_in_group(ids, id, n));
    let parts = Seq::new(n as nat, |row: int| lengths[ids[row] as int]);
    if n > 0 {
        cost_is_of_rows(ids, lengths, n - 1);
        let before = Seq::new(lengths.len(), |id: int| rows_in_group(ids, id, n - 1));
        let at = ids[n - 1] as int;
        one_more_occurrence(before, lengths, at);
        assert(counts =~= before.update(at, before[at] + 1));
        assert(parts.drop_last() =~= Seq::new((n - 1) as nat, |row: int| lengths[ids[row] as int]));
    } else {
        nothing_occurs(counts, lengths);
    }
}

/// Parts together are as long as the sum of their lengths.
proof fn joined_len(parts: Seq<Seq<bool>>, lengths: Seq<nat>)
    requires
        parts.len() == lengths.len(),
        forall|i: int| 0 <= i < parts.len() ==> (#[trigger] parts[i]).len() == lengths[i],
    ensures
        join(parts).len() == sum_of(lengths),
    decreases parts.len(),
{
    if parts.len() > 0 {
        assert(parts.last() == parts[parts.len() - 1]);
        joined_len(parts.drop_last(), lengths.drop_last());
    }
}

/// No other prefix code with at least one bit for each base writes the base numbers of all rows in fewer
/// bits.
pub proof fn rows_take_fewest_code_bits(context: PreEncodeContext, lengths: Seq<nat>, limit: nat)
    requires
        counts_rows(context),
        total_frequency(base_frequencies(context)) <= usize::MAX,
        lengths.len() == context.variable_base_table@.len(),
        is_prefix_code(lengths, limit),
        forall|id: int| 0 <= id < lengths.len() ==> #[trigger] lengths[id] > 0,
    ensures
        join(row_codes(context)).len() <= sum_of(
            Seq::new(
                context.bit_data.data.num_rows as nat,
                |row: int| lengths[context.row_to_base_id@[row] as int],
            ),
        ),
{
    let bases = base_frequencies(context);
    let ids = context.row_to_base_id@;
    let n = context.bit_data.data.num_rows as int;
    let built = code_lengths(bases);
    let counts = Seq::new(lengths.len(), |id: int| rows_in_group(ids, id, n));
    assert(frequencies(bases) =~= counts) by {
        assert forall|id: int| 0 <= id < counts.len() implies #[trigger] counts[id] == frequencies(
            bases,
        )[id] by {
            assert(context.variable_base_table@[id].1 == rows_in_group(ids, id, n));
        }
    }
    code_lengths_cost_least(bases, lengths, limit);
    cost_is_of_rows(ids, lengths, n);
    cost_is_of_rows(ids, built, n);
    let parts = Seq::new(n as nat, |row: int| built[ids[row] as int]);
    let codes = row_codes(context);
    assert forall|row: int| 0 <= row < codes.len() implies (#[trigger] codes[row]).len()
        == parts[row] by {
        assert(ids[row] < context.variable_base_table@.len());
        code_has_built_length(context, ids[row] as int);
    }
    joined_len(codes, parts);
}

} // verus!
