//! The choice of base bits is by the size of what is stored.
use vstd::prelude::*;

use crate::base_bits::{distinct_are_entries, pattern, patterns, BaseBitGroups};
use crate::base_table::PreEncodeContext;
use crate::base_table_builder::{built, roles};
use crate::bits::{join, join_uniform};
use crate::dataset::BitData;
use crate::encoding::deviation::encoded_rows;
use crate::encoding::layout::{
    base_mask, clear_count, deviation_width, id_width, row_symbols, row_symbols_uniform,
};
use crate::entropy::EntropyBitScore;
use crate::pipeline::compress::are_chosen;
use crate::pipeline::condensed_rows::first_member;
use crate::pipeline::ordering::{by_score, by_score_orders, leading_are_up_to, leading_up_to};
use crate::pipeline::search::{bits_taken, size_with_bases, taken_bits_are_best};
use crate::pipeline::selection::{
    bit_positions, can_select, flat_bits, size_with_bits, sizes_fit, sizes_with_bits, varying_bits,
};
use crate::utils::{is_least_width, least_width_is_needed};

verus! {

/// The bases of groups with all their base bits, constant ones and others.
pub open spec fn full_bases(data: BitData, groups: BaseBitGroups) -> Seq<Seq<bool>> {
    Seq::new(
        groups.num_bases as nat,
        |g: int|
            pattern(
                data.row(first_member(groups.row_to_id@, g, 0)),
                groups.constant_bits@ + groups.variable_bits@,
            ),
    )
}

/// How many bits are stored of rows: all bases, one behind the other, and the encoded rows. The
/// number of the base, one bit in each row, does not count where there is only one base.
pub open spec fn stored_size(context: PreEncodeContext, groups: BaseBitGroups) -> int {
    join(full_bases(context.bit_data.data, groups)).len() + encoded_rows(context).bits.len() - (
    if groups.num_bases <= 1 {
        context.bit_data.data.num_rows as int
    } else {
        0
    })
}

/// Whether base bits are bits of a row, none of them twice.
pub open spec fn base_bits_differ(groups: BaseBitGroups) -> bool {
    (groups.constant_bits@ + groups.variable_bits@).no_duplicates()
}

proof fn nothing_marked(mask: Seq<bool>)
    requires
        forall|p: int| 0 <= p < mask.len() ==> !#[trigger] mask[p],
    ensures
        clear_count(mask) == mask.len(),
    decreases mask.len(),
{
    if mask.len() > 0 {
        assert(!mask[mask.len() - 1]);
        nothing_marked(mask.drop_last());
    }
}

proof fn one_mark_less(mask: Seq<bool>, p: int)
    requires
        0 <= p < mask.len(),
        mask[p],
    ensures
        clear_count(mask.update(p, false)) == clear_count(mask) + 1,
    decreases mask.len(),
{
    let after = mask.update(p, false);
    if p < mask.len() - 1 {
        one_mark_less(mask.drop_last(), p);
        assert(after.drop_last() =~= mask.drop_last().update(p, false));
    } else {
        assert(after.drop_last() =~= mask.drop_last());
    }
}

/// A mask has as many marks as there are marked bits.
proof fn marks_are_counted(mask: Seq<bool>, bits: Seq<usize>)
    requires
        bits.no_duplicates(),
        mask.len() <= usize::MAX,
        forall|k: int| 0 <= k < bits.len() ==> #[trigger] bits[k] < mask.len(),
        forall|p: int| 0 <= p < mask.len() ==> #[trigger] mask[p] == bits.contains(p as usize),
    ensures
        clear_count(mask) + bits.len() == mask.len(),
    decreases bits.len(),
{
    if bits.len() == 0 {
        nothing_marked(mask);
    } else {
        let fewer = bits.drop_last();
        let last = bits.last() as int;
        assert(bits[bits.len() - 1] == last);
        assert(bits.contains(last as usize));
        let after = mask.update(last, false);
        assert forall|p: int| 0 <= p < after.len() implies #[trigger] after[p] == fewer.contains(
            p as usize,
        ) by {
            if p == last {
                if fewer.contains(p as usize) {
                    let k = choose|k: int| 0 <= k < fewer.len() && fewer[k] == p as usize;
                    assert(bits[k] == bits[bits.len() - 1]);
                }
            } else {
                if bits.contains(p as usize) {
                    let k = choose|k: int| 0 <= k < bits.len() && bits[k] == p as usize;
                    assert(fewer[k] == p as usize);
                }
                if fewer.contains(p as usize) {
                    let k = choose|k: int| 0 <= k < fewer.len() && fewer[k] == p as usize;
                    assert(bits[k] == p as usize);
                }
            }
        }
        assert forall|k: int| 0 <= k < fewer.len() implies #[trigger] fewer[k] < after.len() by {
            assert(bits[k] == fewer[k]);
        }
        assert(fewer.no_duplicates()) by {
            assert forall|i: int, j: int| 0 <= i < fewer.len() && 0 <= j < fewer.len() && i
                != j implies fewer[i] != fewer[j] by {
                assert(bits[i] != bits[j]);
            }
        }
        one_mark_less(mask, last);
        marks_are_counted(after, fewer);
    }
}

/// The size by which choices of base bits are compared is the number of bits that are stored of the
/// rows for the choice.
pub proof fn size_is_what_is_stored(
    context: PreEncodeContext,
    groups: BaseBitGroups,
    order: Option<Vec<usize>>,
)
    requires
        groups.groups(context.bit_data.data),
        built(context, context.bit_data, groups, order),
        base_bits_differ(groups),
    ensures
        size_with_bases(
            groups.num_bases as nat,
            groups.constant_bits@.len() + groups.variable_bits@.len(),
            context.bit_data.data.num_rows as nat,
            context.bit_data.data.chunk_size as nat,
        ) == stored_size(context, groups),
{
    let data = context.bit_data.data;
    let bits = groups.constant_bits@ + groups.variable_bits@;
    let mask = base_mask(context.layout@);
    let parts = full_bases(data, groups);
    assert forall|k: int| 0 <= k < bits.len() implies #[trigger] bits[k] < mask.len() by {
        if k < groups.constant_bits@.len() {
            assert(bits[k] == groups.constant_bits@[k]);
        } else {
            assert(bits[k] == groups.variable_bits@[k - groups.constant_bits@.len()]);
        }
    }
    assert forall|p: int| 0 <= p < mask.len() implies #[trigger] mask[p] == bits.contains(
        p as usize,
    ) by {
        let bit = p as usize;
        if groups.constant_bits@.contains(bit) {
            let k = choose|k: int|
                0 <= k < groups.constant_bits@.len() && groups.constant_bits@[k] == bit;
            assert(bits[k] == bit);
        }
        if groups.variable_bits@.contains(bit) {
            let k = choose|k: int|
                0 <= k < groups.variable_bits@.len() && groups.variable_bits@[k] == bit;
            assert(bits[groups.constant_bits@.len() + k] == bit);
        }
        if bits.contains(bit) {
            let k = choose|k: int| 0 <= k < bits.len() && bits[k] == bit;
            if k < groups.constant_bits@.len() {
                assert(groups.constant_bits@[k] == bit);
            } else {
                assert(groups.variable_bits@[k - groups.constant_bits@.len()] == bit);
            }
        }
        assert(context.layout@[p] == roles(data, groups)[p]);
    }
    marks_are_counted(mask, bits);
    join_uniform(parts, bits.len());
    row_symbols_uniform(context);
    join_uniform(row_symbols(context), deviation_width(context) + id_width(context));
    let rows = data.num_rows as int;
    let own = deviation_width(context) as int;
    assert(rows * (own + 1) == rows * own + rows) by (nonlinear_arith);
    assert(rows * (own + 0) == rows * own);
}

/// The size of rows with a base table is what their streams take: all bases, one behind the other, and
/// all rows, each with the bits that are in no base and the number of its base in the least width that
/// tells all bases apart. One base needs no number, and a base has no more bits than a row.
pub proof fn size_counts_streams(
    bases: Seq<Seq<bool>>,
    rows: Seq<Seq<bool>>,
    base_bits: nat,
    row_bits: nat,
    id_bits: nat,
)
    requires
        base_bits <= row_bits,
        bases.len() <= 1 ==> id_bits == 0,
        bases.len() > 1 ==> is_least_width(id_bits, bases.len()),
        forall|k: int| 0 <= k < bases.len() ==> (#[trigger] bases[k]).len() == base_bits,
        forall|k: int|
            0 <= k < rows.len() ==> (#[trigger] rows[k]).len() == row_bits - base_bits + id_bits,
    ensures
        size_with_bases(bases.len(), base_bits, rows.len(), row_bits) == join(bases).len() + join(
            rows,
        ).len(),
        size_with_bases(bases.len(), row_bits + base_bits, rows.len(), row_bits) == size_with_bases(
            bases.len(),
            row_bits,
            rows.len(),
            row_bits,
        ),
{
    if bases.len() > 1 {
        least_width_is_needed(id_bits, bases.len());
    }
    join_uniform(bases, base_bits);
    join_uniform(rows, (row_bits - base_bits) as nat + id_bits);
}

/// Entries of different bits are still of different bits in the order of their entropy.
proof fn sorted_bits_differ(entries: Seq<EntropyBitScore>, n: int)
    requires
        entries_differ(entries),
        0 <= n <= entries.len(),
    ensures
        bit_positions(by_score(entries).take(n)).no_duplicates(),
{
    broadcast use vstd::seq_lib::group_to_multiset_ensures;

    let sorted = by_score(entries);
    by_score_orders(entries);
    assert(entries.no_duplicates());
    entries.lemma_multiset_has_no_duplicates();
    sorted.lemma_multiset_has_no_duplicates_conv();
    let bits = bit_positions(sorted.take(n));
    assert forall|i: int, j: int| 0 <= i < bits.len() && 0 <= j < bits.len() && i != j implies bits[i]
        != bits[j] by {
        assert(sorted[i] != sorted[j]);
        assert(sorted.contains(sorted[i]) && sorted.contains(sorted[j]));
        assert(entries.to_multiset().count(sorted[i]) > 0);
        assert(entries.to_multiset().count(sorted[j]) > 0);
        assert(entries.contains(sorted[i]) && entries.contains(sorted[j]));
        let a = choose|a: int| 0 <= a < entries.len() && entries[a] == sorted[i];
        let b = choose|b: int| 0 <= b < entries.len() && entries[b] == sorted[j];
        assert(entries[a].0 != entries[b].0);
    }
}

/// Whether entries are those of different bits.
pub open spec fn entries_differ(entries: Seq<EntropyBitScore>) -> bool {
    forall|i: int, j: int|
        0 <= i < entries.len() && 0 <= j < entries.len() && i != j ==> (#[trigger] entries[i]).0 != (
        #[trigger] entries[j]).0
}

/// Whether groups are those of rows by the bits without entropy and the first `count` others.
pub open spec fn has_first_bits(
    groups: BaseBitGroups,
    data: BitData,
    entries: Seq<EntropyBitScore>,
    count: int,
) -> bool {
    &&& groups.groups(data)
    &&& 0 <= count <= varying_bits(entries).len()
    &&& groups.constant_bits@ == flat_bits(entries)
    &&& groups.variable_bits@ == varying_bits(entries).take(count)
}

/// The size that the search sees for a choice is what is stored for it.
proof fn seen_size_is_stored(
    context: PreEncodeContext,
    groups: BaseBitGroups,
    entries: Seq<EntropyBitScore>,
    count: int,
)
    requires
        can_select(context.bit_data.data, entries),
        entries_differ(entries),
        has_first_bits(groups, context.bit_data.data, entries, count),
        built(context, context.bit_data, groups, None),
    ensures
        sizes_with_bits(context.bit_data.data, entries)[count] == stored_size(context, groups),
{
    let data = context.bit_data.data;
    let sorted = by_score(entries);
    let flat = leading_up_to(sorted, 0) as int;
    by_score_orders(entries);
    leading_are_up_to(sorted, 0);
    sorted_bits_differ(entries, flat + count);
    let bits = groups.constant_bits@ + groups.variable_bits@;
    assert(bits =~= bit_positions(sorted.take(flat + count)));
    size_is_what_is_stored(context, groups, None);
    distinct_are_entries(patterns(data, groups.variable_bits@));
    sizes_fit(
        groups.num_bases as nat,
        (flat + count) as nat,
        data.num_rows as nat,
        data.chunk_size as nat,
    );
    assert(size_with_bits(data, entries, count) == stored_size(context, groups));
}

/// Of the choices of base bits that the search can see, none stores the rows in fewer bits than the one
/// that is taken: not with fewer bits, nor with one, nor with up to `tau` bits more.
pub proof fn chosen_bits_store_least(
    context: PreEncodeContext,
    groups: BaseBitGroups,
    other_context: PreEncodeContext,
    other: BaseBitGroups,
    entries: Seq<EntropyBitScore>,
    tau: nat,
    count: int,
)
    requires
        can_select(context.bit_data.data, entries),
        entries_differ(entries),
        are_chosen(groups, context.bit_data.data, entries, tau),
        built(context, context.bit_data, groups, None),
        other_context.bit_data == context.bit_data,
        has_first_bits(other, context.bit_data.data, entries, count),
        built(other_context, context.bit_data, other, None),
        count <= 1 || count <= groups.variable_bits@.len() + tau,
    ensures
        stored_size(context, groups) <= stored_size(other_context, other),
        count < groups.variable_bits@.len() ==> stored_size(context, groups) < stored_size(
            other_context,
            other,
        ),
{
    let data = context.bit_data.data;
    let sizes = sizes_with_bits(data, entries);
    let taken = bits_taken(sizes, tau);
    taken_bits_are_best(sizes, tau, count);
    seen_size_is_stored(context, groups, entries, taken);
    seen_size_is_stored(other_context, other, entries, count);
}

} // verus!
