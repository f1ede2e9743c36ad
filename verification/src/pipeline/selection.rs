//! The choice of base bits by the size of what is compressed.
use vstd::prelude::*;

use crate::base_bits::{distinct, distinct_are_entries, patterns, BaseBitGroups};
use crate::dataset::{BitData, BitDataSet};
use crate::entropy::EntropyBitScore;
use crate::pipeline::ordering::{by_score, by_score_orders, leading_are_up_to, leading_up_to};
use crate::pipeline::search::{
    bits_taken, calculate_compressed_size, count_flat, first_least_is_least, gives_up, seen,
    size_with_bases, sort_by_score, BaseSearch,
};
use crate::utils::{bits_needed, bits_needed_bound};

verus! {

/// The positions of entries.
pub open spec fn bit_positions(entries: Seq<EntropyBitScore>) -> Seq<usize> {
    Seq::new(entries.len(), |k: int| entries[k].0)
}

/// The positions of bits without entropy, in the order of their entries.
pub open spec fn flat_bits(entries: Seq<EntropyBitScore>) -> Seq<usize> {
    let sorted = by_score(entries);
    bit_positions(sorted.take(leading_up_to(sorted, 0) as int))
}

/// The positions of the other bits, from the lowest entropy to the highest.
pub open spec fn varying_bits(entries: Seq<EntropyBitScore>) -> Seq<usize> {
    let sorted = by_score(entries);
    bit_positions(sorted.skip(leading_up_to(sorted, 0) as int))
}

/// The size of rows where the bits without entropy and the first `count` others are base bits.
pub open spec fn size_with_bits(data: BitData, entries: Seq<EntropyBitScore>, count: int) -> nat {
    size_with_bases(
        distinct(patterns(data, varying_bits(entries).take(count))).len(),
        (flat_bits(entries).len() + count) as nat,
        data.num_rows as nat,
        data.chunk_size as nat,
    )
}

/// The sizes of rows with no base bit that varies, with one, and so on.
pub open spec fn sizes_with_bits(data: BitData, entries: Seq<EntropyBitScore>) -> Seq<usize> {
    Seq::new(
        varying_bits(entries).len() + 1,
        |count: int| size_with_bits(data, entries, count) as usize,
    )
}

/// Whether entries are those of bits of a row, and sizes of rows can be computed.
pub open spec fn can_select(data: BitData, entries: Seq<EntropyBitScore>) -> bool {
    &&& data.valid()
    &&& forall|i: int| 0 <= i < entries.len() ==> (#[trigger] entries[i]).0 < data.chunk_size
    &&& data.num_rows * (2 * data.chunk_size + 64) <= usize::MAX
    &&& data.chunk_size + 64 <= usize::MAX
    &&& 2 * data.num_rows <= usize::MAX
}

/// The size of rows with a base table fits a machine word.
pub proof fn sizes_fit(bases: nat, base_bits: nat, rows: nat, row_bits: nat)
    requires
        bases <= rows <= usize::MAX,
        rows * (2 * row_bits + 64) <= usize::MAX,
    ensures
        size_with_bases(bases, base_bits, rows, row_bits) <= usize::MAX,
{
    let table_bits = if base_bits <= row_bits {
        base_bits
    } else {
        row_bits
    };
    let id_bits = if bases <= 1 {
        0
    } else {
        bits_needed(bases)
    };
    vstd::arithmetic::power2::lemma2_to64();
    bits_needed_bound(bases, 64);
    let own = (row_bits - table_bits) as nat + id_bits;
    assert(bases * table_bits <= rows * row_bits) by (nonlinear_arith)
        requires
            bases <= rows,
            table_bits <= row_bits,
    ;
    assert(rows * own <= rows * (row_bits + 64)) by (nonlinear_arith)
        requires
            own <= row_bits + 64,
    ;
    assert(rows * row_bits + rows * (row_bits + 64) == rows * (2 * row_bits + 64))
        by (nonlinear_arith);
}

/// Sorted entries are entries, so their bits exist where those of the entries do.
proof fn sorted_bits_exist(entries: Seq<EntropyBitScore>, limit: nat, i: int)
    requires
        forall|k: int| 0 <= k < entries.len() ==> (#[trigger] entries[k]).0 < limit,
        0 <= i < by_score(entries).len(),
    ensures
        by_score(entries)[i].0 < limit,
{
    broadcast use vstd::seq_lib::group_to_multiset_ensures;
    let sorted = by_score(entries);
    by_score_orders(entries);
    assert(sorted.contains(sorted[i]));
    assert(sorted.to_multiset().count(sorted[i]) > 0);
    assert(entries.to_multiset().count(sorted[i]) > 0);
    assert(entries.contains(sorted[i]));
}

fn size_of(bit_data: &BitDataSet, groups: &BaseBitGroups) -> (size: usize)
    requires
        groups.groups(bit_data.data),
        groups.variable_bits@.len() + groups.constant_bits@.len() <= usize::MAX,
        bit_data.data.num_rows * (2 * bit_data.data.chunk_size + 64) <= usize::MAX,
        bit_data.data.chunk_size + 64 <= usize::MAX,
    ensures
        size == size_with_bases(
            distinct(patterns(bit_data.data, groups.variable_bits@)).len(),
            groups.variable_bits@.len() + groups.constant_bits@.len(),
            bit_data.data.num_rows as nat,
            bit_data.data.chunk_size as nat,
        ),
{
    let base_bits: usize = groups.get_num_bits_per_base();
    proof {
        distinct_are_entries(patterns(bit_data.data, groups.variable_bits@));
        sizes_fit(
            groups.num_bases as nat,
            base_bits as nat,
            bit_data.data.num_rows as nat,
            bit_data.data.chunk_size as nat,
        );
    }
    calculate_compressed_size(
        groups.get_num_bases(),
        base_bits,
        bit_data.num_rows(),
        bit_data.chunk_size(),
    )
}

/// The groups of rows by their bits without entropy.
fn flat_groups(bit_data: &BitDataSet, sorted: &Vec<EntropyBitScore>, flat: usize) -> (groups:
    BaseBitGroups)
    requires
        flat <= sorted@.len(),
        forall|i: int| 0 <= i < sorted@.len() ==> (#[trigger] sorted@[i]).0 < bit_data.data.chunk_size,
    ensures
        groups.groups(bit_data.data),
        groups.variable_bits@ == Seq::<usize>::empty(),
        groups.constant_bits@ == bit_positions(sorted@.take(flat as int)),
{
    let mut groups = BaseBitGroups::new(bit_data);
    let mut i: usize = 0;
    assert(bit_positions(sorted@.take(0)) =~= Seq::empty());
    while i < flat
        invariant
            i <= flat <= sorted@.len(),
            forall|k: int|
                0 <= k < sorted@.len() ==> (#[trigger] sorted@[k]).0 < bit_data.data.chunk_size,
            groups.groups(bit_data.data),
            groups.variable_bits@ == Seq::<usize>::empty(),
            groups.constant_bits@ == bit_positions(sorted@.take(i as int)),
        decreases flat - i,
    {
        assert(sorted@[i as int].0 < bit_data.data.chunk_size);
        groups.add_constant_bit_position(bit_data, sorted[i].0);
        assert(bit_positions(sorted@.take(i as int + 1)) =~= bit_positions(
            sorted@.take(i as int),
        ).push(sorted@[i as int].0));
        i += 1;
    }
    groups
}

/// Chooses base bits: those without entropy, then others from the lowest entropy on, so many that
/// the rows take the least size. The search ends where `tau` bits in a row have brought nothing.
pub fn optimize_with_tau(bit_data: &BitDataSet, entropy: &Vec<EntropyBitScore>, tau: usize) -> (best:
    BaseBitGroups)
    requires
        can_select(bit_data.data, entropy@),
    ensures
        best.groups(bit_data.data),
        best.constant_bits@ == flat_bits(entropy@),
        best.variable_bits@ == varying_bits(entropy@).take(
            bits_taken(sizes_with_bits(bit_data.data, entropy@), tau as nat),
        ),
{
    let ghost data = bit_data.data;
    let sorted = sort_by_score(entropy);
    let flat: usize = count_flat(&sorted);
    let total: usize = sorted.len();
    let ghost varying = varying_bits(entropy@);
    let ghost sizes = sizes_with_bits(data, entropy@);
    proof {
        leading_are_up_to(sorted@, 0);
        assert forall|i: int| 0 <= i < sorted@.len() implies (#[trigger] sorted@[i]).0
            < data.chunk_size by {
            sorted_bits_exist(entropy@, data.chunk_size as nat, i);
        }
    }
    let mut trial = flat_groups(bit_data, &sorted, flat);
    let mut best = trial.clone();
    let first_size: usize = size_of(bit_data, &trial);
    let mut search = BaseSearch::new(tau, first_size);
    let mut i: usize = flat;
    proof {
        assert(varying.take(0) =~= Seq::empty());
        assert(sizes[0] == first_size);
        assert(sizes.take(1) =~= seq![first_size]);
    }
    while i < total
        invariant
            flat <= i <= total == sorted@.len(),
            data == bit_data.data,
            can_select(data, entropy@),
            sorted@ == by_score(entropy@),
            flat == leading_up_to(sorted@, 0),
            varying == varying_bits(entropy@),
            sizes == sizes_with_bits(data, entropy@),
            varying.len() == total - flat,
            sizes.len() == varying.len() + 1,
            forall|k: int| 0 <= k < sorted@.len() ==> (#[trigger] sorted@[k]).0 < data.chunk_size,
            trial.groups(data),
            trial.constant_bits@ == flat_bits(entropy@),
            trial.variable_bits@ == varying.take(i - flat),
            best.groups(data),
            best.constant_bits@ == flat_bits(entropy@),
            best.variable_bits@ == varying.take(search.best as int),
            search.tau == tau,
            search.best <= search.tried == i - flat,
            search.has_seen(sizes.take(i - flat + 1)),
            !gives_up(sizes.take(i - flat + 1), tau as nat),
            seen(sizes, tau as nat, 1) == seen(sizes, tau as nat, i - flat + 1),
        decreases total - i,
    {
        let ghost k = i - flat;
        let ghost shorter = sizes.take(k + 1);
        assert(sorted@[i as int].0 < data.chunk_size);
        trial.add_bit_position(bit_data, sorted[i].0);
        proof {
            assert(varying[k] == sorted@[i as int].0);
            assert(varying.take(k + 1) =~= varying.take(k).push(varying[k]));
            assert(flat_bits(entropy@).len() == flat);
        }
        let size: usize = size_of(bit_data, &trial);
        let best_before: usize = search.best;
        let go_on: bool = search.try_size(size);
        proof {
            assert(sizes[k + 1] == size);
            assert(sizes.take(k + 2) =~= shorter.push(size));
            assert(seen(sizes, tau as nat, k + 1) == seen(sizes, tau as nat, k + 2));
        }
        if search.best != best_before {
            proof {
                first_least_is_least(shorter);
                assert(shorter.push(size).drop_last() =~= shorter);
                assert(search.best == k + 1);
            }
            best = trial.clone();
        }
        i += 1;
        if !go_on {
            assert(seen(sizes, tau as nat, k + 2) == k + 2);
            return best;
        }
    }
    best
}

} // verus!
