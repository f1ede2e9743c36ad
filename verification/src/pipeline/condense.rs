//! The groups that condensed rows are made from.
use vstd::prelude::*;

use crate::base_bits::{distinct, patterns, BaseBitGroups};
use crate::dataset::{BitData, BitDataSet};
use crate::entropy::EntropyBitScore;
use crate::pipeline::ordering::{organize_entropy_by_feature, organized};
use crate::pipeline::ordering_laws::organized_bit_exists;

verus! {

/// The positions of entries that have some entropy, or of those that have none.
pub open spec fn bits_with(entries: Seq<EntropyBitScore>, flat: bool) -> Seq<usize>
    decreases entries.len(),
{
    if entries.len() == 0 {
        Seq::empty()
    } else {
        let before = bits_with(entries.drop_last(), flat);
        if (entries.last().1 == 0) == flat {
            before.push(entries.last().0)
        } else {
            before
        }
    }
}

/// How many groups rows are in by the bits of entries.
pub open spec fn group_count(data: BitData, entries: Seq<EntropyBitScore>) -> nat {
    distinct(patterns(data, bits_with(entries, false))).len()
}

/// How many entries are taken, from `n` on: all of them up to the first at which there are
/// `m_max` groups.
pub open spec fn entries_taken(
    data: BitData,
    entries: Seq<EntropyBitScore>,
    m_max: nat,
    n: int,
) -> int
    decreases entries.len() - n,
{
    if n >= entries.len() || group_count(data, entries.take(n)) >= m_max {
        n
    } else {
        entries_taken(data, entries, m_max, n + 1)
    }
}

/// Whether groups are those of rows by the entries that are taken.
pub open spec fn are_condensed_groups(
    groups: BaseBitGroups,
    set: BitDataSet,
    entries: Seq<EntropyBitScore>,
    m_max: nat,
) -> bool {
    let order = organized(entries, set.info@.features);
    let taken = order.take(entries_taken(set.data, order, m_max, 0));
    &&& groups.groups(set.data)
    &&& groups.variable_bits@ == bits_with(taken, false)
    &&& groups.constant_bits@ == bits_with(taken, true)
}

/// Entries are taken until there are as many groups as asked for, or no entry is left, and not one
/// more: any fewer entries make fewer groups.
pub proof fn entries_taken_are_enough(
    data: BitData,
    entries: Seq<EntropyBitScore>,
    m_max: nat,
    n: int,
    fewer: int,
)
    requires
        0 <= n <= entries.len(),
    ensures
        n <= entries_taken(data, entries, m_max, n) <= entries.len(),
        entries_taken(data, entries, m_max, n) == entries.len() || distinct(
            patterns(
                data,
                bits_with(entries.take(entries_taken(data, entries, m_max, n)), false),
            ),
        ).len() >= m_max,
        n <= fewer < entries_taken(data, entries, m_max, n) ==> distinct(
            patterns(data, bits_with(entries.take(fewer), false)),
        ).len() < m_max,
    decreases entries.len() - n,
{
    if n < entries.len() && group_count(data, entries.take(n)) < m_max {
        entries_taken_are_enough(data, entries, m_max, n + 1, fewer);
    }
}

/// Bits of entries are listed where their entropy is as asked for, once for each entry and in the same
/// order.
pub proof fn bits_with_are_listed(entries: Seq<EntropyBitScore>, flat: bool)
    ensures
        bits_with(entries, flat) == entries.filter(
            |entry: EntropyBitScore| (entry.1 == 0) == flat,
        ).map_values(|entry: EntropyBitScore| entry.0),
    decreases entries.len(),
{
    reveal(Seq::filter);
    let kept = entries.filter(|entry: EntropyBitScore| (entry.1 == 0) == flat);
    if entries.len() > 0 {
        bits_with_are_listed(entries.drop_last(), flat);
    }
    assert(bits_with(entries, flat) =~= kept.map_values(|entry: EntropyBitScore| entry.0));
}

/// The groups that condensed rows are made from: bits without entropy are taken first, then those of
/// the features in turn, until there are `m_max` groups.
pub fn condensed_groups(bit_data: &BitDataSet, entropy: &Vec<EntropyBitScore>, m_max: usize) -> (
    groups: BaseBitGroups)
    requires
        bit_data.valid(),
        2 * bit_data.data.num_rows <= usize::MAX,
    ensures
        are_condensed_groups(groups, *bit_data, entropy@, m_max as nat),
{
    let order = organize_entropy_by_feature(entropy, &bit_data.info);
    let ghost data = bit_data.data;
    let ghost entries = order@;
    let mut groups = BaseBitGroups::new(bit_data);
    let mut i: usize = 0;
    let total: usize = order.len();
    assert(entries.take(0) =~= Seq::empty());
    while i < total && groups.get_num_bases() < m_max
        invariant
            i <= total == entries.len(),
            entries == order@,
            data == bit_data.data,
            bit_data.valid(),
            2 * data.num_rows <= usize::MAX,
            entries == organized(entropy@, bit_data.info@.features),
            groups.groups(data),
            groups.variable_bits@ == bits_with(entries.take(i as int), false),
            groups.constant_bits@ == bits_with(entries.take(i as int), true),
            entries_taken(data, entries, m_max as nat, 0) == entries_taken(
                data,
                entries,
                m_max as nat,
                i as int,
            ),
        decreases total - i,
    {
        let (bit, score) = order[i];
        assert(entries.take(i as int + 1).drop_last() =~= entries.take(i as int));
        proof {
            organized_bit_exists(
                entropy@,
                bit_data.info@.features,
                i as int,
            );
        }
        if score == 0 {
            groups.add_constant_bit_position(bit_data, bit);
        } else {
            groups.add_bit_position(bit_data, bit);
        }
        i += 1;
    }
    groups
}

} // verus!
