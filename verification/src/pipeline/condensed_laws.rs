//! What condensed rows keep of the rows that they stand for.
use vstd::prelude::*;

use crate::base_bits::{distinct, distinct_are_entries, patterns, BaseBitGroups};
use crate::base_table_builder::rows_in_group;
use crate::bits::{high_digits_first, join, join_push, BitStream};
use crate::data::{features_width, FeatureSpec};
use crate::dataset::{row_in_bounds, BitData, BitDataSet};
use crate::encoding::huffman::{spelled, spelled_prefix};
use crate::entropy::{scores, EntropyBitScore};
use crate::pipeline::compress::{
    flat_bits_hold, has_flat_bits, rows_hold_flat_bits, tells_bits_apart,
};
use crate::pipeline::condense::{are_condensed_groups, bits_with, entries_taken, group_count};
use crate::pipeline::condensed_rows::{
    bits_of_kind, first_member, group_has_member, is_shared, raised_words, shared_row, word_count,
    word_len, word_of,
};
use crate::pipeline::implementation::extends;
use crate::pipeline::ordering::{
    by_score, by_score_orders, flat_entries, leading_are_up_to, organized,
};
use crate::pipeline::selection::flat_bits;

verus! {

/// A row with the shared bits of one row and the others of another one.
pub open spec fn mixed_row(base: Seq<bool>, own: Seq<bool>, groups: BaseBitGroups) -> Seq<bool> {
    Seq::new(
        base.len(),
        |i: int|
            if is_shared(groups, i) {
                base[i]
            } else {
                own[i]
            },
    )
}

/// Whether averages are the words of a row without its shared bits.
pub open spec fn averages_of(averages: Seq<u64>, own: Seq<bool>, groups: BaseBitGroups) -> bool {
    &&& averages.len() == word_count(own.len())
    &&& forall|w: int|
        0 <= w < averages.len() ==> #[trigger] averages[w] == word_of(
            bits_of_kind(own, groups, false),
            w,
        )
}

/// Bits that are not set at the same places spell numbers that are added.
pub proof fn spelled_sum(a: Seq<bool>, b: Seq<bool>, sum: Seq<bool>, start: int, len: nat)
    requires
        0 <= start,
        start + len <= sum.len(),
        a.len() == sum.len(),
        b.len() == sum.len(),
        forall|i: int|
            0 <= i < sum.len() ==> #[trigger] sum[i] == (a[i] || b[i]) && !(a[i] && b[i]),
    ensures
        spelled(sum, start, len) == spelled(a, start, len) + spelled(b, start, len),
    decreases len,
{
    if len > 0 {
        spelled_sum(a, b, sum, start, (len - 1) as nat);
        let last = sum[start + len - 1];
    }
}

/// The digits of the number that bits spell are those bits.
pub proof fn digits_of_spelled(bits: Seq<bool>, start: int, len: nat)
    requires
        0 <= start,
        start + len <= bits.len(),
    ensures
        high_digits_first(spelled(bits, start, len), len) == bits.subrange(start, start + len),
{
    let value = spelled(bits, start, len);
    assert forall|k: int| 0 <= k < len implies #[trigger] high_digits_first(value, len)[k]
        == bits.subrange(start, start + len)[k] by {
        spelled_prefix(bits, start, (k + 1) as nat, len);
        let below = spelled(bits, start, k as nat);
        assert(spelled(bits, start, (k + 1) as nat) == 2 * below + (if bits[start + k] {
            1nat
        } else {
            0nat
        }));
        assert((len - (k + 1)) as nat == (len - 1 - k) as nat);
    }
    assert(high_digits_first(value, len) =~= bits.subrange(start, start + len));
}

/// The first words with averages added are the beginning of the row that has both.
proof fn words_joined(base: Seq<bool>, averages: Seq<u64>, mixed: Seq<bool>, n: int)
    requires
        mixed.len() == base.len(),
        0 <= n <= word_count(base.len()),
        forall|w: int|
            0 <= w < word_count(base.len()) ==> word_of(base, w) + #[trigger] averages[w]
                == word_of(mixed, w),
    ensures
        join(raised_words(base, averages).take(n)) == mixed.take(
            if 64 * n <= base.len() {
                64 * n
            } else {
                base.len() as int
            },
        ),
    decreases n,
{
    let parts = raised_words(base, averages);
    if n > 0 {
        let w = n - 1;
        words_joined(base, averages, mixed, w);
        assert(parts.take(n) =~= parts.take(w).push(parts[w]));
        join_push(parts.take(w), parts[w]);
        let len = word_len(base.len(), w);
        digits_of_spelled(mixed, 64 * w, len);
        assert(word_of(base, w) + averages[w] == word_of(mixed, w));
        assert(parts[w] == mixed.subrange(64 * w, 64 * w + len));
        assert(mixed.take(64 * w) + mixed.subrange(64 * w, 64 * w + len) =~= mixed.take(
            64 * w + len,
        ));
    } else {
        assert(parts.take(0) =~= Seq::empty());
        assert(mixed.take(0) =~= Seq::empty());
    }
}

/// Averages without shared bits leave the shared bits of a group as they are, and fill in the
/// others.
pub proof fn condensed_row_keeps_shared_bits(
    data: BitData,
    groups: BaseBitGroups,
    g: int,
    averages: Seq<u64>,
    own: Seq<bool>,
)
    requires
        data.valid(),
        groups.groups(data),
        0 <= g < groups.num_bases,
        own.len() == data.chunk_size,
        averages_of(averages, own, groups),
    ensures
        join(raised_words(shared_row(data, groups, g), averages)) == mixed_row(
            data.row(first_member(groups.row_to_id@, g, 0)),
            own,
            groups,
        ),
{
    group_has_member(data, groups, g);
    let first = first_member(groups.row_to_id@, g, 0);
    row_len(data, first);
    let row = data.row(first);
    let base = shared_row(data, groups, g);
    let rest = bits_of_kind(own, groups, false);
    let mixed = mixed_row(row, own, groups);
    assert forall|w: int| 0 <= w < word_count(base.len()) implies word_of(base, w)
        + #[trigger] averages[w] == word_of(mixed, w) by {
        spelled_sum(base, rest, mixed, 64 * w, word_len(base.len(), w));
    }
    let n = word_count(base.len()) as int;
    words_joined(base, averages, mixed, n);
    assert(raised_words(base, averages).take(n) =~= raised_words(base, averages));
    assert(mixed.take(base.len() as int) =~= mixed);
}

/// A row whose own bits are the averages of its group is the row that stands for the group, where
/// it is the first one of the group.
pub proof fn row_stands_for_itself(
    data: BitData,
    groups: BaseBitGroups,
    g: int,
    averages: Seq<u64>,
)
    requires
        data.valid(),
        groups.groups(data),
        0 <= g < groups.num_bases,
        averages_of(averages, data.row(first_member(groups.row_to_id@, g, 0)), groups),
    ensures
        join(raised_words(shared_row(data, groups, g), averages)) == data.row(
            first_member(groups.row_to_id@, g, 0),
        ),
{
    let row = data.row(first_member(groups.row_to_id@, g, 0));
    group_has_member(data, groups, g);
    row_len(data, first_member(groups.row_to_id@, g, 0));
    condensed_row_keeps_shared_bits(data, groups, g, averages, row);
    assert(mixed_row(row, row, groups) =~= row);
}

/// Whether bits without entropy are shared.
pub open spec fn shares_flat_bits(groups: BaseBitGroups, entries: Seq<EntropyBitScore>) -> bool {
    forall|k: int|
        0 <= k < flat_bits(entries).len() ==> is_shared(
            groups,
            #[trigger] flat_bits(entries)[k] as int,
        )
}

/// A condensed row has the bits that are the same in all rows, where these are shared and the
/// averages have no shared bits.
pub proof fn condensed_row_has_flat_bits(
    all: BitDataSet,
    set: BitDataSet,
    samples: Seq<BitStream>,
    score_of_count: Seq<u64>,
    groups: BaseBitGroups,
    g: int,
    averages: Seq<u64>,
    own: Seq<bool>,
)
    requires
        set.data.valid(),
        extends(all, set, samples),
        tells_bits_apart(score_of_count, set.data.num_rows as nat),
        groups.groups(set.data),
        shares_flat_bits(groups, scores(set.data, score_of_count)),
        samples.len() == groups.num_bases,
        0 <= g < samples.len(),
        own.len() == set.data.chunk_size,
        averages_of(averages, own, groups),
        samples[g]@ == join(raised_words(shared_row(set.data, groups, g), averages)),
    ensures
        has_flat_bits(all.data, scores(set.data, score_of_count), set.data.num_rows + g),
{
    let entries = scores(set.data, score_of_count);
    let flat = flat_bits(entries);
    let first = first_member(groups.row_to_id@, g, 0);
    group_has_member(set.data, groups, g);
    row_len(set.data, first);
    condensed_row_keeps_shared_bits(set.data, groups, g, averages, own);
    rows_hold_flat_bits(set.data, score_of_count);
    assert(flat_bits_hold(set.data, entries, set.data.num_rows as int));
    assert(has_flat_bits(set.data, entries, first));
    assert forall|k: int| 0 <= k < flat.len() implies all.data.row(
        set.data.num_rows + g,
    )[#[trigger] flat[k] as int] == all.data.row(0)[flat[k] as int] by {
        assert(is_shared(groups, flat[k] as int));
        assert(flat[k] < set.data.chunk_size);
        assert(all.data.row(set.data.num_rows + g) == samples[g]@);
        assert(all.data.row(0) == set.data.row(0));
    }
}

/// A row has as many bits as the rows of its dataset.
proof fn row_len(data: BitData, row: int)
    requires
        data.valid(),
        0 <= row < data.num_rows,
    ensures
        data.row(row).len() == data.chunk_size,
{
    row_in_bounds(
        row,
        data.num_rows as int,
        data.stride as int,
        data.chunk_size as int,
    );
}

/// An entry without entropy is among those of its kind.
proof fn flat_entry_is_listed(entries: Seq<EntropyBitScore>, features: Seq<FeatureSpec>, i: int)
    requires
        0 <= i < entries.len(),
        entries[i].1 == 0,
        entries[i].0 < features_width(features),
    ensures
        flat_entries(entries, features).contains(entries[i]),
    decreases entries.len(),
{
    let before = flat_entries(entries.drop_last(), features);
    let all = flat_entries(entries, features);
    if i < entries.len() - 1 {
        flat_entry_is_listed(entries.drop_last(), features, i);
        let k = choose|k: int| 0 <= k < before.len() && before[k] == entries[i];
        assert(all[k] == entries[i]);
    } else {
        assert(all[before.len() as int] == entries[i]);
    }
}

/// Entries without entropy have none.
proof fn flat_entries_are_flat(entries: Seq<EntropyBitScore>, features: Seq<FeatureSpec>)
    ensures
        forall|k: int|
            0 <= k < flat_entries(entries, features).len() ==> (#[trigger] flat_entries(
                entries,
                features,
            )[k]).1 == 0,
    decreases entries.len(),
{
    if entries.len() > 0 {
        let before = flat_entries(entries.drop_last(), features);
        let all = flat_entries(entries, features);
        flat_entries_are_flat(entries.drop_last(), features);
        assert forall|k: int| 0 <= k < all.len() implies (#[trigger] all[k]).1 == 0 by {
            if k < before.len() {
                assert(all[k] == before[k]);
            }
        }
    }
}

/// Where no entry has entropy, all rows are in one group.
proof fn flat_entries_make_one_group(data: BitData, entries: Seq<EntropyBitScore>)
    requires
        forall|k: int| 0 <= k < entries.len() ==> (#[trigger] entries[k]).1 == 0,
    ensures
        group_count(data, entries) <= 1,
{
    no_bits_with_entropy(entries);
    let all = patterns(data, bits_with(entries, false));
    let groups = distinct(all);
    distinct_are_entries(all);
    if groups.len() > 1 {
        assert(all.contains(groups[0]));
        assert(all.contains(groups[1]));
        assert(groups[0] =~= groups[1]);
    }
}

proof fn no_bits_with_entropy(entries: Seq<EntropyBitScore>)
    requires
        forall|k: int| 0 <= k < entries.len() ==> (#[trigger] entries[k]).1 == 0,
    ensures
        bits_with(entries, false).len() == 0,
    decreases entries.len(),
{
    if entries.len() > 0 {
        assert(entries.last() == entries[entries.len() - 1]);
        no_bits_with_entropy(entries.drop_last());
    }
}

/// The bit of an entry without entropy is among those bits.
proof fn flat_bit_is_listed(entries: Seq<EntropyBitScore>, i: int)
    requires
        0 <= i < entries.len(),
        entries[i].1 == 0,
    ensures
        bits_with(entries, true).contains(entries[i].0),
    decreases entries.len(),
{
    let before = bits_with(entries.drop_last(), true);
    let all = bits_with(entries, true);
    if i < entries.len() - 1 {
        flat_bit_is_listed(entries.drop_last(), i);
        let k = choose|k: int| 0 <= k < before.len() && before[k] == entries[i].0;
        assert(all[k] == entries[i].0);
    } else {
        assert(all[before.len() as int] == entries[i].0);
    }
}

/// Entries are taken as long as there are too few groups.
proof fn entries_are_taken(
    data: BitData,
    entries: Seq<EntropyBitScore>,
    m_max: nat,
    n: int,
    count: int,
)
    requires
        0 <= n <= count <= entries.len(),
        forall|j: int| n <= j < count ==> group_count(data, #[trigger] entries.take(j)) < m_max,
    ensures
        count <= entries_taken(data, entries, m_max, n) <= entries.len(),
    decreases entries.len() - n,
{
    if n < count {
        assert(group_count(data, entries.take(n)) < m_max);
        entries_are_taken(data, entries, m_max, n + 1, count);
    } else if n < entries.len() && group_count(data, entries.take(n)) < m_max {
        entries_are_taken(data, entries, m_max, n + 1, n + 1);
    }
}

/// The groups of condensed rows share all bits that are the same in all rows, where there may be two
/// groups or more.
pub proof fn condensed_groups_share_flat_bits(
    groups: BaseBitGroups,
    set: BitDataSet,
    entries: Seq<EntropyBitScore>,
    m_max: nat,
)
    requires
        m_max >= 2,
        are_condensed_groups(groups, set, entries, m_max),
        forall|i: int|
            0 <= i < entries.len() ==> (#[trigger] entries[i]).0 < features_width(
                set.info@.features,
            ),
    ensures
        shares_flat_bits(groups, entries),
{
    broadcast use vstd::seq_lib::group_to_multiset_ensures;

    let features = set.info@.features;
    let order = organized(entries, features);
    let flat = flat_entries(entries, features);
    flat_entries_are_flat(entries, features);
    assert forall|j: int| 0 <= j < flat.len() implies group_count(set.data, #[trigger] order.take(j))
        < m_max by {
        assert forall|k: int| 0 <= k < j implies (#[trigger] order.take(j)[k]).1 == 0 by {
            assert(order.take(j)[k] == flat[k]);
        }
        flat_entries_make_one_group(set.data, order.take(j));
    }
    entries_are_taken(set.data, order, m_max, 0, flat.len() as int);
    let taken = order.take(entries_taken(set.data, order, m_max, 0));
    let sorted = by_score(entries);
    by_score_orders(entries);
    leading_are_up_to(sorted, 0);
    assert forall|k: int| 0 <= k < flat_bits(entries).len() implies is_shared(
        groups,
        #[trigger] flat_bits(entries)[k] as int,
    ) by {
        let entry = sorted[k];
        assert(entry.1 == 0);
        assert(sorted.contains(entry));
        assert(sorted.to_multiset().count(entry) > 0);
        assert(entries.to_multiset().count(entry) > 0);
        assert(entries.contains(entry));
        let i = choose|i: int| 0 <= i < entries.len() && entries[i] == entry;
        flat_entry_is_listed(entries, features, i);
        let at = choose|at: int| 0 <= at < flat.len() && flat[at] == entry;
        assert(taken[at] == entry);
        flat_bit_is_listed(taken, at);
        assert(groups.constant_bits@.contains(entry.0));
    }
}

/// How many of the first `n` rows are in one of the first `count` groups.
pub open spec fn rows_in_groups(ids: Seq<usize>, count: int, n: int) -> nat
    decreases count,
{
    if count <= 0 {
        0
    } else {
        rows_in_groups(ids, count - 1, n) + rows_in_group(ids, count - 1, n)
    }
}

/// One more row is in one more of the groups that it can be in.
proof fn one_more_row(ids: Seq<usize>, count: int, n: int)
    requires
        0 <= count,
        0 < n <= ids.len(),
    ensures
        rows_in_groups(ids, count, n) == rows_in_groups(ids, count, n - 1) + (if ids[n - 1] < count {
            1nat
        } else {
            0
        }),
    decreases count,
{
    if count > 0 {
        one_more_row(ids, count - 1, n);
    }
}

/// No rows are in no group.
proof fn no_rows_in_groups(ids: Seq<usize>, count: int)
    ensures
        rows_in_groups(ids, count, 0) == 0,
    decreases count,
{
    if count > 0 {
        no_rows_in_groups(ids, count - 1);
    }
}

/// The weights of the condensed rows add up to the number of rows, and none is more than that.
pub proof fn weights_add_up(ids: Seq<usize>, count: int, g: int, n: int)
    requires
        0 <= n <= ids.len(),
        0 <= g < count,
        forall|row: int| 0 <= row < n ==> #[trigger] ids[row] < count,
    ensures
        rows_in_groups(ids, count, n) == n,
        rows_in_group(ids, g, n) <= n,
    decreases n,
{
    if n > 0 {
        weights_add_up(ids, count, g, n - 1);
        one_more_row(ids, count, n);
        assert(ids[n - 1] < count);
    } else {
        no_rows_in_groups(ids, count);
    }
}

} // verus!
