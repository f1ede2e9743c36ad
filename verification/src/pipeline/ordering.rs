//! The order in which bits are taken for the condensed rows.
use vstd::prelude::*;

use crate::data::{features_width, features_width_monotonic, BitDataInfo, FeatureSpec};
use crate::entropy::EntropyBitScore;

verus! {

/// Whether a bit of a row belongs to a feature.
pub open spec fn lies_in(features: Seq<FeatureSpec>, bit: int, feature: int) -> bool {
    &&& 0 <= feature < features.len()
    &&& features_width(features.take(feature)) <= bit < features_width(features.take(feature + 1))
}

/// A bit belongs to one feature only.
pub proof fn lies_in_one(features: Seq<FeatureSpec>, bit: int, first: int, second: int)
    requires
        lies_in(features, bit, first),
        lies_in(features, bit, second),
    ensures
        first == second,
{
    if first < second {
        features_width_monotonic(features, first + 1, second);
    } else if second < first {
        features_width_monotonic(features, second + 1, first);
    }
}

/// The entries of bits without entropy that a row has, in their order.
pub open spec fn flat_entries(entries: Seq<EntropyBitScore>, features: Seq<FeatureSpec>) -> Seq<
    EntropyBitScore,
>
    decreases entries.len(),
{
    if entries.len() == 0 {
        Seq::empty()
    } else {
        let before = flat_entries(entries.drop_last(), features);
        let entry = entries.last();
        if entry.1 == 0 && entry.0 < features_width(features) {
            before.push(entry)
        } else {
            before
        }
    }
}

/// The entries of the bits of a feature that have some entropy, in their order.
pub open spec fn feature_entries(
    entries: Seq<EntropyBitScore>,
    features: Seq<FeatureSpec>,
    feature: int,
) -> Seq<EntropyBitScore>
    decreases entries.len(),
{
    if entries.len() == 0 {
        Seq::empty()
    } else {
        let before = feature_entries(entries.drop_last(), features, feature);
        let entry = entries.last();
        if entry.1 != 0 && lies_in(features, entry.0 as int, feature) {
            before.push(entry)
        } else {
            before
        }
    }
}

/// The number of leading entries of a list that have no more entropy than `limit`.
pub open spec fn leading_up_to(sorted: Seq<EntropyBitScore>, limit: u64) -> nat
    decreases sorted.len(),
{
    if sorted.len() == 0 || sorted.last().1 <= limit {
        sorted.len()
    } else {
        leading_up_to(sorted.drop_last(), limit)
    }
}

/// Entries by their entropy, the lowest first; equal ones keep their order.
pub open spec fn by_score(entries: Seq<EntropyBitScore>) -> Seq<EntropyBitScore>
    decreases entries.len(),
{
    if entries.len() == 0 {
        Seq::empty()
    } else {
        let sorted = by_score(entries.drop_last());
        sorted.insert(leading_up_to(sorted, entries.last().1) as int, entries.last())
    }
}

/// Whether entries are in the order of their entropy.
pub open spec fn ascending(entries: Seq<EntropyBitScore>) -> bool {
    forall|i: int, j: int|
        0 <= i < j < entries.len() ==> (#[trigger] entries[i]).1 <= (#[trigger] entries[j]).1
}

/// The leading entries are those up to a limit.
pub proof fn leading_are_up_to(sorted: Seq<EntropyBitScore>, limit: u64)
    requires
        ascending(sorted),
    ensures
        leading_up_to(sorted, limit) <= sorted.len(),
        forall|i: int|
            0 <= i < leading_up_to(sorted, limit) ==> (#[trigger] sorted[i]).1 <= limit,
        forall|i: int|
            leading_up_to(sorted, limit) <= i < sorted.len() ==> (#[trigger] sorted[i]).1 > limit,
    decreases sorted.len(),
{
    if sorted.len() > 0 && sorted.last().1 > limit {
        let shorter = sorted.drop_last();
        assert(ascending(shorter)) by {
            assert forall|i: int, j: int| 0 <= i < j < shorter.len() implies (#[trigger] shorter[i]).1
                <= (#[trigger] shorter[j]).1 by {
                assert(sorted[i].1 <= sorted[j].1);
            }
        }
        leading_are_up_to(shorter, limit);
        assert forall|i: int| 0 <= i < leading_up_to(sorted, limit) implies (#[trigger] sorted[i]).1
            <= limit by {
            assert(shorter[i] == sorted[i]);
        }
        assert forall|i: int| leading_up_to(sorted, limit) <= i < sorted.len() implies (
        #[trigger] sorted[i]).1 > limit by {
            if i < shorter.len() {
                assert(shorter[i] == sorted[i]);
            }
        }
    } else if sorted.len() > 0 {
        assert forall|i: int| 0 <= i < sorted.len() implies (#[trigger] sorted[i]).1 <= limit by {
            if i < sorted.len() - 1 {
                assert(sorted[i].1 <= sorted[sorted.len() - 1].1);
            }
        }
    }
}

/// Ordered entries are in the order of their entropy, and they are the same entries, each as
/// often as before.
pub proof fn by_score_orders(entries: Seq<EntropyBitScore>)
    ensures
        ascending(by_score(entries)),
        by_score(entries).len() == entries.len(),
        by_score(entries).to_multiset() == entries.to_multiset(),
    decreases entries.len(),
{
    broadcast use vstd::seq_lib::group_to_multiset_ensures;
    if entries.len() == 0 {
        assert(by_score(entries) =~= entries);
    } else {
        let shorter = entries.drop_last();
        let sorted = by_score(shorter);
        let entry = entries.last();
        by_score_orders(shorter);
        leading_are_up_to(sorted, entry.1);
        let at = leading_up_to(sorted, entry.1) as int;
        let all = sorted.insert(at, entry);
        assert forall|i: int, j: int| 0 <= i < j < all.len() implies (#[trigger] all[i]).1 <= (
        #[trigger] all[j]).1 by {
            let old_i = if i < at {
                i
            } else {
                i - 1
            };
            let old_j = if j < at {
                j
            } else {
                j - 1
            };
            if i != at && j != at {
                assert(all[i] == sorted[old_i]);
                assert(all[j] == sorted[old_j]);
            } else if i == at {
                assert(all[j] == sorted[old_j]);
            } else {
                assert(all[i] == sorted[old_i]);
            }
        }
        vstd::seq_lib::to_multiset_insert(sorted, at, entry);
        assert(entries =~= shorter.push(entry));
        vstd::seq_lib::to_multiset_build(shorter, entry);
    }
}

/// The entries at one rank of the first `n` lists.
pub open spec fn rank(lists: Seq<Seq<EntropyBitScore>>, place: int, n: int) -> Seq<EntropyBitScore>
    decreases n,
{
    if n <= 0 {
        Seq::empty()
    } else if place < lists[n - 1].len() {
        rank(lists, place, n - 1).push(lists[n - 1][place])
    } else {
        rank(lists, place, n - 1)
    }
}

/// The entries at the first `count` ranks of lists: the first ones of all lists, then the second
/// ones, and so on.
pub open spec fn ranks(lists: Seq<Seq<EntropyBitScore>>, count: int) -> Seq<EntropyBitScore>
    decreases count,
{
    if count <= 0 {
        Seq::empty()
    } else {
        ranks(lists, count - 1) + rank(lists, count - 1, lists.len() as int)
    }
}

/// The length of the longest list.
pub open spec fn longest(lists: Seq<Seq<EntropyBitScore>>) -> nat
    decreases lists.len(),
{
    if lists.len() == 0 {
        0
    } else if longest(lists.drop_last()) >= lists.last().len() {
        longest(lists.drop_last())
    } else {
        lists.last().len()
    }
}

/// The entries of each feature that have some entropy, the lowest first.
pub open spec fn feature_lists(entries: Seq<EntropyBitScore>, features: Seq<FeatureSpec>) -> Seq<
    Seq<EntropyBitScore>,
> {
    Seq::new(features.len(), |f: int| by_score(feature_entries(entries, features, f)))
}

/// The order in which bits are taken: those without entropy, then the features in turn, each with
/// its bits from the lowest entropy to the highest.
pub open spec fn organized(entries: Seq<EntropyBitScore>, features: Seq<FeatureSpec>) -> Seq<
    EntropyBitScore,
> {
    let lists = feature_lists(entries, features);
    flat_entries(entries, features) + ranks(lists, longest(lists) as int)
}

/// Puts an entry into a list in the order of entropy, behind those with the same entropy.
pub(crate) fn insert_by_score(sorted: &mut Vec<EntropyBitScore>, entry: EntropyBitScore)
    ensures
        final(sorted)@ == old(sorted)@.insert(
            leading_up_to(old(sorted)@, entry.1) as int,
            entry,
        ),
{
    let mut at: usize = sorted.len();
    assert(sorted@.take(at as int) =~= sorted@);
    while at > 0 && sorted[at - 1].1 > entry.1
        invariant
            at <= sorted@.len(),
            sorted@ == old(sorted)@,
            leading_up_to(sorted@.take(at as int), entry.1) == leading_up_to(old(sorted)@, entry.1),
        decreases at,
    {
        assert(sorted@.take(at as int).drop_last() =~= sorted@.take(at - 1));
        at -= 1;
    }
    assert(leading_up_to(sorted@.take(at as int), entry.1) == at);
    sorted.insert(at, entry);
}

/// The contents of lists.
pub open spec fn list_views(lists: Seq<Vec<EntropyBitScore>>) -> Seq<Seq<EntropyBitScore>> {
    Seq::new(lists.len(), |f: int| lists[f]@)
}

/// The entries of one feature that have some entropy, the lowest first.
fn feature_list(entries: &Vec<EntropyBitScore>, info: &BitDataInfo, feature: usize) -> (list: Vec<
    EntropyBitScore,
>)
    requires
        info.valid(),
        feature < info@.features.len(),
    ensures
        list@ == by_score(feature_entries(entries@, info@.features, feature as int)),
{
    let mut list: Vec<EntropyBitScore> = Vec::new();
    let mut i: usize = 0;
    while i < entries.len()
        invariant
            info.valid(),
            feature < info@.features.len(),
            i <= entries@.len(),
            list@ == by_score(
                feature_entries(entries@.take(i as int), info@.features, feature as int),
            ),
        decreases entries@.len() - i,
    {
        let entry = entries[i];
        let index = info.feature_index_for_bit(entry.0);
        let ghost features = info@.features;
        let ghost longer = entries@.take(i as int + 1);
        proof {
            assert(longer.drop_last() =~= entries@.take(i as int));
            match index {
                Some(found) => {
                    if lies_in(features, entry.0 as int, feature as int) {
                        lies_in_one(features, entry.0 as int, found as int, feature as int);
                    }
                },
                None => {
                    if lies_in(features, entry.0 as int, feature as int) {
                        features_width_monotonic(features, feature + 1, features.len() as int);
                        assert(features.take(features.len() as int) =~= features);
                    }
                },
            }
        }
        let belongs: bool = match index {
            Some(found) => found == feature,
            None => false,
        };
        if entry.1 != 0 && belongs {
            let ghost before = feature_entries(entries@.take(i as int), features, feature as int);
            insert_by_score(&mut list, entry);
            assert(before.push(entry).drop_last() =~= before);
            assert(list@ == by_score(before.push(entry)));
        }
        i += 1;
    }
    assert(entries@.take(i as int) =~= entries@);
    list
}

/// The entries of bits without entropy that a row has.
fn flat_list(entries: &Vec<EntropyBitScore>, info: &BitDataInfo) -> (list: Vec<EntropyBitScore>)
    requires
        info.valid(),
    ensures
        list@ == flat_entries(entries@, info@.features),
{
    let mut list: Vec<EntropyBitScore> = Vec::new();
    let mut i: usize = 0;
    while i < entries.len()
        invariant
            info.valid(),
            i <= entries@.len(),
            list@ == flat_entries(entries@.take(i as int), info@.features),
        decreases entries@.len() - i,
    {
        let entry = entries[i];
        let index = info.feature_index_for_bit(entry.0);
        assert(entries@.take(i as int + 1).drop_last() =~= entries@.take(i as int));
        if entry.1 == 0 && index.is_some() {
            list.push(entry);
        }
        i += 1;
    }
    assert(entries@.take(i as int) =~= entries@);
    list
}

/// Puts the entries of bits in the order in which they are taken for the condensed rows. Bits that
/// a row does not have are left out.
pub fn organize_entropy_by_feature(entries: &Vec<EntropyBitScore>, info: &BitDataInfo) -> (order:
    Vec<EntropyBitScore>)
    requires
        info.valid(),
    ensures
        order@ == organized(entries@, info@.features),
{
    let num_features: usize = info.num_features();
    let ghost all = feature_lists(entries@, info@.features);
    let mut order = flat_list(entries, info);
    let ghost flat = order@;
    let mut lists: Vec<Vec<EntropyBitScore>> = Vec::new();
    let mut max_bits: usize = 0;
    let mut f: usize = 0;
    assert(all.take(0) =~= Seq::empty());
    while f < num_features
        invariant
            info.valid(),
            num_features == info@.features.len(),
            all == feature_lists(entries@, info@.features),
            f <= num_features,
            list_views(lists@) == all.take(f as int),
            max_bits == longest(all.take(f as int)),
        decreases num_features - f,
    {
        let list = feature_list(entries, info, f);
        if list.len() > max_bits {
            max_bits = list.len();
        }
        let ghost before = lists@;
        lists.push(list);
        proof {
            assert(all.take(f as int + 1).drop_last() =~= all.take(f as int));
            assert(list_views(before).len() == f);
            assert(list_views(lists@) =~= list_views(before).push(all[f as int]));
            assert(all.take(f as int + 1) =~= all.take(f as int).push(all[f as int]));
        }
        f += 1;
    }
    assert(all.take(f as int) =~= all);
    let mut place: usize = 0;
    while place < max_bits
        invariant
            place <= max_bits,
            list_views(lists@) == all,
            lists@.len() == num_features,
            order@ == flat + ranks(all, place as int),
        decreases max_bits - place,
    {
        let ghost start = order@;
        let mut f: usize = 0;
        while f < num_features
            invariant
                f <= num_features,
                list_views(lists@) == all,
                lists@.len() == num_features,
                order@ == start + rank(all, place as int, f as int),
            decreases num_features - f,
        {
            assert(all[f as int] == lists@[f as int]@);
            if place < lists[f].len() {
                order.push(lists[f][place]);
            }
            f += 1;
        }
        proof {
            assert(all.len() == num_features);
            assert(order@ =~= flat + ranks(all, place as int + 1));
        }
        place += 1;
    }
    order
}

} // verus!
