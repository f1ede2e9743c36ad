//! In what order bits are taken for the condensed rows.
use vstd::prelude::*;

use crate::data::FeatureSpec;
use crate::entropy::EntropyBitScore;
use crate::pipeline::ordering::{
    ascending, by_score_orders, feature_entries, feature_lists, flat_entries, lies_in, lies_in_one,
    longest, organized, rank, ranks,
};

verus! {

/// How many entries with entropy a list has of a feature.
pub open spec fn taken_of(
    order: Seq<EntropyBitScore>,
    features: Seq<FeatureSpec>,
    feature: int,
) -> nat
    decreases order.len(),
{
    if order.len() == 0 {
        0
    } else {
        taken_of(order.drop_last(), features, feature) + (if order.last().1 != 0 && lies_in(
            features,
            order.last().0 as int,
            feature,
        ) {
            1nat
        } else {
            0
        })
    }
}

proof fn taken_of_push(
    order: Seq<EntropyBitScore>,
    entry: EntropyBitScore,
    features: Seq<FeatureSpec>,
    feature: int,
)
    ensures
        taken_of(order.push(entry), features, feature) == taken_of(order, features, feature) + (
        if entry.1 != 0 && lies_in(features, entry.0 as int, feature) {
            1nat
        } else {
            0
        }),
{
    assert(order.push(entry).drop_last() =~= order);
}

proof fn taken_of_both(
    first: Seq<EntropyBitScore>,
    second: Seq<EntropyBitScore>,
    features: Seq<FeatureSpec>,
    feature: int,
)
    ensures
        taken_of(first + second, features, feature) == taken_of(first, features, feature)
            + taken_of(second, features, feature),
    decreases second.len(),
{
    if second.len() == 0 {
        assert(first + second =~= first);
    } else {
        taken_of_both(first, second.drop_last(), features, feature);
        assert((first + second).drop_last() =~= first + second.drop_last());
    }
}

/// Entries of a feature are of that feature.
proof fn entries_are_of_feature(
    entries: Seq<EntropyBitScore>,
    features: Seq<FeatureSpec>,
    feature: int,
)
    ensures
        forall|k: int|
            0 <= k < feature_entries(entries, features, feature).len() ==> ({
                let entry = #[trigger] feature_entries(entries, features, feature)[k];
                entry.1 != 0 && lies_in(features, entry.0 as int, feature)
            }),
    decreases entries.len(),
{
    if entries.len() > 0 {
        let before = feature_entries(entries.drop_last(), features, feature);
        let all = feature_entries(entries, features, feature);
        entries_are_of_feature(entries.drop_last(), features, feature);
        assert forall|k: int| 0 <= k < all.len() implies (#[trigger] all[k]).1 != 0 && lies_in(
            features,
            all[k].0 as int,
            feature,
        ) by {
            if k < before.len() {
                assert(all[k] == before[k]);
            }
        }
    }
}

/// The lists of features hold entries of their feature in the order of their entropy.
proof fn lists_are_of_features(
    entries: Seq<EntropyBitScore>,
    features: Seq<FeatureSpec>,
    feature: int,
)
    requires
        0 <= feature < features.len(),
    ensures
        ascending(feature_lists(entries, features)[feature]),
        forall|k: int|
            0 <= k < feature_lists(entries, features)[feature].len() ==> ({
                let entry = #[trigger] feature_lists(entries, features)[feature][k];
                entry.1 != 0 && lies_in(features, entry.0 as int, feature)
            }),
{
    broadcast use vstd::seq_lib::group_to_multiset_ensures;

    let list = feature_lists(entries, features)[feature];
    let found = feature_entries(entries, features, feature);
    by_score_orders(found);
    entries_are_of_feature(entries, features, feature);
    assert forall|k: int| 0 <= k < list.len() implies (#[trigger] list[k]).1 != 0 && lies_in(
        features,
        list[k].0 as int,
        feature,
    ) by {
        assert(list.contains(list[k]));
        assert(list.to_multiset().count(list[k]) > 0);
        assert(found.to_multiset().count(list[k]) > 0);
        assert(found.contains(list[k]));
        let i = choose|i: int| 0 <= i < found.len() && found[i] == list[k];
        assert(found[i].1 != 0);
    }
}

proof fn taken_of_rank(
    entries: Seq<EntropyBitScore>,
    features: Seq<FeatureSpec>,
    place: int,
    n: int,
    feature: int,
)
    requires
        0 <= place,
        0 <= n <= features.len(),
        0 <= feature < features.len(),
    ensures
        taken_of(rank(feature_lists(entries, features), place, n), features, feature) == (
        if feature < n && place < feature_lists(entries, features)[feature].len() {
            1nat
        } else {
            0
        }),
    decreases n,
{
    let lists = feature_lists(entries, features);
    if n > 0 {
        taken_of_rank(entries, features, place, n - 1, feature);
        lists_are_of_features(entries, features, n - 1);
        if place < lists[n - 1].len() {
            let entry = lists[n - 1][place];
            taken_of_push(rank(lists, place, n - 1), entry, features, feature);
            if lies_in(features, entry.0 as int, feature) {
                lies_in_one(features, entry.0 as int, feature, n - 1);
            }
        }
    }
}

proof fn taken_of_ranks(
    entries: Seq<EntropyBitScore>,
    features: Seq<FeatureSpec>,
    count: int,
    feature: int,
)
    requires
        0 <= count,
        0 <= feature < features.len(),
    ensures
        ({
            let len = feature_lists(entries, features)[feature].len();
            taken_of(ranks(feature_lists(entries, features), count), features, feature) == (
            if count < len {
                count
            } else {
                len as int
            })
        }),
    decreases count,
{
    let lists = feature_lists(entries, features);
    if count > 0 {
        taken_of_ranks(entries, features, count - 1, feature);
        taken_of_rank(entries, features, count - 1, lists.len() as int, feature);
        taken_of_both(
            ranks(lists, count - 1),
            rank(lists, count - 1, lists.len() as int),
            features,
            feature,
        );
    }
}

/// No entry with entropy is among those without.
proof fn flat_entries_come_from_none(
    entries: Seq<EntropyBitScore>,
    features: Seq<FeatureSpec>,
    n: int,
    feature: int,
)
    requires
        0 <= n <= flat_entries(entries, features).len(),
    ensures
        taken_of(flat_entries(entries, features).take(n), features, feature) == 0,
        forall|k: int|
            0 <= k < flat_entries(entries, features).len() ==> (#[trigger] flat_entries(
                entries,
                features,
            )[k]).1 == 0,
    decreases n,
{
    let flat = flat_entries(entries, features);
    flat_have_no_entropy(entries, features);
    if n > 0 {
        flat_entries_come_from_none(entries, features, n - 1, feature);
        assert(flat.take(n).drop_last() =~= flat.take(n - 1));
        assert(flat[n - 1].1 == 0);
    }
}

proof fn flat_have_no_entropy(entries: Seq<EntropyBitScore>, features: Seq<FeatureSpec>)
    ensures
        forall|k: int|
            0 <= k < flat_entries(entries, features).len() ==> (#[trigger] flat_entries(
                entries,
                features,
            )[k]).1 == 0,
    decreases entries.len(),
{
    if entries.len() > 0 {
        let before = flat_entries(entries.drop_last(), features);
        let all = flat_entries(entries, features);
        flat_have_no_entropy(entries.drop_last(), features);
        assert forall|k: int| 0 <= k < all.len() implies (#[trigger] all[k]).1 == 0 by {
            if k < before.len() {
                assert(all[k] == before[k]);
            }
        }
    }
}

/// The list that the last of the first entries at a rank comes from.
proof fn end_of_rank(lists: Seq<Seq<EntropyBitScore>>, place: int, n: int, count: int) -> (list: int)
    requires
        0 <= n <= lists.len(),
        0 < count <= rank(lists, place, n).len(),
    ensures
        0 <= list < n,
        place < lists[list].len(),
        rank(lists, place, n).take(count) == rank(lists, place, list + 1),
    decreases n,
{
    let before = rank(lists, place, n - 1);
    if count <= before.len() {
        let list = end_of_rank(lists, place, n - 1, count);
        assert(rank(lists, place, n).take(count) =~= before.take(count));
        list
    } else {
        assert(rank(lists, place, n).take(count) =~= rank(lists, place, n));
        n - 1
    }
}

/// The rank and the list that the last of the first entries comes from.
proof fn end_of_ranks(lists: Seq<Seq<EntropyBitScore>>, ranked: int, count: int) -> (end: (int, int))
    requires
        0 <= ranked,
        0 < count <= ranks(lists, ranked).len(),
    ensures
        0 <= end.0 < ranked,
        0 <= end.1 < lists.len(),
        end.0 < lists[end.1].len(),
        ranks(lists, ranked).take(count) == ranks(lists, end.0) + rank(lists, end.0, end.1 + 1),
    decreases ranked,
{
    let before = ranks(lists, ranked - 1);
    let last = rank(lists, ranked - 1, lists.len() as int);
    if count <= before.len() {
        let end = end_of_ranks(lists, ranked - 1, count);
        assert(ranks(lists, ranked).take(count) =~= before.take(count));
        end
    } else {
        let list = end_of_rank(
            lists,
            ranked - 1,
            lists.len() as int,
            count - before.len() as int,
        );
        assert(ranks(lists, ranked).take(count) =~= before + last.take(count - before.len() as int));
        (ranked - 1, list)
    }
}

proof fn longest_is_longest(lists: Seq<Seq<EntropyBitScore>>, n: int)
    requires
        0 <= n < lists.len(),
    ensures
        lists[n].len() <= longest(lists),
    decreases lists.len(),
{
    if n < lists.len() - 1 {
        longest_is_longest(lists.drop_last(), n);
    }
}

/// How many of the first bits are of a feature.
proof fn taken_so_far(
    entries: Seq<EntropyBitScore>,
    features: Seq<FeatureSpec>,
    n: int,
    feature: int,
) -> (end: (int, int))
    requires
        flat_entries(entries, features).len() < n <= organized(entries, features).len(),
        0 <= feature < features.len(),
    ensures
        ({
            let lists = feature_lists(entries, features);
            let order = organized(entries, features);
            let (place, list) = end;
            &&& 0 <= list < features.len()
            &&& 0 <= place < lists[list].len()
            &&& order[n - 1] == lists[list][place]
            &&& end == end_at(entries, features, n)
            &&& taken_of(order.take(n), features, feature) == (if feature <= list && place
                < lists[feature].len() {
                place + 1
            } else if place < lists[feature].len() {
                place
            } else {
                lists[feature].len() as int
            })
        }),
{
    let lists = feature_lists(entries, features);
    let flat = flat_entries(entries, features);
    let all = ranks(lists, longest(lists) as int);
    let order = organized(entries, features);
    let count = n - flat.len() as int;
    let made = end_of_ranks(lists, longest(lists) as int, count);
    let (place, list) = end_at(entries, features, n);
    assert(is_end(entries, features, n, made.0, made.1));
    let first = ranks(lists, place);
    let last = rank(lists, place, list + 1);
    assert(order.take(n) =~= flat + all.take(count));
    flat_entries_come_from_none(entries, features, flat.len() as int, feature);
    assert(flat.take(flat.len() as int) =~= flat);
    taken_of_both(flat, first + last, features, feature);
    taken_of_both(first, last, features, feature);
    taken_of_ranks(entries, features, place, feature);
    taken_of_rank(entries, features, place, list + 1, feature);
    assert(all.take(count)[count - 1] == (first + last)[count - 1]);
    assert((first + last).last() == last.last());
    (place, list)
}

/// Whether the first bits end with one rank of one list.
spec fn is_end(
    entries: Seq<EntropyBitScore>,
    features: Seq<FeatureSpec>,
    n: int,
    place: int,
    list: int,
) -> bool {
    let lists = feature_lists(entries, features);
    let all = ranks(lists, longest(lists) as int);
    &&& 0 <= list < lists.len()
    &&& 0 <= place < lists[list].len()
    &&& all.take(n - flat_entries(entries, features).len()) == ranks(lists, place) + rank(
        lists,
        place,
        list + 1,
    )
}

/// The rank and the list that the first bits end with.
spec fn end_at(entries: Seq<EntropyBitScore>, features: Seq<FeatureSpec>, n: int) -> (int, int) {
    choose|place: int, list: int| #[trigger] is_end(entries, features, n, place, list)
}

/// All entries of a feature are in the order.
proof fn taken_at_end(entries: Seq<EntropyBitScore>, features: Seq<FeatureSpec>, feature: int)
    requires
        0 <= feature < features.len(),
    ensures
        taken_of(organized(entries, features), features, feature) == feature_lists(
            entries,
            features,
        )[feature].len(),
{
    let lists = feature_lists(entries, features);
    let flat = flat_entries(entries, features);
    longest_is_longest(lists, feature);
    flat_entries_come_from_none(entries, features, flat.len() as int, feature);
    assert(flat.take(flat.len() as int) =~= flat);
    taken_of_both(flat, ranks(lists, longest(lists) as int), features, feature);
    taken_of_ranks(entries, features, longest(lists) as int, feature);
}

/// Features take turns: at any time no feature is more than one bit ahead of another one that still
/// has bits, and an earlier feature is not behind a later one while it has bits.
pub proof fn features_take_turns(
    entries: Seq<EntropyBitScore>,
    features: Seq<FeatureSpec>,
    n: int,
    first: int,
    second: int,
)
    requires
        0 <= n <= organized(entries, features).len(),
        0 <= first < features.len(),
        0 <= second < features.len(),
    ensures
        ({
            let order = organized(entries, features);
            let ahead = taken_of(order.take(n), features, first);
            let behind = taken_of(order.take(n), features, second);
            &&& ahead <= behind + 1 || behind == taken_of(order, features, second)
            &&& first < second ==> behind <= ahead || ahead == taken_of(order, features, first)
        }),
{
    let order = organized(entries, features);
    let flat = flat_entries(entries, features);
    if n <= flat.len() {
        flat_entries_come_from_none(entries, features, n, first);
        flat_entries_come_from_none(entries, features, n, second);
        assert(order.take(n) =~= flat.take(n));
    } else {
        let at_first = taken_so_far(entries, features, n, first);
        let at_second = taken_so_far(entries, features, n, second);
        taken_at_end(entries, features, first);
        taken_at_end(entries, features, second);
    }
}

/// Bits without entropy come first.
pub proof fn flat_bits_come_first(
    entries: Seq<EntropyBitScore>,
    features: Seq<FeatureSpec>,
    first: int,
    second: int,
)
    requires
        0 <= first < second < organized(entries, features).len(),
        organized(entries, features)[second].1 == 0,
    ensures
        organized(entries, features)[first].1 == 0,
{
    let flat = flat_entries(entries, features);
    flat_have_no_entropy(entries, features);
    if second >= flat.len() {
        let feature = end_at(entries, features, second + 1).1;
        let lists = feature_lists(entries, features);
        end_feature_exists(entries, features, second + 1);
        let end = taken_so_far(entries, features, second + 1, feature);
        lists_are_of_features(entries, features, end.1);
        assert(lists[end.1][end.0].1 != 0);
    } else {
        assert(organized(entries, features)[first] == flat[first]);
    }
}

proof fn end_feature_exists(entries: Seq<EntropyBitScore>, features: Seq<FeatureSpec>, n: int)
    requires
        flat_entries(entries, features).len() < n <= organized(entries, features).len(),
    ensures
        0 <= end_at(entries, features, n).1 < features.len(),
{
    let lists = feature_lists(entries, features);
    let count = n - flat_entries(entries, features).len() as int;
    let made = end_of_ranks(lists, longest(lists) as int, count);
    assert(is_end(entries, features, n, made.0, made.1));
}

/// The bits of a feature are taken from the lowest entropy to the highest.
pub proof fn feature_bits_ascend(
    entries: Seq<EntropyBitScore>,
    features: Seq<FeatureSpec>,
    first: int,
    second: int,
    feature: int,
)
    requires
        0 <= first < second < organized(entries, features).len(),
        organized(entries, features)[first].1 != 0,
        organized(entries, features)[second].1 != 0,
        lies_in(features, organized(entries, features)[first].0 as int, feature),
        lies_in(features, organized(entries, features)[second].0 as int, feature),
    ensures
        organized(entries, features)[first].1 <= organized(entries, features)[second].1,
{
    let order = organized(entries, features);
    let flat = flat_entries(entries, features);
    let lists = feature_lists(entries, features);
    flat_have_no_entropy(entries, features);
    assert(first >= flat.len()) by {
        if first < flat.len() {
            assert(order[first] == flat[first]);
        }
    }
    let end_first = taken_so_far(entries, features, first + 1, feature);
    let end_second = taken_so_far(entries, features, second + 1, feature);
    lists_are_of_features(entries, features, end_first.1);
    lists_are_of_features(entries, features, end_second.1);
    lies_in_one(features, order[first].0 as int, feature, end_first.1);
    lies_in_one(features, order[second].0 as int, feature, end_second.1);
    taken_of_more(order, features, feature, first + 1, second + 1);
    lists_are_of_features(entries, features, feature);
}

/// More entries hold no fewer of a feature.
proof fn taken_of_more(
    order: Seq<EntropyBitScore>,
    features: Seq<FeatureSpec>,
    feature: int,
    n: int,
    more: int,
)
    requires
        0 <= n <= more <= order.len(),
    ensures
        taken_of(order.take(n), features, feature) <= taken_of(order.take(more), features, feature),
    decreases more - n,
{
    if n < more {
        taken_of_more(order, features, feature, n, more - 1);
        assert(order.take(more).drop_last() =~= order.take(more - 1));
    }
}

} // verus!
