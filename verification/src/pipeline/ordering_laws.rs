//! What the order of bits for the condensed rows keeps.
use vstd::multiset::Multiset;
use vstd::prelude::*;

use crate::data::{features_width, features_width_monotonic, FeatureSpec};
use crate::entropy::EntropyBitScore;
use crate::pipeline::ordering::{
    by_score_orders, feature_entries, feature_lists, flat_entries, lies_in, lies_in_one, longest,
    organized, rank, ranks,
};

verus! {

/// The entries of the bits that a row has, in their order.
pub open spec fn row_entries(entries: Seq<EntropyBitScore>, features: Seq<FeatureSpec>) -> Seq<
    EntropyBitScore,
>
    decreases entries.len(),
{
    if entries.len() == 0 {
        Seq::empty()
    } else {
        let before = row_entries(entries.drop_last(), features);
        if entries.last().0 < features_width(features) {
            before.push(entries.last())
        } else {
            before
        }
    }
}

/// The entries of the first `n` lists together.
spec fn together(lists: Seq<Seq<EntropyBitScore>>, n: int) -> Multiset<EntropyBitScore>
    decreases n,
{
    if n <= 0 {
        Multiset::empty()
    } else {
        together(lists, n - 1).add(lists[n - 1].to_multiset())
    }
}

/// The first `count` entries of each list.
spec fn heads(lists: Seq<Seq<EntropyBitScore>>, count: int) -> Seq<Seq<EntropyBitScore>> {
    Seq::new(
        lists.len(),
        |f: int|
            lists[f].take(
                if count <= lists[f].len() {
                    count
                } else {
                    lists[f].len() as int
                },
            ),
    )
}

proof fn one_more_rank(lists: Seq<Seq<EntropyBitScore>>, count: int, n: int)
    requires
        0 <= n <= lists.len(),
        0 <= count,
    ensures
        together(heads(lists, count + 1), n) == together(heads(lists, count), n).add(
            rank(lists, count, n).to_multiset(),
        ),
    decreases n,
{
    broadcast use vstd::seq_lib::group_to_multiset_ensures;
    if n > 0 {
        one_more_rank(lists, count, n - 1);
        let list = lists[n - 1];
        let fewer = heads(lists, count)[n - 1];
        let more = heads(lists, count + 1)[n - 1];
        if count < list.len() {
            assert(more =~= fewer.push(list[count]));
            vstd::seq_lib::to_multiset_build(fewer, list[count]);
            vstd::seq_lib::to_multiset_build(rank(lists, count, n - 1), list[count]);
        } else {
            assert(more =~= fewer);
        }
        assert(together(heads(lists, count + 1), n) =~= together(heads(lists, count), n).add(
            rank(lists, count, n).to_multiset(),
        ));
    } else {
        assert(rank(lists, count, n) =~= Seq::empty());
        assert(together(heads(lists, count + 1), n) =~= together(heads(lists, count), n).add(
            rank(lists, count, n).to_multiset(),
        ));
    }
}

proof fn nothing_of_lists(lists: Seq<Seq<EntropyBitScore>>, n: int)
    requires
        0 <= n <= lists.len(),
    ensures
        together(heads(lists, 0), n) == Multiset::<EntropyBitScore>::empty(),
    decreases n,
{
    broadcast use vstd::seq_lib::group_to_multiset_ensures;
    if n > 0 {
        nothing_of_lists(lists, n - 1);
        assert(heads(lists, 0)[n - 1] =~= Seq::empty());
        assert(together(heads(lists, 0), n) =~= Multiset::empty());
    }
}

proof fn ranks_hold_heads(lists: Seq<Seq<EntropyBitScore>>, count: int)
    requires
        0 <= count,
    ensures
        ranks(lists, count).to_multiset() == together(heads(lists, count), lists.len() as int),
    decreases count,
{
    broadcast use vstd::seq_lib::group_to_multiset_ensures;
    if count == 0 {
        nothing_of_lists(lists, lists.len() as int);
        assert(ranks(lists, 0) =~= Seq::empty());
        assert(ranks(lists, 0).to_multiset() =~= Multiset::empty());
    } else {
        ranks_hold_heads(lists, count - 1);
        one_more_rank(lists, count - 1, lists.len() as int);
        vstd::seq_lib::lemma_multiset_commutative(
            ranks(lists, count - 1),
            rank(lists, count - 1, lists.len() as int),
        );
    }
}

proof fn longest_is_longest(lists: Seq<Seq<EntropyBitScore>>, f: int)
    requires
        0 <= f < lists.len(),
    ensures
        lists[f].len() <= longest(lists),
    decreases lists.len(),
{
    if f < lists.len() - 1 {
        longest_is_longest(lists.drop_last(), f);
        assert(lists.drop_last()[f] == lists[f]);
    }
}

/// Taking the lists in turn keeps their entries.
proof fn ranks_hold_all(lists: Seq<Seq<EntropyBitScore>>)
    ensures
        ranks(lists, longest(lists) as int).to_multiset() == together(lists, lists.len() as int),
{
    ranks_hold_heads(lists, longest(lists) as int);
    assert(heads(lists, longest(lists) as int) =~= lists) by {
        assert forall|f: int| 0 <= f < lists.len() implies heads(lists, longest(lists) as int)[f]
            == lists[f] by {
            longest_is_longest(lists, f);
            assert(heads(lists, longest(lists) as int)[f] =~= lists[f]);
        }
    }
}

/// The entries of each feature that have some entropy.
spec fn unordered_lists(entries: Seq<EntropyBitScore>, features: Seq<FeatureSpec>) -> Seq<
    Seq<EntropyBitScore>,
> {
    Seq::new(features.len(), |f: int| feature_entries(entries, features, f))
}

proof fn order_does_not_matter(
    entries: Seq<EntropyBitScore>,
    features: Seq<FeatureSpec>,
    n: int,
)
    requires
        0 <= n <= features.len(),
    ensures
        together(feature_lists(entries, features), n) == together(
            unordered_lists(entries, features),
            n,
        ),
    decreases n,
{
    if n > 0 {
        order_does_not_matter(entries, features, n - 1);
        by_score_orders(feature_entries(entries, features, n - 1));
    }
}

/// One list with one more entry.
proof fn one_more_entry(
    before: Seq<Seq<EntropyBitScore>>,
    after: Seq<Seq<EntropyBitScore>>,
    at: int,
    entry: EntropyBitScore,
    n: int,
)
    requires
        before.len() == after.len(),
        0 <= n <= before.len(),
        0 <= at < before.len(),
        after[at] == before[at].push(entry),
        forall|f: int| 0 <= f < before.len() && f != at ==> #[trigger] after[f] == before[f],
    ensures
        together(after, n) == (if at < n {
            together(before, n).insert(entry)
        } else {
            together(before, n)
        }),
    decreases n,
{
    broadcast use vstd::seq_lib::group_to_multiset_ensures;
    if n > 0 {
        one_more_entry(before, after, at, entry, n - 1);
        if n - 1 == at {
            vstd::seq_lib::to_multiset_build(before[at], entry);
            assert(together(after, n) =~= together(before, n).insert(entry));
        } else {
            assert(after[n - 1] == before[n - 1]);
            if at < n {
                assert(together(after, n) =~= together(before, n).insert(entry));
            }
        }
    }
}

/// Every bit of a row belongs to a feature.
proof fn lies_in_some(features: Seq<FeatureSpec>, bit: int) -> (feature: int)
    requires
        0 <= bit < features_width(features),
    ensures
        lies_in(features, bit, feature),
    decreases features.len(),
{
    let shorter = features.drop_last();
    let n = features.len() as int;
    assert(features.take(n) =~= features);
    assert(features.take(n - 1) =~= shorter);
    if bit < features_width(shorter) {
        let found = lies_in_some(shorter, bit);
        assert(shorter.take(found) =~= features.take(found));
        assert(shorter.take(found + 1) =~= features.take(found + 1));
        found
    } else {
        n - 1
    }
}

proof fn entries_are_split(entries: Seq<EntropyBitScore>, features: Seq<FeatureSpec>)
    ensures
        flat_entries(entries, features).to_multiset().add(
            together(unordered_lists(entries, features), features.len() as int),
        ) == row_entries(entries, features).to_multiset(),
    decreases entries.len(),
{
    broadcast use vstd::seq_lib::group_to_multiset_ensures;
    let n = features.len() as int;
    let lists = unordered_lists(entries, features);
    if entries.len() == 0 {
        assert(heads(lists, 0) =~= lists) by {
            assert forall|f: int| 0 <= f < lists.len() implies heads(lists, 0)[f] == lists[f] by {
                assert(heads(lists, 0)[f] =~= lists[f]);
            }
        }
        nothing_of_lists(lists, n);
        assert(flat_entries(entries, features).to_multiset().add(together(lists, n)) =~= row_entries(
            entries,
            features,
        ).to_multiset());
    } else {
        let shorter = entries.drop_last();
        let entry = entries.last();
        let before = unordered_lists(shorter, features);
        entries_are_split(shorter, features);
        let flat = flat_entries(shorter, features);
        let kept = row_entries(shorter, features);
        vstd::seq_lib::to_multiset_build(flat, entry);
        vstd::seq_lib::to_multiset_build(kept, entry);
        if entry.0 >= features_width(features) || entry.1 == 0 {
            assert(lists =~= before) by {
                assert forall|f: int| 0 <= f < n implies lists[f] == before[f] by {
                    if entry.1 != 0 && lies_in(features, entry.0 as int, f) {
                        features_width_monotonic(features, f + 1, n);
                        assert(features.take(n) =~= features);
                    }
                }
            }
        } else {
            let at = lies_in_some(features, entry.0 as int);
            assert forall|f: int| 0 <= f < n && f != at implies #[trigger] lists[f] == before[f] by {
                if lies_in(features, entry.0 as int, f) {
                    lies_in_one(features, entry.0 as int, f, at);
                }
            }
            one_more_entry(before, lists, at, entry, n);
        }
        assert(flat_entries(entries, features).to_multiset().add(together(lists, n)) =~= row_entries(
            entries,
            features,
        ).to_multiset());
    }
}

/// The order in which bits are taken keeps the entries of all bits that a row has, each as often
/// as it was given.
pub proof fn order_keeps_bits(entries: Seq<EntropyBitScore>, features: Seq<FeatureSpec>)
    ensures
        organized(entries, features).to_multiset() == row_entries(entries, features).to_multiset(),
{
    let lists = feature_lists(entries, features);
    entries_are_split(entries, features);
    order_does_not_matter(entries, features, features.len() as int);
    ranks_hold_all(lists);
    vstd::seq_lib::lemma_multiset_commutative(
        flat_entries(entries, features),
        ranks(lists, longest(lists) as int),
    );
}

proof fn row_entry_exists(
    entries: Seq<EntropyBitScore>,
    features: Seq<FeatureSpec>,
    i: int,
)
    requires
        0 <= i < row_entries(entries, features).len(),
    ensures
        row_entries(entries, features)[i].0 < features_width(features),
    decreases entries.len(),
{
    let before = row_entries(entries.drop_last(), features);
    if i < before.len() {
        row_entry_exists(entries.drop_last(), features, i);
    }
}

/// Every bit in the order is one that a row has.
pub proof fn organized_bit_exists(
    entries: Seq<EntropyBitScore>,
    features: Seq<FeatureSpec>,
    i: int,
)
    requires
        0 <= i < organized(entries, features).len(),
    ensures
        organized(entries, features)[i].0 < features_width(features),
{
    broadcast use vstd::seq_lib::group_to_multiset_ensures;
    let order = organized(entries, features);
    let kept = row_entries(entries, features);
    order_keeps_bits(entries, features);
    assert(order.contains(order[i]));
    assert(order.to_multiset().count(order[i]) > 0);
    assert(kept.to_multiset().count(order[i]) > 0);
    assert(kept.contains(order[i]));
    let k = choose|k: int| 0 <= k < kept.len() && kept[k] == order[i];
    row_entry_exists(entries, features, k);
}

} // verus!
