//! Code lengths from frequencies: the two lightest trees are joined until one is left, and the
//! length of a symbol's code is the depth of its leaf.
use vstd::arithmetic::power2::{
    lemma2_to64, lemma_pow2_adds, lemma_pow2_pos, lemma_pow2_unfold, pow2,
};
use vstd::prelude::*;
use vstd::seq_lib::{
    lemma_sorted_unique, to_multiset_contains, to_multiset_insert, to_multiset_len,
    to_multiset_remove,
};

use crate::encoding::huffman::{canonical, code_at, table_order};
use crate::error::{bad_metadata, EntroGdError};

verus! {

/// A symbol and how often it occurs.
#[derive(Debug, Clone, Copy, PartialEq, Eq, Structural)]
pub struct SymbolFrequency {
    pub symbol: u64,
    pub frequency: usize,
}

/// Whether one tree is lighter than another: by weight, then by least symbol, then by age. A
/// tree is a weight, a least symbol and the number of its root.
pub open spec fn lighter(a: (usize, u64, usize), b: (usize, u64, usize)) -> bool {
    a.0 < b.0 || (a.0 == b.0 && (a.1 < b.1 || (a.1 == b.1 && a.2 < b.2)))
}

/// Where the lightest tree stands.
pub open spec fn lightest(trees: Seq<(usize, u64, usize)>) -> int
    decreases trees.len(),
{
    if trees.len() <= 1 {
        0
    } else {
        let i = lightest(trees.drop_last());
        if lighter(trees.last(), trees[i]) {
            trees.len() - 1
        } else {
            i
        }
    }
}

/// The lightest of some trees is one of them, and no tree is lighter.
pub proof fn lightest_is_least(trees: Seq<(usize, u64, usize)>)
    requires
        trees.len() > 0,
    ensures
        0 <= lightest(trees) < trees.len(),
        forall|k: int|
            0 <= k < trees.len() ==> !lighter(#[trigger] trees[k], trees[lightest(trees)]),
    decreases trees.len(),
{
    if trees.len() > 1 {
        let before = trees.drop_last();
        lightest_is_least(before);
        let i = lightest(before);
        assert(before[i] == trees[i]);
        assert forall|k: int| 0 <= k < trees.len() implies !lighter(
            #[trigger] trees[k],
            trees[lightest(trees)],
        ) by {
            if k < trees.len() - 1 {
                assert(before[k] == trees[k]);
            }
        }
    }
}

/// The lesser of two symbols.
pub open spec fn lesser(a: u64, b: u64) -> u64 {
    if a <= b {
        a
    } else {
        b
    }
}

/// The trees after the two lightest have been joined under the root `root`.
pub open spec fn joined(trees: Seq<(usize, u64, usize)>, root: usize) -> Seq<(usize, u64, usize)> {
    let i = lightest(trees);
    let rest = trees.remove(i);
    let j = lightest(rest);
    rest.remove(j).push(
        ((trees[i].0 + rest[j].0) as usize, lesser(trees[i].1, rest[j].1), root),
    )
}

/// The parents of all nodes after all trees have been joined, from those before.
pub open spec fn final_parents(
    trees: Seq<(usize, u64, usize)>,
    parents: Seq<Option<usize>>,
) -> Seq<Option<usize>>
    decreases trees.len(),
    via final_parents_decreases
{
    if trees.len() <= 1 {
        parents
    } else {
        let i = lightest(trees);
        let rest = trees.remove(i);
        let j = lightest(rest);
        let root = parents.len() as usize;
        final_parents(
            joined(trees, root),
            parents.update(trees[i].2 as int, Some(root)).update(
                rest[j].2 as int,
                Some(root),
            ).push(None),
        )
    }
}

#[via_fn]
proof fn final_parents_decreases(trees: Seq<(usize, u64, usize)>, parents: Seq<Option<usize>>) {
    if trees.len() > 1 {
        lightest_is_least(trees);
        lightest_is_least(trees.remove(lightest(trees)));
    }
}

/// One tree for each symbol.
pub open spec fn leaves(symbols: Seq<SymbolFrequency>) -> Seq<(usize, u64, usize)> {
    Seq::new(symbols.len(), |i: int| (symbols[i].frequency, symbols[i].symbol, i as usize))
}

/// The parents of all nodes of the code tree of some symbols.
pub open spec fn tree_parents(symbols: Seq<SymbolFrequency>) -> Seq<Option<usize>> {
    final_parents(leaves(symbols), Seq::new(symbols.len(), |i: int| None))
}

/// How far a node is below its root. A parent always comes behind its children.
pub open spec fn depth(parents: Seq<Option<usize>>, node: int) -> nat
    decreases parents.len() - node,
{
    if 0 <= node < parents.len() {
        match parents[node] {
            Some(parent) => if node < parent < parents.len() {
                1 + depth(parents, parent as int)
            } else {
                0
            },
            None => 0,
        }
    } else {
        0
    }
}

/// The length of the code of symbol number `i`.
pub open spec fn code_length(symbols: Seq<SymbolFrequency>, i: int) -> nat {
    let d = depth(tree_parents(symbols), i);
    if d == 0 {
        1
    } else {
        d
    }
}

/// The weight of some trees together.
pub open spec fn weight_sum(trees: Seq<(usize, u64, usize)>) -> nat
    decreases trees.len(),
{
    if trees.len() == 0 {
        0
    } else {
        weight_sum(trees.drop_last()) + trees.last().0 as nat
    }
}

/// How often all symbols occur together.
pub open spec fn total_frequency(symbols: Seq<SymbolFrequency>) -> nat {
    weight_sum(leaves(symbols))
}

/// Taking a tree away takes its weight away.
pub proof fn weight_sum_remove(trees: Seq<(usize, u64, usize)>, i: int)
    requires
        0 <= i < trees.len(),
    ensures
        weight_sum(trees) == weight_sum(trees.remove(i)) + trees[i].0,
    decreases trees.len(),
{
    if i < trees.len() - 1 {
        weight_sum_remove(trees.drop_last(), i);
        assert(trees.remove(i).drop_last() =~= trees.drop_last().remove(i));
    } else {
        assert(trees.remove(i) =~= trees.drop_last());
    }
}

/// Whether the trees have different roots among the nodes, none of which has a parent, and every
/// parent comes behind its child.
pub open spec fn forest(trees: Seq<(usize, u64, usize)>, parents: Seq<Option<usize>>) -> bool {
    &&& forall|k: int|
        0 <= k < trees.len() ==> (#[trigger] trees[k]).2 < parents.len()
            && parents[trees[k].2 as int] is None
    &&& forall|j: int, k: int|
        0 <= j < k < trees.len() ==> (#[trigger] trees[j]).2 != (#[trigger] trees[k]).2
    &&& forall|v: int|
        0 <= v < parents.len() ==> (#[trigger] parents[v] matches Some(p) ==> v < p
            < parents.len())
}

/// The nodes after the two lightest trees have been joined.
pub open spec fn joined_parents(
    trees: Seq<(usize, u64, usize)>,
    parents: Seq<Option<usize>>,
) -> Seq<Option<usize>> {
    let i = lightest(trees);
    let rest = trees.remove(i);
    let j = lightest(rest);
    let root = parents.len() as usize;
    parents.update(trees[i].2 as int, Some(root)).update(rest[j].2 as int, Some(root)).push(None)
}

/// Joining trees keeps them a forest.
pub proof fn joining_keeps_forest(trees: Seq<(usize, u64, usize)>, parents: Seq<Option<usize>>)
    requires
        trees.len() > 1,
        forest(trees, parents),
        parents.len() < usize::MAX,
    ensures
        forest(joined(trees, parents.len() as usize), joined_parents(trees, parents)),
        joined(trees, parents.len() as usize).len() == trees.len() - 1,
        joined_parents(trees, parents).len() == parents.len() + 1,
{
    lightest_is_least(trees);
    let i = lightest(trees);
    let rest = trees.remove(i);
    lightest_is_least(rest);
    let j = lightest(rest);
    let root = parents.len() as usize;
    let after = joined(trees, root);
    let nodes = joined_parents(trees, parents);
    let a = trees[i].2 as int;
    let b = rest[j].2 as int;
    let jj = if j < i {
        j
    } else {
        j + 1
    };
    assert(rest[j] == trees[jj]);
    assert(a != b) by {
        if jj < i {
            assert(trees[jj].2 != trees[i].2);
        } else {
            assert(trees[i].2 != trees[jj].2);
        }
    }
    assert forall|k: int| 0 <= k < after.len() implies (#[trigger] after[k]).2 < nodes.len()
        && nodes[after[k].2 as int] is None by {
        if k < after.len() - 1 {
            let m = original_place(i, j, k);
            removed_twice(trees, i, j, k);
            assert(after[k] == trees[m]);
            assert(m != i && m != jj);
            assert(trees[m].2 != a) by {
                if m < i {
                    assert(trees[m].2 != trees[i].2);
                } else {
                    assert(trees[i].2 != trees[m].2);
                }
            }
            assert(trees[m].2 != b) by {
                if m < jj {
                    assert(trees[m].2 != trees[jj].2);
                } else {
                    assert(trees[jj].2 != trees[m].2);
                }
            }
        }
    }
    assert forall|k: int, l: int| 0 <= k < l < after.len() implies (#[trigger] after[k]).2 != (
    #[trigger] after[l]).2 by {
        removed_twice(trees, i, j, k);
        if l < after.len() - 1 {
            removed_twice(trees, i, j, l);
            assert(trees[original_place(i, j, k)].2 != trees[original_place(i, j, l)].2);
        } else {
            assert(trees[original_place(i, j, k)].2 < parents.len());
        }
    }
}

/// Where element `k` of a list stood before elements `i` and then `j` were taken out.
pub open spec fn original_place(i: int, j: int, k: int) -> int {
    let m = if k < j {
        k
    } else {
        k + 1
    };
    if m < i {
        m
    } else {
        m + 1
    }
}

/// What is left of a list after two elements were taken out stands where it stood before.
pub proof fn removed_twice(trees: Seq<(usize, u64, usize)>, i: int, j: int, k: int)
    requires
        0 <= i < trees.len(),
        0 <= j < trees.len() - 1,
        0 <= k < trees.len() - 2,
    ensures
        0 <= original_place(i, j, k) < trees.len(),
        original_place(i, j, k) != i,
        original_place(i, j, k) != (if j < i { j } else { j + 1 }),
        trees.remove(i).remove(j)[k] == trees[original_place(i, j, k)],
{
    let m = if k < j {
        k
    } else {
        k + 1
    };
    assert(trees.remove(i).remove(j)[k] == trees.remove(i)[m]);
}

/// Parents that are set stay, and so does everything outside the trees' roots.
pub proof fn final_parents_keep(trees: Seq<(usize, u64, usize)>, parents: Seq<Option<usize>>, v: int)
    requires
        forest(trees, parents),
        parents.len() + trees.len() <= usize::MAX,
        0 <= v < parents.len(),
        parents[v] is Some,
    ensures
        final_parents(trees, parents).len() == parents.len() + (if trees.len() > 1 {
            trees.len() - 1
        } else {
            0
        }),
        final_parents(trees, parents)[v] == parents[v],
    decreases trees.len(),
{
    if trees.len() > 1 {
        joining_keeps_forest(trees, parents);
        let nodes = joined_parents(trees, parents);
        lightest_is_least(trees);
        lightest_is_least(trees.remove(lightest(trees)));
        let i = lightest(trees);
        let rest = trees.remove(i);
        let j = lightest(rest);
        assert(trees[i].2 != v);
        assert(rest[j].2 != v) by {
            let jj = if j < i {
                j
            } else {
                j + 1
            };
            assert(rest[j] == trees[jj]);
        }
        assert(nodes[v] == parents[v]);
        final_parents_keep(joined(trees, parents.len() as usize), nodes, v);
    }
}

/// The final parents are a forest of one tree.
proof fn final_parents_sound(trees: Seq<(usize, u64, usize)>, parents: Seq<Option<usize>>)
    requires
        forest(trees, parents),
        parents.len() + trees.len() <= usize::MAX,
    ensures
        final_parents(trees, parents).len() == parents.len() + (if trees.len() > 1 {
            trees.len() - 1
        } else {
            0
        }),
        forall|v: int|
            0 <= v < final_parents(trees, parents).len() ==> (#[trigger] final_parents(
                trees,
                parents,
            )[v] matches Some(p) ==> v < p < final_parents(trees, parents).len()),
    decreases trees.len(),
{
    if trees.len() > 1 {
        joining_keeps_forest(trees, parents);
        final_parents_sound(
            joined(trees, parents.len() as usize),
            joined_parents(trees, parents),
        );
    }
}

/// What the roots of some trees take of the code space, where a root at depth `d` takes
/// `2^(limit - d)`.
pub open spec fn space_of_roots(
    trees: Seq<(usize, u64, usize)>,
    parents: Seq<Option<usize>>,
    limit: nat,
) -> nat
    decreases trees.len(),
{
    if trees.len() == 0 {
        0
    } else {
        space_of_roots(trees.drop_last(), parents, limit) + pow2(
            (limit - depth(parents, trees.last().2 as int)) as nat,
        )
    }
}

proof fn space_of_roots_remove(
    trees: Seq<(usize, u64, usize)>,
    parents: Seq<Option<usize>>,
    limit: nat,
    i: int,
)
    requires
        0 <= i < trees.len(),
    ensures
        space_of_roots(trees, parents, limit) == space_of_roots(trees.remove(i), parents, limit)
            + pow2((limit - depth(parents, trees[i].2 as int)) as nat),
    decreases trees.len(),
{
    if i < trees.len() - 1 {
        space_of_roots_remove(trees.drop_last(), parents, limit, i);
        assert(trees.remove(i).drop_last() =~= trees.drop_last().remove(i));
    } else {
        assert(trees.remove(i) =~= trees.drop_last());
    }
}

/// The code tree uses its code space up: the roots of the trees that it is made of take all of it.
pub proof fn roots_fill_space(trees: Seq<(usize, u64, usize)>, parents: Seq<Option<usize>>, limit: nat)
    requires
        trees.len() > 0,
        forest(trees, parents),
        parents.len() + trees.len() <= usize::MAX,
        forall|k: int|
            0 <= k < trees.len() ==> depth(
                final_parents(trees, parents),
                (#[trigger] trees[k]).2 as int,
            ) <= limit,
    ensures
        space_of_roots(trees, final_parents(trees, parents), limit) == pow2(limit),
    decreases trees.len(),
{
    let all = final_parents(trees, parents);
    if trees.len() == 1 {
        assert(trees.drop_last().len() == 0);
        assert(depth(all, trees[0].2 as int) == 0);
        assert(space_of_roots(trees.drop_last(), all, limit) == 0);
        assert(trees.last() == trees[0]);
    } else {
        joining_keeps_forest(trees, parents);
        lightest_is_least(trees);
        let i = lightest(trees);
        let rest = trees.remove(i);
        lightest_is_least(rest);
        let j = lightest(rest);
        let root = parents.len() as usize;
        let after = joined(trees, root);
        let nodes = joined_parents(trees, parents);
        let a = trees[i].2 as int;
        let b = rest[j].2 as int;
        let jj = if j < i {
            j
        } else {
            j + 1
        };
        assert(rest[j] == trees[jj]);
        assert(nodes[a] == Some(root)) by {
            if jj < i {
                assert(trees[jj].2 != trees[i].2);
            } else {
                assert(trees[i].2 != trees[jj].2);
            }
        }
        assert(nodes[b] == Some(root));
        final_parents_keep(after, nodes, a);
        final_parents_keep(after, nodes, b);
        assert(all == final_parents(after, nodes));
        assert(depth(all, a) == 1 + depth(all, root as int));
        assert(depth(all, b) == 1 + depth(all, root as int));
        let d = depth(all, root as int);
        assert(depth(all, trees[i].2 as int) <= limit);
        assert forall|k: int| 0 <= k < after.len() implies depth(
            all,
            (#[trigger] after[k]).2 as int,
        ) <= limit by {
            if k < after.len() - 1 {
                removed_twice(trees, i, j, k);
                assert(after[k] == trees[original_place(i, j, k)]);
            }
        }
        roots_fill_space(after, nodes, limit);
        space_of_roots_remove(trees, all, limit, i);
        space_of_roots_remove(rest, all, limit, j);
        assert(after.drop_last() =~= rest.remove(j));
        lemma_pow2_unfold((limit - d) as nat);
        assert((limit - d - 1) as nat == ((limit - d) as nat - 1) as nat);
    }
}

/// Where the lightest tree stands.
fn find_lightest(trees: &Vec<(usize, u64, usize)>) -> (place: usize)
    requires
        trees@.len() > 0,
    ensures
        place == lightest(trees@),
        place < trees@.len(),
{
    let mut place: usize = 0;
    let mut k: usize = 1;
    assert(trees@.take(1).len() == 1);
    while k < trees.len()
        invariant
            1 <= k <= trees@.len(),
            place < k,
            place == lightest(trees@.take(k as int)),
        decreases trees@.len() - k,
    {
        let one = trees[k];
        let best = trees[place];
        assert(trees@.take(k as int + 1).drop_last() =~= trees@.take(k as int));
        if one.0 < best.0 || (one.0 == best.0 && (one.1 < best.1 || (one.1 == best.1 && one.2
            < best.2))) {
            place = k;
        }
        k += 1;
    }
    assert(trees@.take(k as int) =~= trees@);
    place
}

/// The code lengths of some symbols.
pub fn build_huffman_code_lengths(symbols: &Vec<SymbolFrequency>) -> (result: Result<
    Vec<usize>,
    EntroGdError,
>)
    requires
        2 * symbols@.len() <= usize::MAX,
    ensures
        result is Ok <==> symbols@.len() <= 1 || total_frequency(symbols@) <= usize::MAX,
        result matches Ok(lengths) ==> {
            &&& lengths@.len() == symbols@.len()
            &&& forall|i: int|
                0 <= i < lengths@.len() ==> #[trigger] lengths@[i] == code_length(symbols@, i)
        },
        result matches Err(error) ==> error is InvalidMetadata,
{
    let n: usize = symbols.len();
    let mut trees: Vec<(usize, u64, usize)> = Vec::new();
    let mut parents: Vec<Option<usize>> = Vec::new();
    let mut i: usize = 0;
    while i < n
        invariant
            i <= n == symbols@.len(),
            trees@ == leaves(symbols@).take(i as int),
            parents@ == Seq::new(i as nat, |k: int| None::<usize>),
        decreases n - i,
    {
        trees.push((symbols[i].frequency, symbols[i].symbol, i));
        parents.push(None);
        assert(leaves(symbols@).take(i as int + 1) =~= leaves(symbols@).take(i as int).push(
            leaves(symbols@)[i as int],
        ));
        assert(parents@ =~= Seq::new(i as nat + 1, |k: int| None::<usize>));
        i += 1;
    }
    let ghost all = tree_parents(symbols@);
    let ghost total = total_frequency(symbols@);
    proof {
        assert(leaves(symbols@).take(n as int) =~= leaves(symbols@));
        assert(parents@ =~= Seq::new(symbols@.len(), |i: int| None));
        assert(forest(trees@, parents@));
    }
    while trees.len() > 1
        invariant
            n == symbols@.len(),
            2 * n <= usize::MAX,
            total == total_frequency(symbols@),
            all == tree_parents(symbols@),
            forest(trees@, parents@),
            parents@.len() + trees@.len() == 2 * n,
            n >= 1 ==> trees@.len() >= 1,
            trees@.len() < n ==> n >= 2,
            n >= 2 ==> weight_sum(trees@) == total,
            final_parents(trees@, parents@) == all,
        decreases trees@.len(),
    {
        let ghost before = trees@;
        let ghost nodes = parents@;
        proof {
            joining_keeps_forest(before, nodes);
        }
        let first: usize = find_lightest(&trees);
        let left = trees.remove(first);
        let ghost rest = trees@;
        let second: usize = find_lightest(&trees);
        let right = trees.remove(second);
        let root: usize = parents.len();
        proof {
            lightest_is_least(before);
            lightest_is_least(rest);
            assert(rest[second as int] == before[if second < first {
                second as int
            } else {
                second as int + 1
            }]);
            weight_sum_remove(before, first as int);
            weight_sum_remove(rest, second as int);
        }
        parents.set(left.2, Some(root));
        parents.set(right.2, Some(root));
        parents.push(None);
        let weight: usize = match left.0.checked_add(right.0) {
            Some(sum) => sum,
            None => {
                return Err(bad_metadata("Huffman frequency sum overflow"));
            },
        };
        let least: u64 = if left.1 <= right.1 { left.1 } else { right.1 };
        trees.push((weight, least, root));
        proof {
            assert(trees@.drop_last() =~= rest.remove(second as int));
            assert(trees@ =~= joined(before, root));
            assert(parents@ =~= joined_parents(before, nodes));
        }
    }
    proof {
        if n >= 2 {
            assert(trees@.len() == 1);
            assert(weight_sum(trees@.drop_last()) == 0);
            assert(trees@.last() == trees@[0]);
            assert(total <= usize::MAX);
        }
        assert(parents@ == all);
    }
    let mut lengths: Vec<usize> = Vec::new();
    let mut leaf: usize = 0;
    while leaf < n
        invariant
            leaf <= n == symbols@.len(),
            n <= parents@.len(),
            all == tree_parents(symbols@),
            parents@ == all,
            forall|v: int|
                0 <= v < parents@.len() ==> (#[trigger] parents@[v] matches Some(p) ==> v < p
                    < parents@.len()),
            lengths@.len() == leaf,
            forall|k: int| 0 <= k < leaf ==> #[trigger] lengths@[k] == code_length(symbols@, k),
        decreases n - leaf,
    {
        let mut steps: usize = 0;
        let mut current: usize = leaf;
        while parents[current].is_some()
            invariant
                leaf <= current < parents@.len(),
                parents@ == all,
                forall|v: int|
                    0 <= v < parents@.len() ==> (#[trigger] parents@[v] matches Some(p) ==> v < p
                        < parents@.len()),
                steps <= current,
                steps + depth(all, current as int) == depth(all, leaf as int),
            ensures
                steps == depth(all, leaf as int),
            decreases parents@.len() - current,
        {
            if let Some(parent) = parents[current] {
                current = parent;
            }
            steps += 1;
        }
        lengths.push(
            if steps == 0 {
                1
            } else {
                steps
            },
        );
        leaf += 1;
    }
    Ok(lengths)
}

/// Whether entries of a code table are in order, shorter codes first, then by symbol.
pub open spec fn in_table_order(entries: Seq<(u8, u64)>) -> bool {
    forall|j: int, k: int|
        0 <= j < k < entries.len() ==> !table_order(#[trigger] entries[k], #[trigger] entries[j])
}

/// Puts entries of a code table in order.
fn sort_entries(entries: &Vec<(u8, u64)>) -> (sorted: Vec<(u8, u64)>)
    ensures
        in_table_order(sorted@),
        sorted@.to_multiset() == entries@.to_multiset(),
        sorted@.len() == entries@.len(),
{
    let mut sorted: Vec<(u8, u64)> = Vec::new();
    let mut i: usize = 0;
    assert(entries@.take(0) =~= sorted@);
    while i < entries.len()
        invariant
            i <= entries@.len(),
            in_table_order(sorted@),
            sorted@.len() == i,
            sorted@.to_multiset() == entries@.take(i as int).to_multiset(),
        decreases entries@.len() - i,
    {
        let entry: (u8, u64) = entries[i];
        let ghost before = sorted@;
        let mut place: usize = sorted.len();
        while place > 0 && (entry.0 < sorted[place - 1].0 || (entry.0 == sorted[place - 1].0
            && entry.1 < sorted[place - 1].1))
            invariant
                place <= sorted@.len(),
                sorted@ == before,
                forall|k: int|
                    place <= k < before.len() ==> table_order(entry, #[trigger] before[k]),
            decreases place,
        {
            place -= 1;
        }
        sorted.insert(place, entry);
        proof {
            to_multiset_insert(before, place as int, entry);
            assert(entries@.take(i as int + 1) =~= entries@.take(i as int).insert(
                i as int,
                entry,
            ));
            to_multiset_insert(entries@.take(i as int), i as int, entry);
            assert forall|j: int, k: int| 0 <= j < k < sorted@.len() implies !table_order(
                #[trigger] sorted@[k],
                #[trigger] sorted@[j],
            ) by {
                let jj = if j < place {
                    j
                } else {
                    j - 1
                };
                let kk = if k < place {
                    k
                } else {
                    k - 1
                };
                if j != place {
                    assert(sorted@[j] == before[jj]);
                }
                if k != place {
                    assert(sorted@[k] == before[kk]);
                }
                if k == place && j < place - 1 {
                    assert(!table_order(before[place - 1], before[j]));
                }
            }
        }
        i += 1;
    }
    assert(entries@.take(i as int) =~= entries@);
    sorted
}

/// The entries of the code table of some symbols, in the order of the symbols. Lengths are
/// written in a byte.
pub open spec fn table_entries(symbols: Seq<SymbolFrequency>) -> Seq<(u8, u64)> {
    Seq::new(
        symbols.len(),
        |i: int| (code_length(symbols, i) as u8, symbols[i].symbol),
    )
}

/// Lengths and symbols of a table side by side.
pub open spec fn side_by_side(table_symbols: Seq<u64>, lengths: Seq<u8>) -> Seq<(u8, u64)> {
    Seq::new(lengths.len(), |k: int| (lengths[k], table_symbols[k]))
}

/// Whether symbols and lengths are the sorted code table of some symbols.
pub open spec fn is_table_of(
    table_symbols: Seq<u64>,
    lengths: Seq<u8>,
    symbols: Seq<SymbolFrequency>,
) -> bool {
    &&& table_symbols.len() == symbols.len()
    &&& lengths.len() == symbols.len()
    &&& in_table_order(side_by_side(table_symbols, lengths))
    &&& side_by_side(table_symbols, lengths).to_multiset() == table_entries(symbols).to_multiset()
}

/// There is only one code table of some symbols.
pub proof fn table_is_unique(
    first: (Seq<u64>, Seq<u8>),
    second: (Seq<u64>, Seq<u8>),
    symbols: Seq<SymbolFrequency>,
)
    requires
        is_table_of(first.0, first.1, symbols),
        is_table_of(second.0, second.1, symbols),
    ensures
        first == second,
{
    let one = side_by_side(first.0, first.1);
    let other = side_by_side(second.0, second.1);
    let leq = |a: (u8, u64), b: (u8, u64)| !table_order(b, a);
    lemma_sorted_unique(one, other, leq);
    assert forall|k: int| 0 <= k < first.0.len() implies first.0[k] == second.0[k] && first.1[k]
        == second.1[k] by {
        assert(one[k] == other[k]);
    }
    assert(first.0 =~= second.0);
    assert(first.1 =~= second.1);
}

/// Whether one symbol comes behind another: by symbol, then by how often it occurs.
pub open spec fn comes_behind(a: SymbolFrequency, b: SymbolFrequency) -> bool {
    b.symbol < a.symbol || (b.symbol == a.symbol && b.frequency < a.frequency)
}

/// Symbols in ascending order.
pub open spec fn by_symbol(symbols: Seq<SymbolFrequency>) -> Seq<SymbolFrequency> {
    symbols.sort_by(|a: SymbolFrequency, b: SymbolFrequency| !comes_behind(a, b))
}

/// Symbols that are in order already are left as they are.
pub proof fn ascending_symbols_stay(symbols: Seq<SymbolFrequency>)
    requires
        forall|i: int, j: int|
            0 <= i < j < symbols.len() ==> !comes_behind(
                #[trigger] symbols[i],
                #[trigger] symbols[j],
            ),
    ensures
        by_symbol(symbols) == symbols,
{
    let leq = |a: SymbolFrequency, b: SymbolFrequency| !comes_behind(a, b);
    symbols.lemma_sort_by_ensures(leq);
    lemma_sorted_unique(symbols, by_symbol(symbols), leq);
}

/// The code table of some symbols does not depend on the order in which they come.
pub proof fn table_does_not_depend_on_order(
    first: (Seq<u64>, Seq<u8>),
    first_symbols: Seq<SymbolFrequency>,
    second: (Seq<u64>, Seq<u8>),
    second_symbols: Seq<SymbolFrequency>,
)
    requires
        first_symbols.to_multiset() == second_symbols.to_multiset(),
        is_table_of(first.0, first.1, by_symbol(first_symbols)),
        is_table_of(second.0, second.1, by_symbol(second_symbols)),
    ensures
        first == second,
{
    let leq = |a: SymbolFrequency, b: SymbolFrequency| !comes_behind(a, b);
    first_symbols.lemma_sort_by_ensures(leq);
    second_symbols.lemma_sort_by_ensures(leq);
    lemma_sorted_unique(by_symbol(first_symbols), by_symbol(second_symbols), leq);
    table_is_unique(first, second, by_symbol(first_symbols));
}

/// Puts symbols in ascending order.
fn sort_symbols(symbols: &Vec<SymbolFrequency>) -> (sorted: Vec<SymbolFrequency>)
    ensures
        sorted@ == by_symbol(symbols@),
        sorted@.len() == symbols@.len(),
{
    let mut sorted: Vec<SymbolFrequency> = Vec::new();
    let mut i: usize = 0;
    assert(symbols@.take(0) =~= sorted@);
    while i < symbols.len()
        invariant
            i <= symbols@.len(),
            forall|j: int, k: int|
                0 <= j < k < sorted@.len() ==> !comes_behind(
                    #[trigger] sorted@[j],
                    #[trigger] sorted@[k],
                ),
            sorted@.len() == i,
            sorted@.to_multiset() == symbols@.take(i as int).to_multiset(),
        decreases symbols@.len() - i,
    {
        let entry: SymbolFrequency = symbols[i];
        let ghost before = sorted@;
        let mut place: usize = sorted.len();
        while place > 0 && (entry.symbol < sorted[place - 1].symbol || (entry.symbol
            == sorted[place - 1].symbol && entry.frequency < sorted[place - 1].frequency))
            invariant
                place <= sorted@.len(),
                sorted@ == before,
                forall|k: int|
                    place <= k < before.len() ==> comes_behind(#[trigger] before[k], entry),
            decreases place,
        {
            place -= 1;
        }
        sorted.insert(place, entry);
        proof {
            to_multiset_insert(before, place as int, entry);
            assert(symbols@.take(i as int + 1) =~= symbols@.take(i as int).insert(
                i as int,
                entry,
            ));
            to_multiset_insert(symbols@.take(i as int), i as int, entry);
            assert forall|j: int, k: int| 0 <= j < k < sorted@.len() implies !comes_behind(
                #[trigger] sorted@[j],
                #[trigger] sorted@[k],
            ) by {
                let jj = if j < place {
                    j
                } else {
                    j - 1
                };
                let kk = if k < place {
                    k
                } else {
                    k - 1
                };
                if j != place {
                    assert(sorted@[j] == before[jj]);
                }
                if k != place {
                    assert(sorted@[k] == before[kk]);
                }
                if k == place && j < place - 1 {
                    assert(!comes_behind(before[j], before[place - 1]));
                }
            }
        }
        i += 1;
    }
    proof {
        let leq = |a: SymbolFrequency, b: SymbolFrequency| !comes_behind(a, b);
        assert(symbols@.take(i as int) =~= symbols@);
        symbols@.lemma_sort_by_ensures(leq);
        lemma_sorted_unique(sorted@, by_symbol(symbols@), leq);
    }
    sorted
}

/// The code table of some symbols, in whatever order they come.
pub fn build_canonical_huffman_table(symbol_frequencies: &Vec<SymbolFrequency>) -> (result: Result<
    (Vec<u64>, Vec<u8>),
    EntroGdError,
>)
    requires
        2 * symbol_frequencies@.len() <= usize::MAX,
    ensures
        result is Ok <==> symbol_frequencies@.len() <= u32::MAX && (symbol_frequencies@.len() <= 1
            || total_frequency(by_symbol(symbol_frequencies@)) <= usize::MAX),
        result matches Ok(table) ==> is_table_of(
            table.0@,
            table.1@,
            by_symbol(symbol_frequencies@),
        ),
        result matches Err(error) ==> error is InvalidMetadata,
{
    ascending_table(&sort_symbols(symbol_frequencies))
}

/// The code table of some symbols, which come in ascending order.
fn ascending_table(symbol_frequencies: &Vec<SymbolFrequency>) -> (result: Result<
    (Vec<u64>, Vec<u8>),
    EntroGdError,
>)
    requires
        2 * symbol_frequencies@.len() <= usize::MAX,
    ensures
        result is Ok <==> symbol_frequencies@.len() <= u32::MAX && (symbol_frequencies@.len() <= 1
            || total_frequency(symbol_frequencies@) <= usize::MAX),
        result matches Ok(table) ==> is_table_of(table.0@, table.1@, symbol_frequencies@),
        result matches Err(error) ==> error is InvalidMetadata,
{
    if symbol_frequencies.len() > u32::MAX as usize {
        return Err(bad_metadata("Huffman symbol table exceeds u32::MAX entries"));
    }
    let raw_lengths = match build_huffman_code_lengths(symbol_frequencies) {
        Ok(lengths) => lengths,
        Err(error) => {
            return Err(error);
        },
    };
    let mut entries: Vec<(u8, u64)> = Vec::new();
    let mut i: usize = 0;
    while i < symbol_frequencies.len()
        invariant
            i <= symbol_frequencies@.len() == raw_lengths@.len(),
            forall|k: int|
                0 <= k < raw_lengths@.len() ==> #[trigger] raw_lengths@[k] == code_length(
                    symbol_frequencies@,
                    k,
                ),
            entries@ == table_entries(symbol_frequencies@).take(i as int),
        decreases symbol_frequencies@.len() - i,
    {
        entries.push((raw_lengths[i] as u8, symbol_frequencies[i].symbol));
        assert(table_entries(symbol_frequencies@).take(i as int + 1) =~= table_entries(
            symbol_frequencies@,
        ).take(i as int).push(table_entries(symbol_frequencies@)[i as int]));
        i += 1;
    }
    assert(table_entries(symbol_frequencies@).take(i as int) =~= table_entries(
        symbol_frequencies@,
    ));
    let sorted = sort_entries(&entries);
    let mut table_symbols: Vec<u64> = Vec::new();
    let mut lengths: Vec<u8> = Vec::new();
    let mut k: usize = 0;
    while k < sorted.len()
        invariant
            k <= sorted@.len(),
            table_symbols@.len() == k,
            lengths@.len() == k,
            forall|j: int|
                0 <= j < k ==> (lengths@[j], table_symbols@[j]) == #[trigger] sorted@[j],
        decreases sorted@.len() - k,
    {
        table_symbols.push(sorted[k].1);
        lengths.push(sorted[k].0);
        k += 1;
    }
    assert(side_by_side(table_symbols@, lengths@) =~= sorted@);
    Ok((table_symbols, lengths))
}

/// What the codes of some lengths take of the code space, in units of the longest code.
pub open spec fn code_space(entries: Seq<(u8, u64)>) -> nat
    decreases entries.len(),
{
    if entries.len() == 0 {
        0
    } else {
        code_space(entries.drop_last()) + pow2((24 - entries.last().0) as nat)
    }
}

proof fn code_space_remove(entries: Seq<(u8, u64)>, i: int)
    requires
        0 <= i < entries.len(),
    ensures
        code_space(entries) == code_space(entries.remove(i)) + pow2((24 - entries[i].0) as nat),
    decreases entries.len(),
{
    if i < entries.len() - 1 {
        code_space_remove(entries.drop_last(), i);
        assert(entries.remove(i).drop_last() =~= entries.drop_last().remove(i));
    } else {
        assert(entries.remove(i) =~= entries.drop_last());
    }
}

/// Entries in another order take the same code space.
proof fn code_space_of_reordered(first: Seq<(u8, u64)>, second: Seq<(u8, u64)>)
    requires
        first.to_multiset() == second.to_multiset(),
    ensures
        code_space(first) == code_space(second),
    decreases first.len(),
{
    to_multiset_len(first);
    to_multiset_len(second);
    if first.len() > 0 {
        let entry = first.last();
        let last = first.len() - 1;
        assert(first[last] == entry);
        to_multiset_contains(first, entry);
        to_multiset_contains(second, entry);
        assert(first.contains(entry));
        assert(second.contains(entry));
        let i = choose|i: int| 0 <= i < second.len() && second[i] == entry;
        to_multiset_remove(first, last);
        to_multiset_remove(second, i);
        assert(first.remove(last) =~= first.drop_last());
        code_space_of_reordered(first.drop_last(), second.remove(i));
        code_space_remove(second, i);
    }
}

/// The code space before entry `k`, in units of that entry's length, is its code.
proof fn code_is_space_before(table_symbols: Seq<u64>, lengths: Seq<u8>, k: int)
    requires
        table_symbols.len() == lengths.len(),
        0 <= k < lengths.len(),
        forall|j: int| 0 <= j < lengths.len() ==> 1 <= #[trigger] lengths[j] <= 24,
        in_table_order(side_by_side(table_symbols, lengths)),
    ensures
        code_space(side_by_side(table_symbols, lengths).take(k)) == code_at(lengths, k) * pow2(
            (24 - lengths[k]) as nat,
        ),
    decreases k,
{
    let entries = side_by_side(table_symbols, lengths);
    if k == 0 {
        assert(entries.take(0).len() == 0);
        assert(code_at(lengths, 0) == 0);
        assert(0 * pow2((24 - lengths[0]) as nat) == 0);
    } else {
        code_is_space_before(table_symbols, lengths, k - 1);
        assert(!table_order(entries[k], entries[k - 1]));
        assert(lengths[k - 1] <= lengths[k]);
        assert(entries.take(k).drop_last() =~= entries.take(k - 1));
        assert(entries.take(k).last() == entries[k - 1]);
        let step = (lengths[k] - lengths[k - 1]) as nat;
        let rest = (24 - lengths[k]) as nat;
        lemma_pow2_adds(step, rest);
        let c = code_at(lengths, k - 1) as int;
        let p = pow2(step) as int;
        let q = pow2(rest) as int;
        assert(c * (p * q) + p * q == (c + 1) * p * q) by (nonlinear_arith);
    }
}

/// The code table of symbols whose codes are not too long is one that can be decoded.
pub proof fn huffman_table_is_canonical(
    table_symbols: Seq<u64>,
    lengths: Seq<u8>,
    symbols: Seq<SymbolFrequency>,
)
    requires
        is_table_of(table_symbols, lengths, symbols),
        2 * symbols.len() <= usize::MAX,
        forall|i: int, j: int|
            0 <= i < j < symbols.len() ==> (#[trigger] symbols[i]).symbol != (
            #[trigger] symbols[j]).symbol,
        forall|i: int| 0 <= i < symbols.len() ==> #[trigger] code_length(symbols, i) <= 24,
    ensures
        canonical(table_symbols, lengths),
{
    let entries = side_by_side(table_symbols, lengths);
    let unsorted = table_entries(symbols);
    let n = symbols.len() as int;
    to_multiset_len(entries);
    assert forall|k: int| 0 <= k < lengths.len() implies 1 <= #[trigger] lengths[k] <= 24 by {
        assert(entries[k] == (lengths[k], table_symbols[k]));
        to_multiset_contains(entries, entries[k]);
        to_multiset_contains(unsorted, entries[k]);
        assert(entries.contains(entries[k]));
        let i = choose|i: int| 0 <= i < unsorted.len() && unsorted[i] == entries[k];
        assert(code_length(symbols, i) <= 24);
    }
    code_space_of_reordered(entries, unsorted);
    codes_fill_space(symbols);
    assert forall|k: int| 0 < k < n implies table_order(
        (lengths[k - 1], table_symbols[k - 1]),
        (#[trigger] lengths[k], table_symbols[k]),
    ) by {
        assert(!table_order(entries[k], entries[k - 1]));
        if entries[k] == entries[k - 1] {
            repeated_entry(entries, k);
            distinct_entries(symbols);
            to_multiset_contains(entries, entries[k]);
        }
    }
    lemma2_to64();
    assert forall|k: int| 0 <= k < n implies #[trigger] code_at(lengths, k) < pow2(
        lengths[k] as nat,
    ) by {
        code_is_space_before(table_symbols, lengths, k);
        let len = lengths[k] as nat;
        let rest = (24 - len) as nat;
        lemma_pow2_adds(len, rest);
        lemma_pow2_pos(rest);
        space_of_prefix(entries, k + 1);
        assert(entries.take(k + 1).drop_last() =~= entries.take(k));
        assert(entries.take(k + 1).last() == entries[k]);
        let c = code_at(lengths, k) as int;
        let p = pow2(len) as int;
        let q = pow2(rest) as int;
        if n == 1 {
            assert(c == 0);
            lemma_pow2_pos(len);
        } else {
            assert(c * q + q <= p * q);
            assert(c < p) by (nonlinear_arith)
                requires
                    c * q + q <= p * q,
                    q > 0,
            ;
        }
    }
}

/// A beginning of a list takes no more code space than all of it.
proof fn space_of_prefix(entries: Seq<(u8, u64)>, k: int)
    requires
        0 <= k <= entries.len(),
    ensures
        code_space(entries.take(k)) <= code_space(entries),
    decreases entries.len() - k,
{
    if k < entries.len() {
        space_of_prefix(entries, k + 1);
        assert(entries.take(k + 1).drop_last() =~= entries.take(k));
    } else {
        assert(entries.take(k) =~= entries);
    }
}

/// The codes of two or more symbols take all of the code space.
proof fn codes_fill_space(symbols: Seq<SymbolFrequency>)
    requires
        2 * symbols.len() <= usize::MAX,
        forall|i: int| 0 <= i < symbols.len() ==> #[trigger] code_length(symbols, i) <= 24,
    ensures
        symbols.len() >= 2 ==> code_space(table_entries(symbols)) == pow2(24),
{
    if symbols.len() >= 2 {
        let trees = leaves(symbols);
        let start = Seq::new(symbols.len(), |i: int| None::<usize>);
        let parents = tree_parents(symbols);
        assert(forest(trees, start));
        assert forall|k: int| 0 <= k < trees.len() implies depth(
            parents,
            (#[trigger] trees[k]).2 as int,
        ) <= 24 by {
            assert(code_length(symbols, k) <= 24);
        }
        roots_fill_space(trees, start, 24);
        leaves_have_parents(symbols, symbols.len() as int);
        space_by_leaf(symbols, symbols.len() as int);
        assert(trees.take(symbols.len() as int) =~= trees);
        assert(table_entries(symbols).take(symbols.len() as int) =~= table_entries(symbols));
    }
}

/// With two or more symbols no leaf is a root.
proof fn leaves_have_parents(symbols: Seq<SymbolFrequency>, n: int)
    requires
        n == symbols.len() >= 2,
        2 * n <= usize::MAX,
        space_of_roots(leaves(symbols), tree_parents(symbols), 24) == pow2(24),
    ensures
        forall|i: int| 0 <= i < n ==> depth(tree_parents(symbols), i) > 0,
{
    let trees = leaves(symbols);
    let parents = tree_parents(symbols);
    assert forall|i: int| 0 <= i < n implies depth(parents, i) > 0 by {
        if depth(parents, i) == 0 {
            space_of_roots_remove(trees, parents, 24, i);
            assert(trees[i].2 == i);
            let rest = trees.remove(i);
            space_of_roots_remove(rest, parents, 24, 0);
            lemma_pow2_pos((24 - depth(parents, rest[0].2 as int)) as nat);
        }
    }
}

/// The space of the leaves, summed up leaf by leaf.
proof fn space_by_leaf(symbols: Seq<SymbolFrequency>, n: int)
    requires
        0 <= n <= symbols.len() <= usize::MAX,
        forall|i: int| 0 <= i < symbols.len() ==> depth(tree_parents(symbols), i) > 0,
        forall|i: int| 0 <= i < symbols.len() ==> #[trigger] code_length(symbols, i) <= 24,
    ensures
        space_of_roots(leaves(symbols).take(n), tree_parents(symbols), 24) == code_space(
            table_entries(symbols).take(n),
        ),
    decreases n,
{
    if n > 0 {
        space_by_leaf(symbols, n - 1);
        assert(leaves(symbols).take(n).drop_last() =~= leaves(symbols).take(n - 1));
        assert(table_entries(symbols).take(n).drop_last() =~= table_entries(symbols).take(n - 1));
        assert(code_length(symbols, n - 1) <= 24);
        assert(depth(tree_parents(symbols), n - 1) > 0);
    }
}

/// An entry that stands in a list twice is counted twice.
proof fn repeated_entry(entries: Seq<(u8, u64)>, k: int)
    requires
        0 < k < entries.len(),
        entries[k] == entries[k - 1],
    ensures
        entries.to_multiset().count(entries[k]) >= 2,
{
    let shorter = entries.remove(k);
    to_multiset_remove(entries, k);
    assert(shorter[k - 1] == entries[k]);
    assert(shorter.contains(entries[k]));
    to_multiset_contains(shorter, entries[k]);
    to_multiset_contains(entries, entries[k]);
    assert(entries.contains(entries[k]));
}

/// Different symbols make different entries.
proof fn distinct_entries(symbols: Seq<SymbolFrequency>)
    requires
        forall|i: int, j: int|
            0 <= i < j < symbols.len() ==> (#[trigger] symbols[i]).symbol != (
            #[trigger] symbols[j]).symbol,
    ensures
        forall|entry: (u8, u64)| #[trigger]
            table_entries(symbols).to_multiset().count(entry) <= 1,
{
    let entries = table_entries(symbols);
    assert forall|entry: (u8, u64)| #[trigger] entries.to_multiset().count(entry) <= 1 by {
        if entries.to_multiset().count(entry) > 1 {
            to_multiset_contains(entries, entry);
            let i = choose|i: int| 0 <= i < entries.len() && entries[i] == entry;
            to_multiset_remove(entries, i);
            let shorter = entries.remove(i);
            to_multiset_contains(shorter, entry);
            let j = choose|j: int| 0 <= j < shorter.len() && shorter[j] == entry;
            let other = if j < i {
                j
            } else {
                j + 1
            };
            assert(entries[other] == entry);
            assert(symbols[i].symbol == symbols[other].symbol);
        }
    }
}

/// Symbols that are all different still are so in ascending order, and they are the same ones.
proof fn sorted_symbols_differ(symbols: Seq<SymbolFrequency>)
    requires
        symbols_differ(symbols),
    ensures
        by_symbol(symbols).len() == symbols.len(),
        symbols_differ(by_symbol(symbols)),
        forall|i: int|
            0 <= i < symbols.len() ==> by_symbol(symbols).contains(#[trigger] symbols[i]),
        forall|i: int|
            0 <= i < symbols.len() ==> symbols.contains(#[trigger] by_symbol(symbols)[i]),
{
    broadcast use vstd::seq_lib::group_to_multiset_ensures;

    let sorted = by_symbol(symbols);
    symbols.lemma_sort_by_ensures(|a: SymbolFrequency, b: SymbolFrequency| !comes_behind(a, b));
    to_multiset_len(symbols);
    to_multiset_len(sorted);
    assert(symbols.no_duplicates());
    symbols.lemma_multiset_has_no_duplicates();
    sorted.lemma_multiset_has_no_duplicates_conv();
    assert forall|i: int| 0 <= i < symbols.len() implies sorted.contains(#[trigger] symbols[i]) by {
        assert(symbols.contains(symbols[i]));
        assert(sorted.to_multiset().count(symbols[i]) > 0);
    }
    assert forall|i: int| 0 <= i < symbols.len() implies symbols.contains(#[trigger] sorted[i]) by {
        assert(sorted.contains(sorted[i]));
        assert(symbols.to_multiset().count(sorted[i]) > 0);
    }
    assert forall|i: int, j: int| 0 <= i < j < sorted.len() implies (#[trigger] sorted[i]).symbol
        != (#[trigger] sorted[j]).symbol by {
        assert(symbols.contains(sorted[i]) && symbols.contains(sorted[j]));
        let a = choose|a: int| 0 <= a < symbols.len() && symbols[a] == sorted[i];
        let b = choose|b: int| 0 <= b < symbols.len() && symbols[b] == sorted[j];
        assert(sorted[i] != sorted[j]);
    }
}

/// Whether symbols are all different.
pub open spec fn symbols_differ(symbols: Seq<SymbolFrequency>) -> bool {
    forall|i: int, j: int|
        0 <= i < j < symbols.len() ==> (#[trigger] symbols[i]).symbol != (
        #[trigger] symbols[j]).symbol
}

/// Entries in order of which no two are the same ascend.
proof fn entries_ascend(entries: Seq<(u8, u64)>, j: int, k: int)
    requires
        0 <= j < k < entries.len(),
        forall|i: int|
            0 < i < entries.len() ==> table_order(entries[i - 1], #[trigger] entries[i]),
    ensures
        table_order(entries[j], entries[k]),
    decreases k - j,
{
    assert(table_order(entries[k - 1], entries[k]));
    if j < k - 1 {
        entries_ascend(entries, j, k - 1);
    }
}

/// The code table of different symbols holds each of them once, the shortest codes first and equal
/// ones by symbol. A single symbol has a code of one bit. The table is the same for the symbols in any
/// other order.
pub proof fn code_table_of_symbols(
    table: (Seq<u64>, Seq<u8>),
    symbols: Seq<SymbolFrequency>,
    other: (Seq<u64>, Seq<u8>),
    reordered: Seq<SymbolFrequency>,
)
    requires
        symbols_differ(symbols),
        is_table_of(table.0, table.1, by_symbol(symbols)),
        reordered.to_multiset() == symbols.to_multiset(),
        is_table_of(other.0, other.1, by_symbol(reordered)),
    ensures
        table.0.len() == symbols.len(),
        table.1.len() == symbols.len(),
        table.0.no_duplicates(),
        forall|i: int|
            0 <= i < symbols.len() ==> table.0.contains((#[trigger] symbols[i]).symbol),
        forall|j: int, k: int|
            0 <= j < k < symbols.len() ==> table_order(
                (#[trigger] table.1[j], table.0[j]),
                (#[trigger] table.1[k], table.0[k]),
            ),
        forall|j: int, k: int|
            0 <= j < k < symbols.len() ==> #[trigger] table.1[j] < #[trigger] table.1[k] || (
            table.1[j] == table.1[k] && table.0[j] < table.0[k]),
        symbols.len() == 1 ==> table.1 == seq![1u8],
        other == table,
{
    let sorted = by_symbol(symbols);
    let entries = side_by_side(table.0, table.1);
    let unsorted = table_entries(sorted);
    let n = symbols.len() as int;
    sorted_symbols_differ(symbols);
    table_does_not_depend_on_order(table, symbols, other, reordered);
    assert forall|k: int| 0 < k < n implies table_order(entries[k - 1], #[trigger] entries[k]) by {
        assert(!table_order(entries[k], entries[k - 1]));
        if entries[k] == entries[k - 1] {
            repeated_entry(entries, k);
            distinct_entries(sorted);
            to_multiset_contains(entries, entries[k]);
        }
    }
    assert forall|j: int, k: int| 0 <= j < k < n implies table_order(
        (#[trigger] table.1[j], table.0[j]),
        (#[trigger] table.1[k], table.0[k]),
    ) by {
        entries_ascend(entries, j, k);
        assert(entries[j] == (table.1[j], table.0[j]));
        assert(entries[k] == (table.1[k], table.0[k]));
    }
    assert forall|j: int, k: int| 0 <= j < k < n implies #[trigger] table.1[j] < #[trigger] table.1[k]
        || (table.1[j] == table.1[k] && table.0[j] < table.0[k]) by {
        assert(table_order((table.1[j], table.0[j]), (table.1[k], table.0[k])));
    }
    assert forall|k: int| 0 <= k < n implies unsorted.contains(#[trigger] entries[k]) by {
        to_multiset_contains(entries, entries[k]);
        to_multiset_contains(unsorted, entries[k]);
        assert(entries.contains(entries[k]));
    }
    assert forall|j: int, k: int| 0 <= j < k < n implies table.0[j] != table.0[k] by {
        assert(unsorted.contains(entries[j]) && unsorted.contains(entries[k]));
        let a = choose|a: int| 0 <= a < unsorted.len() && unsorted[a] == entries[j];
        let b = choose|b: int| 0 <= b < unsorted.len() && unsorted[b] == entries[k];
        entries_ascend(entries, j, k);
        assert(sorted[a].symbol == table.0[j] && sorted[b].symbol == table.0[k]);
    }
    assert forall|i: int| 0 <= i < n implies table.0.contains((#[trigger] symbols[i]).symbol) by {
        assert(sorted.contains(symbols[i]));
        let a = choose|a: int| 0 <= a < sorted.len() && sorted[a] == symbols[i];
        to_multiset_contains(entries, unsorted[a]);
        to_multiset_contains(unsorted, unsorted[a]);
        assert(unsorted.contains(unsorted[a]));
        let k = choose|k: int| 0 <= k < entries.len() && entries[k] == unsorted[a];
        assert(table.0[k] == symbols[i].symbol);
    }
    if n == 1 {
        assert(code_length(sorted, 0) == 1);
        assert(unsorted.contains(entries[0]));
        assert(table.1 =~= seq![1u8]);
    }
}

} // verus!
