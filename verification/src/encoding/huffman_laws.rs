//! No other prefix code is shorter than the code lengths that are built from frequencies.
use vstd::arithmetic::power2::{lemma_pow2_adds, lemma_pow2_pos, lemma_pow2_unfold, pow2};
use vstd::prelude::*;

use crate::encoding::huffman_tree::{
    code_length, depth, final_parents, final_parents_keep, forest, joined, joined_parents,
    joining_keeps_forest, leaves, lighter, lightest, lightest_is_least, roots_fill_space,
    space_of_roots, total_frequency, tree_parents, weight_sum, weight_sum_remove, SymbolFrequency,
};

verus! {

/// How many bits it takes to write symbols down that occur so often and have codes of these
/// lengths.
pub open spec fn code_cost(weights: Seq<nat>, lengths: Seq<nat>) -> nat
    decreases weights.len(),
{
    if weights.len() == 0 {
        0
    } else {
        code_cost(weights.drop_last(), lengths.drop_last()) + weights.last() * lengths.last()
    }
}

/// How much codes of these lengths take up of `2^limit`.
pub open spec fn space_taken(lengths: Seq<nat>, limit: nat) -> nat
    decreases lengths.len(),
{
    if lengths.len() == 0 {
        0
    } else {
        space_taken(lengths.drop_last(), limit) + pow2((limit - lengths.last()) as nat)
    }
}

/// Whether there is a prefix code with the given lengths: together its codes take up no more than
/// there is.
pub open spec fn is_prefix_code(lengths: Seq<nat>, limit: nat) -> bool {
    &&& forall|k: int| 0 <= k < lengths.len() ==> #[trigger] lengths[k] <= limit
    &&& space_taken(lengths, limit) <= pow2(limit)
}

proof fn cost_without(weights: Seq<nat>, lengths: Seq<nat>, i: int)
    requires
        weights.len() == lengths.len(),
        0 <= i < weights.len(),
    ensures
        code_cost(weights, lengths) == code_cost(weights.remove(i), lengths.remove(i)) + weights[i]
            * lengths[i],
    decreases weights.len(),
{
    if i < weights.len() - 1 {
        cost_without(weights.drop_last(), lengths.drop_last(), i);
        assert(weights.remove(i).drop_last() =~= weights.drop_last().remove(i));
        assert(lengths.remove(i).drop_last() =~= lengths.drop_last().remove(i));
    } else {
        assert(weights.remove(i) =~= weights.drop_last());
        assert(lengths.remove(i) =~= lengths.drop_last());
    }
}

proof fn space_without(lengths: Seq<nat>, limit: nat, i: int)
    requires
        0 <= i < lengths.len(),
    ensures
        space_taken(lengths, limit) == space_taken(lengths.remove(i), limit) + pow2(
            (limit - lengths[i]) as nat,
        ),
    decreases lengths.len(),
{
    if i < lengths.len() - 1 {
        space_without(lengths.drop_last(), limit, i);
        assert(lengths.remove(i).drop_last() =~= lengths.drop_last().remove(i));
    } else {
        assert(lengths.remove(i) =~= lengths.drop_last());
    }
}

proof fn one_length_changed(weights: Seq<nat>, lengths: Seq<nat>, limit: nat, i: int, length: nat)
    requires
        weights.len() == lengths.len(),
        0 <= i < weights.len(),
    ensures
        code_cost(weights, lengths.update(i, length)) + weights[i] * lengths[i] == code_cost(
            weights,
            lengths,
        ) + weights[i] * length,
        space_taken(lengths.update(i, length), limit) + pow2((limit - lengths[i]) as nat)
            == space_taken(lengths, limit) + pow2((limit - length) as nat),
{
    let changed = lengths.update(i, length);
    assert(changed.remove(i) =~= lengths.remove(i));
    cost_without(weights, lengths, i);
    cost_without(weights, changed, i);
    space_without(lengths, limit, i);
    space_without(changed, limit, i);
}

/// Two lengths changed for one another.
spec fn exchanged(lengths: Seq<nat>, i: int, p: int) -> Seq<nat> {
    lengths.update(i, lengths[p]).update(p, lengths[i])
}

/// Giving the longer of two codes to the rarer symbol costs nothing.
proof fn longer_code_to_rarer_symbol(
    weights: Seq<nat>,
    lengths: Seq<nat>,
    limit: nat,
    i: int,
    p: int,
)
    requires
        weights.len() == lengths.len(),
        0 <= i < weights.len(),
        0 <= p < weights.len(),
        weights[i] <= weights[p],
        lengths[i] <= lengths[p],
        is_prefix_code(lengths, limit),
    ensures
        is_prefix_code(exchanged(lengths, i, p), limit),
        code_cost(weights, exchanged(lengths, i, p)) <= code_cost(weights, lengths),
{
    let first = lengths.update(i, lengths[p]);
    let both = exchanged(lengths, i, p);
    if i == p {
        assert(both =~= lengths);
    } else {
        one_length_changed(weights, lengths, limit, i, lengths[p]);
        one_length_changed(weights, first, limit, p, lengths[i]);
        let (a, b, x, y) = (
            weights[i] as int,
            weights[p] as int,
            lengths[i] as int,
            lengths[p] as int,
        );
        assert(a * y + b * x <= a * x + b * y) by (nonlinear_arith)
            requires
                a <= b,
                x <= y,
        ;
    }
}

/// One of the longest codes, other than one that is left out.
proof fn longest_besides(lengths: Seq<nat>, left_out: int) -> (p: int)
    requires
        lengths.len() > 1 || (lengths.len() == 1 && left_out != 0),
    ensures
        0 <= p < lengths.len(),
        p != left_out,
        forall|k: int| 0 <= k < lengths.len() && k != left_out ==> #[trigger] lengths[k] <= lengths[p],
    decreases lengths.len(),
{
    let n = lengths.len() as int;
    if n == 1 {
        0
    } else if n == 2 && (left_out == 0 || left_out == 1) {
        1 - left_out
    } else if left_out == n - 1 {
        let p = longest_besides(lengths.drop_last(), -1);
        assert forall|k: int| 0 <= k < n && k != left_out implies #[trigger] lengths[k]
            <= lengths[p] by {
            assert(lengths.drop_last()[k] == lengths[k]);
        }
        p
    } else {
        let p = longest_besides(lengths.drop_last(), left_out);
        let best = if lengths[n - 1] > lengths[p] {
            n - 1
        } else {
            p
        };
        assert forall|k: int| 0 <= k < n && k != left_out implies #[trigger] lengths[k]
            <= lengths[best] by {
            if k < n - 1 {
                assert(lengths.drop_last()[k] == lengths[k]);
            }
        }
        best
    }
}

/// Codes of at most `m` bits take up space in whole parts of `2^(limit - m)`.
proof fn space_in_parts(lengths: Seq<nat>, limit: nat, m: nat)
    requires
        m <= limit,
        forall|k: int| 0 <= k < lengths.len() ==> #[trigger] lengths[k] <= m,
    ensures
        space_taken(lengths, limit) == pow2((limit - m) as nat) * space_taken(lengths, m),
    decreases lengths.len(),
{
    let p = pow2((limit - m) as nat) as int;
    if lengths.len() > 0 {
        let last = lengths.last();
        assert(lengths[lengths.len() - 1] == last);
        assert forall|k: int| 0 <= k < lengths.len() - 1 implies #[trigger] lengths.drop_last()[k]
            <= m by {
            assert(lengths[k] <= m);
        }
        space_in_parts(lengths.drop_last(), limit, m);
        lemma_pow2_adds((limit - m) as nat, (m - last) as nat);
        assert((limit - m) as nat + (m - last) as nat == (limit - last) as nat);
        let a = space_taken(lengths.drop_last(), m) as int;
        let b = pow2((m - last) as nat) as int;
        assert(p * (a + b) == p * a + p * b) by (nonlinear_arith);
    } else {
        assert(p * 0 == 0);
    }
}

/// A code that is longer than all others can be as short as the longest of those.
proof fn longest_code_is_shortened(
    weights: Seq<nat>,
    lengths: Seq<nat>,
    limit: nat,
    i: int,
    m: nat,
)
    requires
        weights.len() == lengths.len(),
        0 <= i < weights.len(),
        is_prefix_code(lengths, limit),
        m <= lengths[i],
        forall|k: int| 0 <= k < lengths.len() && k != i ==> #[trigger] lengths[k] <= m,
    ensures
        is_prefix_code(lengths.update(i, m), limit),
        code_cost(weights, lengths.update(i, m)) <= code_cost(weights, lengths),
{
    let rest = lengths.remove(i);
    assert(lengths[i] <= limit);
    assert forall|k: int| 0 <= k < rest.len() implies #[trigger] rest[k] <= m by {
        if k < i {
            assert(lengths[k] <= m);
        } else {
            assert(lengths[k + 1] <= m);
        }
    }
    space_without(lengths, limit, i);
    space_in_parts(rest, limit, m);
    lemma_pow2_pos((limit - lengths[i]) as nat);
    lemma_pow2_pos((limit - m) as nat);
    lemma_pow2_adds((limit - m) as nat, m);
    assert((limit - m) as nat + m == limit);
    let p = pow2((limit - m) as nat) as int;
    let taken = space_taken(rest, m) as int;
    let all = pow2(m) as int;
    assert(p * taken + p <= p * all) by (nonlinear_arith)
        requires
            p * taken < p * all,
            p > 0,
    {
        assert(taken < all);
        assert(p * (taken + 1) <= p * all);
    }
    one_length_changed(weights, lengths, limit, i, m);
    let (w, x, y) = (weights[i] as int, m as int, lengths[i] as int);
    assert(w * x <= w * y) by (nonlinear_arith)
        requires
            0 <= w,
            x <= y,
    ;
}

/// The weights of trees.
pub open spec fn tree_weights(trees: Seq<(usize, u64, usize)>) -> Seq<nat> {
    Seq::new(trees.len(), |k: int| trees[k].0 as nat)
}

/// How deep the roots of trees are in the end.
spec fn root_depths(trees: Seq<(usize, u64, usize)>, parents: Seq<Option<usize>>) -> Seq<nat> {
    Seq::new(trees.len(), |k: int| depth(parents, trees[k].2 as int))
}

/// Lengths for the trees after the two lightest were joined, from lengths before that in which
/// these two have the longest ones.
proof fn joined_lengths(
    trees: Seq<(usize, u64, usize)>,
    lengths: Seq<nat>,
    limit: nat,
    root: usize,
) -> (shorter: Seq<nat>)
    requires
        trees.len() > 1,
        lengths.len() == trees.len(),
        weight_sum(trees) <= usize::MAX,
        is_prefix_code(lengths, limit),
    ensures
        shorter.len() == trees.len() - 1,
        is_prefix_code(shorter, limit),
        ({
            let i = lightest(trees);
            let rest = trees.remove(i);
            code_cost(tree_weights(joined(trees, root)), shorter) + trees[i].0 + rest[lightest(
                rest,
            )].0 <= code_cost(tree_weights(trees), lengths)
        }),
{
    let w = tree_weights(trees);
    let i = lightest(trees);
    let rest = trees.remove(i);
    let j = lightest(rest);
    lightest_is_least(trees);
    lightest_is_least(rest);
    let jj = if j < i {
        j
    } else {
        j + 1
    };
    assert(rest[j] == trees[jj]);
    let p = longest_besides(lengths, -1);
    assert(!lighter(trees[p], trees[i]));
    longer_code_to_rarer_symbol(w, lengths, limit, i, p);
    let first = exchanged(lengths, i, p);
    assert forall|k: int| 0 <= k < first.len() implies #[trigger] first[k] <= first[i] by {
        assert(lengths[k] <= lengths[p]);
        assert(lengths[i] <= lengths[p]);
    }
    let q = longest_besides(first, i);
    assert(w[jj] <= w[q]) by {
        let qq = if q < i {
            q
        } else {
            q - 1
        };
        assert(rest[qq] == trees[q]);
        assert(!lighter(rest[qq], rest[j]));
    }
    assert(first[jj] <= first[q]);
    longer_code_to_rarer_symbol(w, first, limit, jj, q);
    let second = exchanged(first, jj, q);
    let m = second[jj];
    assert(m == first[q]);
    assert(second[i] == first[i]);
    assert forall|k: int| 0 <= k < second.len() && k != i implies #[trigger] second[k] <= m by {
        assert(first[k] <= first[q]);
        assert(first[jj] <= first[q]);
    }
    longest_code_is_shortened(w, second, limit, i, m);
    let third = second.update(i, m);
    let without = third.remove(i);
    assert(without[j] == m);
    let left = without.remove(j);
    space_without(third, limit, i);
    space_without(without, limit, j);
    cost_without(w, third, i);
    cost_without(w.remove(i), without, j);
    assert(third[i] == m && m <= limit);
    assert(m > 0) by {
        lemma_pow2_pos(limit);
    }
    let shorter = left.push((m - 1) as nat);
    lemma_pow2_unfold((limit - m + 1) as nat);
    assert((limit - (m - 1)) as nat == (limit - m + 1) as nat);
    assert(shorter.drop_last() =~= left);
    assert(space_taken(shorter, limit) == space_taken(left, limit) + pow2(
        (limit - (m - 1)) as nat,
    ));
    assert forall|k: int| 0 <= k < shorter.len() implies #[trigger] shorter[k] <= limit by {
        if k < left.len() {
            let a = if k < j {
                k
            } else {
                k + 1
            };
            assert(left[k] == without[a]);
            let b = if a < i {
                a
            } else {
                a + 1
            };
            assert(without[a] == third[b]);
        }
    }
    let after = joined(trees, root);
    weight_sum_remove(trees, i);
    weight_sum_remove(rest, j);
    assert(tree_weights(after).drop_last() =~= w.remove(i).remove(j));
    assert(w.remove(i)[j] == rest[j].0);
    let (a, b, x) = (trees[i].0 as int, rest[j].0 as int, m as int);
    assert((a + b) * (x - 1) + a + b == a * x + b * x) by (nonlinear_arith);
    shorter
}

/// The depths of the trees before two were joined cost as much more as these two weigh together.
proof fn joining_adds_weight(trees: Seq<(usize, u64, usize)>, parents: Seq<Option<usize>>)
    requires
        trees.len() > 1,
        forest(trees, parents),
        parents.len() + trees.len() <= usize::MAX,
        weight_sum(trees) <= usize::MAX,
    ensures
        ({
            let i = lightest(trees);
            let rest = trees.remove(i);
            let all = final_parents(trees, parents);
            let after = joined(trees, parents.len() as usize);
            code_cost(tree_weights(trees), root_depths(trees, all)) == code_cost(
                tree_weights(after),
                root_depths(after, all),
            ) + trees[i].0 + rest[lightest(rest)].0
        }),
{
    let all = final_parents(trees, parents);
    joining_keeps_forest(trees, parents);
    lightest_is_least(trees);
    let i = lightest(trees);
    let rest = trees.remove(i);
    lightest_is_least(rest);
    let j = lightest(rest);
    let root = parents.len() as usize;
    let after = joined(trees, root);
    let nodes = joined_parents(trees, parents);
    let a = trees[i].2 as int;
    let b = rest[j].2 as int;
    let jj = if j < i {
        j
    } else {
        j + 1
    };
    assert(rest[j] == trees[jj]);
    assert(nodes[a] == Some(root)) by {
        if jj < i {
            assert(trees[jj].2 != trees[i].2);
        } else {
            assert(trees[i].2 != trees[jj].2);
        }
    }
    assert(nodes[b] == Some(root));
    final_parents_keep(after, nodes, a);
    final_parents_keep(after, nodes, b);
    assert(all == final_parents(after, nodes));
    assert(depth(all, a) == 1 + depth(all, root as int));
    assert(depth(all, b) == 1 + depth(all, root as int));
    let w = tree_weights(trees);
    let d = root_depths(trees, all);
    cost_without(w, d, i);
    cost_without(w.remove(i), d.remove(i), j);
    weight_sum_remove(trees, i);
    weight_sum_remove(rest, j);
    assert(tree_weights(after).drop_last() =~= w.remove(i).remove(j));
    assert(root_depths(after, all).drop_last() =~= d.remove(i).remove(j));
    assert(w.remove(i)[j] == rest[j].0);
    assert(d.remove(i)[j] == depth(all, b));
    let (x, y, z) = (trees[i].0 as int, rest[j].0 as int, depth(all, root as int) as int);
    assert((x + y) * z + x + y == x * (z + 1) + y * (z + 1)) by (nonlinear_arith);
}

/// The depths of trees that are joined two lightest at a time cost no more than any prefix code.
proof fn depths_cost_least(
    trees: Seq<(usize, u64, usize)>,
    parents: Seq<Option<usize>>,
    lengths: Seq<nat>,
    limit: nat,
)
    requires
        trees.len() > 0,
        forest(trees, parents),
        parents.len() + trees.len() <= usize::MAX,
        weight_sum(trees) <= usize::MAX,
        lengths.len() == trees.len(),
        is_prefix_code(lengths, limit),
    ensures
        code_cost(tree_weights(trees), root_depths(trees, final_parents(trees, parents)))
            <= code_cost(tree_weights(trees), lengths),
    decreases trees.len(),
{
    let all = final_parents(trees, parents);
    if trees.len() == 1 {
        let w = tree_weights(trees);
        let d = root_depths(trees, all);
        assert(depth(all, trees[0].2 as int) == 0);
        assert(d.last() == 0);
        assert(code_cost(w.drop_last(), d.drop_last()) == 0);
        assert(w.last() * d.last() == 0) by (nonlinear_arith)
            requires
                d.last() == 0,
        ;
    } else {
        let root = parents.len() as usize;
        let after = joined(trees, root);
        joining_keeps_forest(trees, parents);
        joining_adds_weight(trees, parents);
        let shorter = joined_lengths(trees, lengths, limit, root);
        let i = lightest(trees);
        let rest = trees.remove(i);
        let j = lightest(rest);
        lightest_is_least(trees);
        lightest_is_least(rest);
        weight_sum_remove(trees, i);
        weight_sum_remove(rest, j);
        assert(after.drop_last() =~= rest.remove(j));
        depths_cost_least(after, joined_parents(trees, parents), shorter, limit);
    }
}

/// With two or more symbols no leaf is a root.
proof fn leaf_is_no_root(trees: Seq<(usize, u64, usize)>, parents: Seq<Option<usize>>, k: int)
    requires
        trees.len() > 1,
        forest(trees, parents),
        parents.len() + trees.len() <= usize::MAX,
        0 <= k < trees.len(),
    ensures
        depth(final_parents(trees, parents), trees[k].2 as int) > 0,
    decreases trees.len(),
{
    let all = final_parents(trees, parents);
    joining_keeps_forest(trees, parents);
    lightest_is_least(trees);
    let i = lightest(trees);
    let rest = trees.remove(i);
    lightest_is_least(rest);
    let j = lightest(rest);
    let root = parents.len() as usize;
    let after = joined(trees, root);
    let nodes = joined_parents(trees, parents);
    let jj = if j < i {
        j
    } else {
        j + 1
    };
    assert(rest[j] == trees[jj]);
    assert(all == final_parents(after, nodes));
    if k == i || k == jj {
        let v = trees[k].2 as int;
        assert(nodes[v] == Some(root)) by {
            if jj < i {
                assert(trees[jj].2 != trees[i].2);
            } else {
                assert(trees[i].2 != trees[jj].2);
            }
        }
        final_parents_keep(after, nodes, v);
    } else {
        let a = if k < i {
            k
        } else {
            k - 1
        };
        let b = if a < j {
            a
        } else {
            a - 1
        };
        assert(rest[a] == trees[k]);
        assert(rest.remove(j)[b] == rest[a]);
        assert(after[b] == trees[k]);
        assert(after.len() > 1);
        leaf_is_no_root(after, nodes, b);
    }
}

/// How often symbols occur.
pub open spec fn frequencies(symbols: Seq<SymbolFrequency>) -> Seq<nat> {
    Seq::new(symbols.len(), |i: int| symbols[i].frequency as nat)
}

/// The code lengths of symbols.
pub open spec fn code_lengths(symbols: Seq<SymbolFrequency>) -> Seq<nat> {
    Seq::new(symbols.len(), |i: int| code_length(symbols, i))
}

/// No prefix code, in which each code has a bit at least, writes all occurrences of some symbols
/// down in fewer bits than the code lengths that are built for them.
pub proof fn code_lengths_cost_least(
    symbols: Seq<SymbolFrequency>,
    lengths: Seq<nat>,
    limit: nat,
)
    requires
        2 * symbols.len() <= usize::MAX,
        total_frequency(symbols) <= usize::MAX,
        lengths.len() == symbols.len(),
        is_prefix_code(lengths, limit),
        forall|i: int| 0 <= i < lengths.len() ==> #[trigger] lengths[i] > 0,
    ensures
        code_cost(frequencies(symbols), code_lengths(symbols)) <= code_cost(
            frequencies(symbols),
            lengths,
        ),
{
    let trees = leaves(symbols);
    let start = Seq::new(symbols.len(), |i: int| None::<usize>);
    let all = tree_parents(symbols);
    assert(forest(trees, start));
    assert(tree_weights(trees) =~= frequencies(symbols));
    if symbols.len() >= 2 {
        depths_cost_least(trees, start, lengths, limit);
        assert forall|i: int| 0 <= i < symbols.len() implies root_depths(trees, all)[i]
            == code_lengths(symbols)[i] by {
            leaf_is_no_root(trees, start, i);
            assert(trees[i].2 == i);
        }
        assert(root_depths(trees, all) =~= code_lengths(symbols));
    } else if symbols.len() == 1 {
        let w = frequencies(symbols);
        let d = code_lengths(symbols);
        assert(depth(all, 0) == 0);
        assert(d.last() == 1 && lengths.last() == lengths[0]);
        assert(code_cost(w.drop_last(), d.drop_last()) == 0);
        assert(code_cost(w.drop_last(), lengths.drop_last()) == 0);
        assert(w.last() * d.last() <= w.last() * lengths.last()) by (nonlinear_arith)
            requires
                d.last() <= lengths.last(),
        ;
    }
}

/// The code lengths that are built are those of a prefix code.
pub proof fn code_lengths_are_of_prefix_code(symbols: Seq<SymbolFrequency>, limit: nat)
    requires
        2 * symbols.len() <= usize::MAX,
        limit > 0,
        forall|i: int| 0 <= i < symbols.len() ==> #[trigger] code_length(symbols, i) <= limit,
    ensures
        is_prefix_code(code_lengths(symbols), limit),
        symbols.len() >= 2 ==> space_taken(code_lengths(symbols), limit) == pow2(limit),
{
    let trees = leaves(symbols);
    let start = Seq::new(symbols.len(), |i: int| None::<usize>);
    let all = tree_parents(symbols);
    let d = code_lengths(symbols);
    assert(forest(trees, start));
    lemma_pow2_pos(limit);
    if symbols.len() >= 2 {
        assert forall|k: int| 0 <= k < trees.len() implies depth(
            all,
            (#[trigger] trees[k]).2 as int,
        ) <= limit by {
            assert(code_length(symbols, k) <= limit);
        }
        roots_fill_space(trees, start, limit);
        assert forall|i: int| 0 <= i < symbols.len() implies d[i] == depth(
            all,
            (#[trigger] trees[i]).2 as int,
        ) by {
            leaf_is_no_root(trees, start, i);
        }
        same_space(trees, all, d, limit, trees.len() as int);
        assert(trees.take(trees.len() as int) =~= trees);
        assert(d.take(trees.len() as int) =~= d);
    } else if symbols.len() == 1 {
        assert(depth(all, 0) == 0);
        assert(space_taken(d.drop_last(), limit) == 0);
        lemma_pow2_unfold(limit);
    }
    assert forall|k: int| 0 <= k < d.len() implies #[trigger] d[k] <= limit by {
        assert(code_length(symbols, k) <= limit);
    }
}

proof fn same_space(
    trees: Seq<(usize, u64, usize)>,
    parents: Seq<Option<usize>>,
    lengths: Seq<nat>,
    limit: nat,
    n: int,
)
    requires
        lengths.len() == trees.len(),
        0 <= n <= trees.len(),
        forall|i: int|
            0 <= i < trees.len() ==> lengths[i] == depth(parents, (#[trigger] trees[i]).2 as int),
    ensures
        space_taken(lengths.take(n), limit) == space_of_roots(
            trees.take(n),
            parents,
            limit,
        ),
    decreases n,
{
    if n > 0 {
        same_space(trees, parents, lengths, limit, n - 1);
        assert(trees.take(n).drop_last() =~= trees.take(n - 1));
        assert(lengths.take(n).drop_last() =~= lengths.take(n - 1));
        assert(trees.take(n).last() == trees[n - 1]);
    }
}

/// A symbol that occurs more often than another one has no longer code.
pub proof fn commoner_symbol_has_no_longer_code(symbols: Seq<SymbolFrequency>, i: int, j: int)
    requires
        2 * symbols.len() <= usize::MAX,
        total_frequency(symbols) <= usize::MAX,
        0 <= i < symbols.len(),
        0 <= j < symbols.len(),
        symbols[i].frequency > symbols[j].frequency,
    ensures
        code_length(symbols, i) <= code_length(symbols, j),
{
    let d = code_lengths(symbols);
    let w = frequencies(symbols);
    if d[i] > d[j] {
        let p = longest_besides(d, -1);
        let limit = d[p];
        assert(d[i] <= limit);
        assert forall|k: int| 0 <= k < symbols.len() implies #[trigger] code_length(symbols, k)
            <= limit by {
            assert(d[k] <= d[p]);
        }
        code_lengths_are_of_prefix_code(symbols, limit);
        let other = exchanged(d, i, j);
        let first = d.update(i, d[j]);
        one_length_changed(w, d, limit, i, d[j]);
        one_length_changed(w, first, limit, j, d[i]);
        assert forall|k: int| 0 <= k < other.len() implies 0 < #[trigger] other[k] <= limit by {
            assert(d[k] > 0 && d[k] <= limit);
        }
        let (a, b, x, y) = (w[i] as int, w[j] as int, d[i] as int, d[j] as int);
        assert(a * y + b * x < a * x + b * y) by (nonlinear_arith)
            requires
                a > b,
                x > y,
        ;
        code_lengths_cost_least(symbols, other, limit);
    }
}

/// Of two symbols that are joined first, none other occurs more rarely; of equally rare ones those
/// with the least symbols are taken, and of trees with equal symbols the older ones.
pub proof fn lightest_comes_first(trees: Seq<(usize, u64, usize)>, k: int)
    requires
        0 <= k < trees.len(),
    ensures
        ({
            let least = trees[lightest(trees)];
            &&& least.0 <= trees[k].0
            &&& least.0 == trees[k].0 ==> least.1 <= trees[k].1
            &&& least.0 == trees[k].0 && least.1 == trees[k].1 ==> least.2 <= trees[k].2
        }),
{
    lightest_is_least(trees);
    assert(!lighter(trees[k], trees[lightest(trees)]));
}

/// Joining puts the two lightest trees under one root and leaves the others: the new tree weighs as much
/// as both and goes by the lesser of their symbols.
pub proof fn lightest_two_are_joined(trees: Seq<(usize, u64, usize)>, root: usize)
    requires
        trees.len() > 1,
        weight_sum(trees) <= usize::MAX,
    ensures
        ({
            let i = lightest(trees);
            let rest = trees.remove(i);
            let j = lightest(rest);
            let after = joined(trees, root);
            &&& after.len() == trees.len() - 1
            &&& after.last().2 == root
            &&& after.last().0 == trees[i].0 + rest[j].0
            &&& after.last().1 <= trees[i].1 && after.last().1 <= rest[j].1
            &&& after.last().1 == trees[i].1 || after.last().1 == rest[j].1
            &&& after.drop_last() == rest.remove(j)
            &&& weight_sum(after) == weight_sum(trees)
            &&& forall|k: int| 0 <= k < after.len() - 1 ==> rest[j].0 <= (#[trigger] after[k]).0
        }),
{
    let i = lightest(trees);
    let rest = trees.remove(i);
    let j = lightest(rest);
    let after = joined(trees, root);
    lightest_is_least(trees);
    lightest_is_least(rest);
    weight_sum_remove(trees, i);
    weight_sum_remove(rest, j);
    assert(after.drop_last() =~= rest.remove(j));
    assert forall|k: int| 0 <= k < after.len() - 1 implies rest[j].0 <= (#[trigger] after[k]).0 by {
        let place = if k < j {
            k
        } else {
            k + 1
        };
        assert(after[k] == rest[place]);
        lightest_comes_first(rest, place);
    }
}

} // verus!
