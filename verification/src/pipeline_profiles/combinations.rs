//! All choices of one entry from each of several lists.
use vstd::prelude::*;

verus! {

/// How many choices there are.
pub open spec fn product(lengths: Seq<usize>) -> nat
    decreases lengths.len(),
{
    if lengths.len() == 0 {
        1
    } else {
        lengths[0] as nat * product(lengths.drop_first())
    }
}

/// Choice number `k`: an index into each list, the last one changing fastest.
pub open spec fn choice_at(lengths: Seq<usize>, k: int) -> Seq<usize>
    decreases lengths.len(),
{
    if lengths.len() == 0 {
        Seq::empty()
    } else {
        let rest = product(lengths.drop_first()) as int;
        seq![((k / rest) % (lengths[0] as int)) as usize] + choice_at(lengths.drop_first(), k % rest)
    }
}

/// The number of a choice.
pub open spec fn number_of(lengths: Seq<usize>, index: Seq<usize>) -> int
    decreases lengths.len(),
{
    if lengths.len() == 0 {
        0
    } else {
        index[0] * product(lengths.drop_first()) + number_of(
            lengths.drop_first(),
            index.drop_first(),
        )
    }
}

/// Whether an index stays inside each list.
pub open spec fn inside(lengths: Seq<usize>, index: Seq<usize>) -> bool {
    &&& index.len() == lengths.len()
    &&& forall|j: int| 0 <= j < lengths.len() ==> #[trigger] index[j] < lengths[j]
}

/// Choices are counted from zero up to their number, each once.
pub proof fn choices_are_numbered(lengths: Seq<usize>, index: Seq<usize>)
    requires
        inside(lengths, index),
    ensures
        0 <= number_of(lengths, index) < product(lengths),
        choice_at(lengths, number_of(lengths, index)) == index,
    decreases lengths.len(),
{
    if lengths.len() > 0 {
        let rest = product(lengths.drop_first()) as int;
        let tail = index.drop_first();
        assert(inside(lengths.drop_first(), tail)) by {
            assert forall|j: int| 0 <= j < tail.len() implies #[trigger] tail[j]
                < lengths.drop_first()[j] by {
                assert(index[j + 1] < lengths[j + 1]);
            }
        }
        choices_are_numbered(lengths.drop_first(), tail);
        let first = index[0] as int;
        let count = lengths[0] as int;
        let low = number_of(lengths.drop_first(), tail);
        assert(index[0] < lengths[0]);
        assert(0 <= first * rest + low < count * rest && (first * rest + low) / rest == first && (
        first * rest + low) % rest == low) by (nonlinear_arith)
            requires
                0 <= first < count,
                0 <= low < rest,
        ;
        assert(first % count == first) by (nonlinear_arith)
            requires
                0 <= first < count,
        ;
        assert(seq![index[0]] + tail =~= index);
    } else {
        assert(index =~= Seq::empty());
    }
}

/// Indices into no list of nothing have at least one choice each.
proof fn product_positive(lengths: Seq<usize>)
    requires
        forall|j: int| 0 <= j < lengths.len() ==> #[trigger] lengths[j] > 0,
    ensures
        product(lengths) > 0,
    decreases lengths.len(),
{
    if lengths.len() > 0 {
        let tail = lengths.drop_first();
        assert forall|j: int| 0 <= j < tail.len() implies #[trigger] tail[j] > 0 by {
            assert(lengths[j + 1] > 0);
        }
        product_positive(tail);
        let a = lengths[0] as int;
        let b = product(tail) as int;
        assert(a * b > 0) by (nonlinear_arith)
            requires
                a > 0,
                b > 0,
        ;
    }
}

/// With an empty list among them there is no choice.
proof fn product_zero(lengths: Seq<usize>, j: int)
    requires
        0 <= j < lengths.len(),
        lengths[j] == 0,
    ensures
        product(lengths) == 0,
    decreases lengths.len(),
{
    let b = product(lengths.drop_first()) as int;
    if j > 0 {
        product_zero(lengths.drop_first(), j - 1);
        let a = lengths[0] as int;
        assert(a * 0 == 0);
    } else {
        assert(0 * b == 0);
    }
}

/// How far an index is from the last choice behind the first `p` lists: every index from `p` on is
/// the last one of its list.
spec fn all_last(lengths: Seq<usize>, index: Seq<usize>, p: int) -> bool {
    forall|j: int| p <= j < lengths.len() ==> #[trigger] index[j] + 1 == lengths[j]
}

/// An index whose entries are all the last ones is the last choice.
proof fn last_choice(lengths: Seq<usize>, index: Seq<usize>)
    requires
        inside(lengths, index),
        all_last(lengths, index, 0),
    ensures
        number_of(lengths, index) == product(lengths) - 1,
    decreases lengths.len(),
{
    if lengths.len() > 0 {
        let tail = index.drop_first();
        let rest = lengths.drop_first();
        assert(inside(rest, tail)) by {
            assert forall|j: int| 0 <= j < tail.len() implies #[trigger] tail[j] < rest[j] by {
                assert(index[j + 1] < lengths[j + 1]);
            }
        }
        assert(all_last(rest, tail, 0)) by {
            assert forall|j: int| 0 <= j < rest.len() implies #[trigger] tail[j] + 1 == rest[j] by {
                assert(index[j + 1] + 1 == lengths[j + 1]);
            }
        }
        last_choice(rest, tail);
        let a = index[0] as int;
        let b = product(rest) as int;
        assert(index[0] + 1 == lengths[0]);
        assert((a + 1) * b == a * b + b) by (nonlinear_arith);
    }
}

/// The index after another one: the last entry that can grow does, and those behind it start
/// again.
spec fn is_next(lengths: Seq<usize>, index: Seq<usize>, next: Seq<usize>, p: int) -> bool {
    &&& 0 <= p < lengths.len()
    &&& next.len() == index.len()
    &&& all_last(lengths, index, p + 1)
    &&& index[p] + 1 < lengths[p]
    &&& next[p] == index[p] + 1
    &&& forall|j: int| 0 <= j < p ==> #[trigger] next[j] == index[j]
    &&& forall|j: int| p < j < lengths.len() ==> #[trigger] next[j] == 0
}

/// The index of nothing but zeros is the first choice.
proof fn first_choice(lengths: Seq<usize>, index: Seq<usize>)
    requires
        index.len() == lengths.len(),
        forall|j: int| 0 <= j < index.len() ==> #[trigger] index[j] == 0,
    ensures
        number_of(lengths, index) == 0,
    decreases lengths.len(),
{
    if lengths.len() > 0 {
        let tail = index.drop_first();
        assert forall|j: int| 0 <= j < tail.len() implies #[trigger] tail[j] == 0 by {
            assert(index[j + 1] == 0);
        }
        first_choice(lengths.drop_first(), tail);
        let b = product(lengths.drop_first()) as int;
        assert(index[0] == 0);
        assert(0 * b == 0);
    }
}

/// The next index is the next choice.
proof fn next_choice(lengths: Seq<usize>, index: Seq<usize>, next: Seq<usize>, p: int)
    requires
        inside(lengths, index),
        is_next(lengths, index, next, p),
    ensures
        inside(lengths, next),
        number_of(lengths, next) == number_of(lengths, index) + 1,
    decreases lengths.len(),
{
    assert forall|j: int| 0 <= j < lengths.len() implies #[trigger] next[j] < lengths[j] by {
        assert(index[j] < lengths[j]);
    }
    let rest = lengths.drop_first();
    let tail = index.drop_first();
    let next_tail = next.drop_first();
    assert(inside(rest, tail)) by {
        assert forall|j: int| 0 <= j < tail.len() implies #[trigger] tail[j] < rest[j] by {
            assert(index[j + 1] < lengths[j + 1]);
        }
    }
    let b = product(rest) as int;
    if p == 0 {
        assert(all_last(rest, tail, 0)) by {
            assert forall|j: int| 0 <= j < rest.len() implies #[trigger] tail[j] + 1 == rest[j] by {
                assert(index[j + 1] + 1 == lengths[j + 1]);
            }
        }
        last_choice(rest, tail);
        assert forall|j: int| 0 <= j < next_tail.len() implies #[trigger] next_tail[j] == 0 by {
            assert(next[j + 1] == 0);
        }
        first_choice(rest, next_tail);
        let a = index[0] as int;
        assert((a + 1) * b == a * b + b) by (nonlinear_arith);
    } else {
        assert(is_next(rest, tail, next_tail, p - 1)) by {
            assert forall|j: int| p - 1 < j < rest.len() implies #[trigger] tail[j] + 1
                == rest[j] by {
                assert(index[j + 1] + 1 == lengths[j + 1]);
            }
            assert forall|j: int| 0 <= j < p - 1 implies #[trigger] next_tail[j] == tail[j] by {
                assert(next[j + 1] == index[j + 1]);
            }
            assert forall|j: int| p - 1 < j < rest.len() implies #[trigger] next_tail[j] == 0 by {
                assert(next[j + 1] == 0);
            }
        }
        next_choice(rest, tail, next_tail, p - 1);
        assert(next[0] == index[0]);
    }
}

/// Goes on to the next choice; `false` where there is none.
pub fn advance(index: &mut Vec<usize>, axis_lengths: &Vec<usize>) -> (more: bool)
    requires
        inside(axis_lengths@, old(index)@),
    ensures
        inside(axis_lengths@, final(index)@),
        more == (number_of(axis_lengths@, old(index)@) + 1 < product(axis_lengths@)),
        more ==> number_of(axis_lengths@, final(index)@) == number_of(axis_lengths@, old(index)@)
            + 1,
{
    let ghost start = index@;
    let ghost lengths = axis_lengths@;
    let mut position: usize = axis_lengths.len();
    while position > 0
        invariant
            position <= lengths.len(),
            lengths == axis_lengths@,
            start == old(index)@,
            inside(lengths, start),
            index@.len() == lengths.len(),
            all_last(lengths, start, position as int),
            forall|j: int| 0 <= j < position ==> #[trigger] index@[j] == start[j],
            forall|j: int| position <= j < lengths.len() ==> #[trigger] index@[j] == 0,
        decreases position,
    {
        position -= 1;
        let value: usize = index[position];
        assert(start[position as int] < lengths[position as int]);
        if value + 1 < axis_lengths[position] {
            index.set(position, value + 1);
            proof {
                assert(is_next(lengths, start, index@, position as int));
                next_choice(lengths, start, index@, position as int);
                choices_are_numbered(lengths, index@);
            }
            return true;
        }
        index.set(position, 0);
        assert(all_last(lengths, start, position as int)) by {
            assert forall|j: int| position <= j < lengths.len() implies #[trigger] start[j] + 1
                == lengths[j] by {
                if j == position {
                }
            }
        }
    }
    proof {
        last_choice(lengths, start);
        assert forall|j: int| 0 <= j < lengths.len() implies #[trigger] index@[j] < lengths[j] by {
            assert(start[j] < lengths[j]);
        }
    }
    false
}

/// A copy of an index.
fn copy_index(index: &Vec<usize>) -> (copy: Vec<usize>)
    ensures
        copy@ == index@,
{
    crate::data::copy_sizes(index)
}

/// Whether one of the lists is empty.
fn has_empty(axis_lengths: &Vec<usize>) -> (empty: bool)
    ensures
        empty == (exists|j: int| 0 <= j < axis_lengths@.len() && #[trigger] axis_lengths@[j] == 0),
{
    let mut j: usize = 0;
    while j < axis_lengths.len()
        invariant
            j <= axis_lengths@.len(),
            forall|k: int| 0 <= k < j ==> #[trigger] axis_lengths@[k] > 0,
        decreases axis_lengths@.len() - j,
    {
        if axis_lengths[j] == 0 {
            return true;
        }
        j += 1;
    }
    false
}

/// All choices, in the order of their numbers; none where a list is empty.
pub fn for_each_combination(axis_lengths: &Vec<usize>) -> (choices: Vec<Vec<usize>>)
    ensures
        choices@.len() == product(axis_lengths@),
        forall|k: int|
            0 <= k < choices@.len() ==> (#[trigger] choices@[k])@ == choice_at(axis_lengths@, k)
                && inside(axis_lengths@, choices@[k]@),
{
    let ghost lengths = axis_lengths@;
    let mut choices: Vec<Vec<usize>> = Vec::new();
    if has_empty(axis_lengths) {
        proof {
            let j = choose|j: int| 0 <= j < lengths.len() && #[trigger] lengths[j] == 0;
            product_zero(lengths, j);
        }
        return choices;
    }
    let mut index: Vec<usize> = Vec::new();
    let mut j: usize = 0;
    while j < axis_lengths.len()
        invariant
            j <= axis_lengths@.len(),
            index@.len() == j,
            forall|k: int| 0 <= k < j ==> #[trigger] index@[k] == 0,
        decreases axis_lengths@.len() - j,
    {
        index.push(0);
        j += 1;
    }
    proof {
        product_positive(lengths);
        assert forall|k: int| 0 <= k < lengths.len() implies #[trigger] index@[k] < lengths[k] by {
            assert(lengths[k] > 0);
        }
        first_choice(lengths, index@);
        choices_are_numbered(lengths, index@);
    }
    choices.push(copy_index(&index));
    let mut more: bool = true;
    while more
        invariant
            lengths == axis_lengths@,
            inside(lengths, index@),
            0 < choices@.len() <= product(lengths),
            more ==> number_of(lengths, index@) == choices@.len() - 1,
            !more ==> choices@.len() == product(lengths),
            forall|k: int|
                0 <= k < choices@.len() ==> (#[trigger] choices@[k])@ == choice_at(lengths, k)
                    && inside(lengths, choices@[k]@),
        decreases product(lengths) - choices@.len() + (if more { 1int } else { 0 }),
    {
        more = advance(&mut index, axis_lengths);
        if more {
            proof {
                choices_are_numbered(lengths, index@);
            }
            choices.push(copy_index(&index));
        }
    }
    choices
}

/// The last list is run through first: the next entry of the last list gives the next choice, and the
/// next entry of the first list comes only after all choices of the others.
pub proof fn last_list_changes_fastest(lengths: Seq<usize>, index: Seq<usize>, j: int)
    requires
        inside(lengths, index),
        0 <= j < lengths.len(),
        index[j] + 1 < lengths[j],
    ensures
        number_of(lengths, index.update(j, (index[j] + 1) as usize)) == number_of(lengths, index)
            + product(lengths.skip(j + 1)),
        j == lengths.len() - 1 ==> product(lengths.skip(j + 1)) == 1,
    decreases lengths.len(),
{
    let tail = index.drop_first();
    let next = index.update(j, (index[j] + 1) as usize);
    if j == 0 {
        let rest = product(lengths.drop_first()) as int;
        assert(next.drop_first() =~= tail);
        assert(lengths.skip(1) =~= lengths.drop_first());
        assert((index[0] + 1) * rest == index[0] * rest + rest) by (nonlinear_arith);
    } else {
        assert(inside(lengths.drop_first(), tail)) by {
            assert forall|i: int| 0 <= i < tail.len() implies #[trigger] tail[i]
                < lengths.drop_first()[i] by {
                assert(index[i + 1] < lengths[i + 1]);
            }
        }
        last_list_changes_fastest(lengths.drop_first(), tail, j - 1);
        assert(next.drop_first() =~= tail.update(j - 1, (tail[j - 1] + 1) as usize));
        assert(lengths.drop_first().skip(j) =~= lengths.skip(j + 1));
    }
    if j == lengths.len() - 1 {
        assert(lengths.skip(j + 1) =~= Seq::empty());
    }
}

} // verus!
