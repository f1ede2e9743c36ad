//! What the sums of groups of rows tell of the rows.
use vstd::arithmetic::power2::pow2;
use vstd::prelude::*;

use crate::base_bits::BaseBitGroups;
use crate::base_table_builder::rows_in_group;
use crate::bits::{high_digits_first, join, join_push};
use crate::dataset::BitData;
use crate::encoding::huffman::{all_digits_spell, spelled_in_place};
use crate::numbers::sum_of;
use crate::pipeline::condensed_laws::{digits_of_spelled, spelled_sum};
use crate::pipeline::condensed_rows::{
    bits_of_kind, group_sum, is_shared, raised_words, word_count, word_len, word_of,
};

verus! {

/// A word of a row without the shared bits.
pub open spec fn own_word(data: BitData, groups: BaseBitGroups, row: int, w: int) -> nat {
    word_of(bits_of_kind(data.row(row), groups, false), w)
}

/// The sum of a group lies between as many times the least and as many times the greatest of the words
/// of its rows as it has rows, so the average lies between the least and the greatest.
pub proof fn group_sum_lies_between(
    data: BitData,
    groups: BaseBitGroups,
    g: int,
    w: int,
    least: nat,
    greatest: nat,
    n: int,
)
    requires
        0 <= n <= groups.row_to_id@.len(),
        0 <= g <= usize::MAX,
        forall|row: int|
            0 <= row < n && groups.row_to_id@[row] == g ==> least <= #[trigger] own_word(
                data,
                groups,
                row,
                w,
            ) <= greatest,
    ensures
        ({
            let rows = groups.row_to_id@.take(n).filter(|id: usize| id == g).len();
            let sum = group_sum(data, groups, g, w, n);
            &&& rows * least <= sum <= rows * greatest
            &&& rows > 0 ==> least <= sum / rows <= greatest
        }),
    decreases n,
{
    let rows = groups.row_to_id@.take(n).filter(|id: usize| id == g).len();
    let sum = group_sum(data, groups, g, w, n);
    weight_counts_rows(groups.row_to_id@, g, n);
    if n > 0 {
        group_sum_lies_between(data, groups, g, w, least, greatest, n - 1);
        weight_counts_rows(groups.row_to_id@, g, n - 1);
        if groups.row_to_id@[n - 1] == g {
            let own = own_word(data, groups, n - 1, w);
            assert(least <= own <= greatest);
            assert(rows * least == (rows - 1) * least + least) by (nonlinear_arith);
            assert(rows * greatest == (rows - 1) * greatest + greatest) by (nonlinear_arith);
        }
    } else {
        assert(rows == 0);
        assert(rows * least == 0 && rows * greatest == 0) by (nonlinear_arith)
            requires
                rows == 0,
        ;
    }
    if rows > 0 {
        assert(least <= sum / rows <= greatest) by (nonlinear_arith)
            requires
                rows > 0,
                rows * least <= sum <= rows * greatest,
        ;
    }
}

/// The weight of a group is the number of rows that have its number.
pub proof fn weight_counts_rows(ids: Seq<usize>, g: int, n: int)
    requires
        0 <= n <= ids.len(),
    ensures
        rows_in_group(ids, g, n) == ids.take(n).filter(|id: usize| id == g).len(),
    decreases n,
{
    reveal(Seq::filter);
    if n > 0 {
        weight_counts_rows(ids, g, n - 1);
        assert(ids.take(n).drop_last() =~= ids.take(n - 1));
    }
}

/// The sums of all groups add up to the sum over all rows: no row is left out or counted twice.
pub proof fn group_sums_add_up(data: BitData, groups: BaseBitGroups, w: int, n: int)
    requires
        0 <= n <= groups.row_to_id@.len(),
        forall|row: int| 0 <= row < n ==> #[trigger] groups.row_to_id@[row] < groups.num_bases,
    ensures
        sum_of(
            Seq::new(groups.num_bases as nat, |g: int| group_sum(data, groups, g, w, n)),
        ) == sum_of(Seq::new(n as nat, |row: int| own_word(data, groups, row, w))),
    decreases n,
{
    let count = groups.num_bases as nat;
    let sums = Seq::new(count, |g: int| group_sum(data, groups, g, w, n));
    let words = Seq::new(n as nat, |row: int| own_word(data, groups, row, w));
    if n > 0 {
        group_sums_add_up(data, groups, w, n - 1);
        let before = Seq::new(count, |g: int| group_sum(data, groups, g, w, n - 1));
        let own = own_word(data, groups, n - 1, w);
        let at = groups.row_to_id@[n - 1] as int;
        assert(sums =~= before.update(at, before[at] + own));
        sum_of_update(before, at, own);
        assert(words.drop_last() =~= Seq::new(
            (n - 1) as nat,
            |row: int| own_word(data, groups, row, w),
        ));
    } else {
        assert forall|g: int| 0 <= g < sums.len() implies #[trigger] sums[g] == 0 by {}
        sum_of_zeros(sums);
    }
}

/// Making one number greater makes the sum as much greater.
proof fn sum_of_update(values: Seq<nat>, at: int, more: nat)
    requires
        0 <= at < values.len(),
    ensures
        sum_of(values.update(at, values[at] + more)) == sum_of(values) + more,
    decreases values.len(),
{
    let changed = values.update(at, values[at] + more);
    if at == values.len() - 1 {
        assert(changed.drop_last() =~= values.drop_last());
    } else {
        sum_of_update(values.drop_last(), at, more);
        assert(changed.drop_last() =~= values.drop_last().update(
            at,
            values.drop_last()[at] + more,
        ));
    }
}

/// Zeros add up to zero.
proof fn sum_of_zeros(values: Seq<nat>)
    requires
        forall|i: int| 0 <= i < values.len() ==> #[trigger] values[i] == 0,
    ensures
        sum_of(values) == 0,
    decreases values.len(),
{
    if values.len() > 0 {
        assert(values.last() == values[values.len() - 1]);
        sum_of_zeros(values.drop_last());
    }
}

/// The shared bits and the others of a word add up to the word.
pub proof fn shared_and_own_words_add_up(row: Seq<bool>, groups: BaseBitGroups, w: int)
    requires
        0 <= w < word_count(row.len()),
    ensures
        word_of(bits_of_kind(row, groups, true), w) + word_of(bits_of_kind(row, groups, false), w)
            == word_of(row, w),
{
    let a = bits_of_kind(row, groups, true);
    let b = bits_of_kind(row, groups, false);
    spelled_sum(a, b, row, 64 * w, word_len(row.len(), w));
}

/// The word without shared bits takes nothing from shared bits, and a bit that is not shared has its own
/// weight in it.
pub proof fn own_words_ignore_shared_bits(
    first: Seq<bool>,
    second: Seq<bool>,
    groups: BaseBitGroups,
    w: int,
)
    requires
        first.len() == second.len(),
        forall|i: int|
            0 <= i < first.len() && !is_shared(groups, i) ==> #[trigger] first[i] == second[i],
    ensures
        word_of(bits_of_kind(first, groups, false), w) == word_of(
            bits_of_kind(second, groups, false),
            w,
        ),
{
    assert(bits_of_kind(first, groups, false) =~= bits_of_kind(second, groups, false));
}

/// The words of a row, written out, are the row: none is missing, and no bit is lost.
pub proof fn words_spell_row(row: Seq<bool>)
    ensures
        join(
            Seq::new(
                word_count(row.len()),
                |w: int| high_digits_first(word_of(row, w), word_len(row.len(), w)),
            ),
        ) == row,
{
    let parts = Seq::new(
        word_count(row.len()),
        |w: int| high_digits_first(word_of(row, w), word_len(row.len(), w)),
    );
    first_words_spell(row, parts, parts.len() as int);
    assert(parts.take(parts.len() as int) =~= parts);
    assert(row.take(row.len() as int) =~= row);
}

/// The first words of a row are its beginning.
proof fn first_words_spell(row: Seq<bool>, parts: Seq<Seq<bool>>, n: int)
    requires
        parts == Seq::new(
            word_count(row.len()),
            |w: int| high_digits_first(word_of(row, w), word_len(row.len(), w)),
        ),
        0 <= n <= parts.len(),
    ensures
        join(parts.take(n)) == row.take(
            if 64 * n <= row.len() {
                64 * n
            } else {
                row.len() as int
            },
        ),
    decreases n,
{
    if n > 0 {
        let w = n - 1;
        let len = word_len(row.len(), w);
        first_words_spell(row, parts, w);
        assert(parts.take(n) =~= parts.take(w).push(parts[w]));
        join_push(parts.take(w), parts[w]);
        digits_of_spelled(row, 64 * w, len);
        assert(row.take(64 * w) + row.subrange(64 * w, 64 * w + len) =~= row.take(64 * w + len));
    } else {
        assert(parts.take(0) =~= Seq::empty());
        assert(row.take(0) =~= Seq::empty());
    }
}

/// Words of a row stand where they belong in the row that they make up.
proof fn words_stand_in_row(parts: Seq<Seq<bool>>, len: nat, n: int)
    requires
        parts.len() == word_count(len),
        0 <= n <= parts.len(),
        forall|w: int| 0 <= w < parts.len() ==> (#[trigger] parts[w]).len() == word_len(len, w),
    ensures
        join(parts.take(n)).len() == (if 64 * n <= len {
            64 * n
        } else {
            len as int
        }),
        forall|w: int|
            0 <= w < n ==> join(parts.take(n)).subrange(64 * w, 64 * w + word_len(len, w))
                == #[trigger] parts[w],
    decreases n,
{
    if n > 0 {
        words_stand_in_row(parts, len, n - 1);
        let before = join(parts.take(n - 1));
        let all = join(parts.take(n));
        assert(parts.take(n) =~= parts.take(n - 1).push(parts[n - 1]));
        join_push(parts.take(n - 1), parts[n - 1]);
        assert forall|w: int| 0 <= w < n implies all.subrange(64 * w, 64 * w + word_len(len, w))
            == #[trigger] parts[w] by {
            assert(parts[n - 1].len() == word_len(len, n - 1));
            if w < n - 1 {
                assert(before.subrange(64 * w, 64 * w + word_len(len, w)) == parts[w]);
                assert(all.subrange(64 * w, 64 * w + word_len(len, w)) =~= before.subrange(
                    64 * w,
                    64 * w + word_len(len, w),
                ));
            } else {
                assert(all.subrange(64 * w, 64 * w + word_len(len, w)) =~= parts[w]);
            }
        }
    } else {
        assert(parts.take(0) =~= Seq::empty());
    }
}

/// Each word of a condensed row is the word of the shared bits and the average added up, with carries,
/// where the sum fits the word. The row is as long as the others.
pub proof fn condensed_words_are_sums(row: Seq<bool>, averages: Seq<u64>, w: int)
    requires
        0 <= w < word_count(row.len()),
        word_of(row, w) + averages[w] < pow2(word_len(row.len(), w)),
    ensures
        join(raised_words(row, averages)).len() == row.len(),
        word_of(join(raised_words(row, averages)), w) == word_of(row, w) + averages[w],
{
    let parts = raised_words(row, averages);
    let n = parts.len() as int;
    let len = word_len(row.len(), w);
    let sum = word_of(row, w) + averages[w] as nat;
    words_stand_in_row(parts, row.len(), n);
    assert(parts.take(n) =~= parts);
    let all = join(parts);
    assert(all.subrange(64 * w, 64 * w + len) == parts[w]);
    spelled_in_place(all, 64 * w, parts[w], len);
    all_digits_spell(sum, len);
}

} // verus!
