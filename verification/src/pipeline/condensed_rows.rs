//! Rows that stand for groups of rows: the bits that the rows of a group share, and averages of the
//! others.
use vstd::arithmetic::power2::{lemma2_to64, lemma_pow2_strictly_increases, lemma_pow2_unfold};
use vstd::prelude::*;

use crate::base_bits::{distinct, distinct_are_entries, patterns, BaseBitGroups};
use crate::base_table_builder::{lists, rows_in_group};
use crate::bits::{high_digits_first, join, join_push, BitStream, MAX_STREAM_BITS};
use crate::dataset::{row_in_bounds, BitData, BitDataSet};
use crate::encoding::compressed::CondensedSamples;
use crate::encoding::huffman::{spelled, spelled_bound};

verus! {

/// Whether the rows of a group share a bit.
pub open spec fn is_shared(groups: BaseBitGroups, bit: int) -> bool {
    ||| groups.variable_bits@.contains(bit as usize)
    ||| groups.constant_bits@.contains(bit as usize)
}

/// The bits of a row that are shared, or those that are not; all others are cleared.
pub open spec fn bits_of_kind(row: Seq<bool>, groups: BaseBitGroups, shared: bool) -> Seq<bool> {
    Seq::new(row.len(), |i: int| row[i] && is_shared(groups, i) == shared)
}

/// The number of words of a row.
pub open spec fn word_count(chunk_size: nat) -> nat {
    (chunk_size + 63) / 64
}

/// The bits of a word: 64, or what is left for the last one.
pub open spec fn word_len(chunk_size: nat, w: int) -> nat {
    if 64 * w + 64 <= chunk_size {
        64
    } else {
        (chunk_size - 64 * w) as nat
    }
}

/// A word of a row as a number, the first bit the most significant.
pub open spec fn word_of(row: Seq<bool>, w: int) -> nat {
    spelled(row, 64 * w, word_len(row.len(), w))
}

/// The sum of a word over those of the first `n` rows that are in a group, with the shared bits
/// cleared.
pub open spec fn group_sum(data: BitData, groups: BaseBitGroups, g: int, w: int, n: int) -> nat
    decreases n,
{
    if n <= 0 {
        0
    } else {
        group_sum(data, groups, g, w, n - 1) + (if groups.row_to_id@[n - 1] == g {
            word_of(bits_of_kind(data.row(n - 1), groups, false), w)
        } else {
            0
        })
    }
}

/// The first row of a group from a row on, or the number of rows.
pub open spec fn first_member(ids: Seq<usize>, g: int, from: int) -> int
    decreases ids.len() - from,
{
    if from >= ids.len() {
        ids.len() as int
    } else if ids[from] == g {
        from
    } else {
        first_member(ids, g, from + 1)
    }
}

/// The bits that the rows of a group share, as its first row has them.
pub open spec fn shared_row(data: BitData, groups: BaseBitGroups, g: int) -> Seq<bool> {
    bits_of_kind(data.row(first_member(groups.row_to_id@, g, 0)), groups, true)
}

/// The words of a row with numbers added to them.
pub open spec fn raised_words(row: Seq<bool>, averages: Seq<u64>) -> Seq<Seq<bool>> {
    Seq::new(
        word_count(row.len()),
        |w: int| high_digits_first(word_of(row, w) + averages[w] as nat, word_len(row.len(), w)),
    )
}

/// Whether averages are there for each word of each group, and can be added to the shared bits.
pub open spec fn averages_fit(
    data: BitData,
    groups: BaseBitGroups,
    averages: Seq<Vec<u64>>,
) -> bool {
    &&& averages.len() == groups.num_bases
    &&& forall|g: int|
        0 <= g < averages.len() ==> (#[trigger] averages[g])@.len() == word_count(
            data.chunk_size as nat,
        )
    &&& forall|g: int, w: int|
        #![trigger averages[g]@[w]]
        0 <= g < averages.len() && 0 <= w < averages[g]@.len() ==> word_of(
            shared_row(data, groups, g),
            w,
        ) + averages[g]@[w] <= u64::MAX
}

/// A word is a machine word.
proof fn word_is_small(row: Seq<bool>, w: int)
    requires
        0 <= w < word_count(row.len()),
    ensures
        1 <= word_len(row.len(), w) <= 64,
        64 * w + word_len(row.len(), w) <= row.len(),
        word_of(row, w) <= u64::MAX,
{
    lemma2_to64();
    spelled_bound(row, 64 * w, word_len(row.len(), w));
    if word_len(row.len(), w) < 64 {
        lemma_pow2_strictly_increases(word_len(row.len(), w), 64);
    }
}

/// A sum over rows has at most that many machine words.
proof fn group_sum_bound(data: BitData, groups: BaseBitGroups, g: int, w: int, n: int)
    requires
        data.valid(),
        0 <= n <= data.num_rows,
        0 <= w < word_count(data.chunk_size as nat),
    ensures
        group_sum(data, groups, g, w, n) <= n * u64::MAX,
    decreases n,
{
    if n > 0 {
        group_sum_bound(data, groups, g, w, n - 1);
        row_in_bounds(
            n - 1,
            data.num_rows as int,
            data.stride as int,
            data.chunk_size as int,
        );
        word_is_small(bits_of_kind(data.row(n - 1), groups, false), w);
        assert(n * u64::MAX == (n - 1) * u64::MAX + u64::MAX) by (nonlinear_arith);
    } else {
        assert(n * u64::MAX == 0) by (nonlinear_arith)
            requires
                n == 0,
        ;
    }
}

/// Whether each bit of a row is shared.
fn shared_mask(groups: &BaseBitGroups, chunk_size: usize) -> (mask: Vec<bool>)
    ensures
        mask@.len() == chunk_size,
        forall|i: int| 0 <= i < chunk_size ==> #[trigger] mask@[i] == is_shared(*groups, i),
{
    let mut mask: Vec<bool> = Vec::new();
    let mut i: usize = 0;
    while i < chunk_size
        invariant
            i <= chunk_size,
            mask@.len() == i,
            forall|k: int| 0 <= k < i ==> #[trigger] mask@[k] == is_shared(*groups, k),
        decreases chunk_size - i,
    {
        mask.push(lists(&groups.variable_bits, i) || lists(&groups.constant_bits, i));
        i += 1;
    }
    mask
}

/// A word of the shared bits of a row, or of the others.
fn read_word(
    bit_data: &BitDataSet,
    row: usize,
    mask: &Vec<bool>,
    shared: bool,
    w: usize,
    groups: &BaseBitGroups,
) -> (value: u64)
    requires
        bit_data.data.valid(),
        row < bit_data.data.num_rows,
        w < word_count(bit_data.data.chunk_size as nat),
        mask@.len() == bit_data.data.chunk_size,
        forall|i: int| 0 <= i < mask@.len() ==> #[trigger] mask@[i] == is_shared(*groups, i),
    ensures
        value == word_of(bits_of_kind(bit_data.data.row(row as int), *groups, shared), w as int),
{
    let ghost bits = bits_of_kind(bit_data.data.row(row as int), *groups, shared);
    let chunk_size: usize = mask.len();
    proof {
        row_in_bounds(
            row as int,
            bit_data.data.num_rows as int,
            bit_data.data.stride as int,
            chunk_size as int,
        );
        assert(bits.len() == chunk_size);
        word_is_small(bits, w as int);
        lemma2_to64();
    }
    let start: usize = 64 * w;
    let len: usize = if chunk_size - start >= 64 {
        64
    } else {
        chunk_size - start
    };
    let mut value: u64 = 0;
    let mut k: usize = 0;
    while k < len
        invariant
            k <= len <= 64,
            start + len <= chunk_size == mask@.len() == bit_data.data.chunk_size,
            bit_data.data.valid(),
            row < bit_data.data.num_rows,
            bits == bits_of_kind(bit_data.data.row(row as int), *groups, shared),
            bits.len() == chunk_size,
            forall|i: int| 0 <= i < mask@.len() ==> #[trigger] mask@[i] == is_shared(*groups, i),
            value == spelled(bits, start as int, k as nat),
        decreases len - k,
    {
        let bit: bool = bit_data.data.get_bit(row, start + k) && mask[start + k] == shared;
        proof {
            assert(bit == bits[start + k]);
            spelled_bound(bits, start as int, k as nat);
            lemma2_to64();
            lemma_pow2_unfold(64);
            if k < 63 {
                lemma_pow2_strictly_increases(k as nat, 63);
            }
        }
        value = 2 * value + (if bit {
            1
        } else {
            0
        });
        k += 1;
    }
    value
}

/// For each group and each word of a row the sum over the rows of the group, with the shared bits
/// cleared.
pub fn group_sums(bit_data: &BitDataSet, groups: &BaseBitGroups) -> (sums: Vec<Vec<u128>>)
    requires
        bit_data.data.valid(),
        groups.groups(bit_data.data),
        bit_data.data.chunk_size <= MAX_STREAM_BITS,
    ensures
        sums@.len() == groups.num_bases,
        forall|g: int|
            0 <= g < sums@.len() ==> (#[trigger] sums@[g])@.len() == word_count(
                bit_data.data.chunk_size as nat,
            ),
        forall|g: int, w: int|
            #![trigger sums@[g]@[w]]
            0 <= g < sums@.len() && 0 <= w < sums@[g]@.len() ==> sums@[g]@[w] == group_sum(
                bit_data.data,
                *groups,
                g,
                w,
                bit_data.data.num_rows as int,
            ),
{
    let ghost data = bit_data.data;
    let mask = shared_mask(groups, bit_data.data.chunk_size);
    let words: usize = (bit_data.data.chunk_size + 63) / 64;
    let rows: usize = bit_data.data.num_rows;
    let mut sums = no_sums(groups.num_bases, words);
    let mut row: usize = 0;
    while row < rows
        invariant
            row <= rows == data.num_rows,
            data == bit_data.data,
            data.valid(),
            groups.groups(data),
            words == word_count(data.chunk_size as nat),
            mask@.len() == data.chunk_size,
            forall|i: int| 0 <= i < mask@.len() ==> #[trigger] mask@[i] == is_shared(*groups, i),
            sums@.len() == groups.num_bases,
            forall|g: int| 0 <= g < sums@.len() ==> (#[trigger] sums@[g])@.len() == words,
            forall|g: int, w: int|
                #![trigger sums@[g]@[w]]
                0 <= g < sums@.len() && 0 <= w < words ==> sums@[g]@[w] == group_sum(
                    data,
                    *groups,
                    g,
                    w,
                    row as int,
                ),
        decreases rows - row,
    {
        let id: usize = groups.row_to_id[row];
        add_row(bit_data, groups, &mask, row, &mut sums[id]);
        row += 1;
    }
    sums
}

/// Sums of no rows.
fn no_sums(num_bases: usize, words: usize) -> (sums: Vec<Vec<u128>>)
    ensures
        sums@.len() == num_bases,
        forall|g: int| 0 <= g < num_bases ==> (#[trigger] sums@[g])@.len() == words,
        forall|g: int, w: int|
            #![trigger sums@[g]@[w]]
            0 <= g < num_bases && 0 <= w < words ==> sums@[g]@[w] == 0,
{
    let mut sums: Vec<Vec<u128>> = Vec::new();
    let mut g: usize = 0;
    while g < num_bases
        invariant
            g <= num_bases,
            sums@.len() == g,
            forall|k: int| 0 <= k < g ==> (#[trigger] sums@[k])@.len() == words,
            forall|k: int, w: int|
                #![trigger sums@[k]@[w]]
                0 <= k < g && 0 <= w < words ==> sums@[k]@[w] == 0,
        decreases num_bases - g,
    {
        let mut row: Vec<u128> = Vec::new();
        let mut w: usize = 0;
        while w < words
            invariant
                w <= words,
                row@.len() == w,
                forall|v: int| 0 <= v < w ==> #[trigger] row@[v] == 0,
            decreases words - w,
        {
            row.push(0);
            w += 1;
        }
        sums.push(row);
        g += 1;
    }
    sums
}

/// Adds the words of a row, with the shared bits cleared, to the sums over the rows of its group
/// that come before it.
fn add_row(
    bit_data: &BitDataSet,
    groups: &BaseBitGroups,
    mask: &Vec<bool>,
    row: usize,
    sums: &mut Vec<u128>,
)
    requires
        bit_data.data.valid(),
        groups.groups(bit_data.data),
        row < bit_data.data.num_rows,
        mask@.len() == bit_data.data.chunk_size,
        forall|i: int| 0 <= i < mask@.len() ==> #[trigger] mask@[i] == is_shared(*groups, i),
        old(sums)@.len() == word_count(bit_data.data.chunk_size as nat),
        forall|w: int|
            0 <= w < old(sums)@.len() ==> #[trigger] old(sums)@[w] == group_sum(
                bit_data.data,
                *groups,
                groups.row_to_id@[row as int] as int,
                w,
                row as int,
            ),
    ensures
        final(sums)@.len() == old(sums)@.len(),
        forall|w: int|
            0 <= w < final(sums)@.len() ==> #[trigger] final(sums)@[w] == group_sum(
                bit_data.data,
                *groups,
                groups.row_to_id@[row as int] as int,
                w,
                row + 1,
            ),
{
    let ghost data = bit_data.data;
    let ghost id = groups.row_to_id@[row as int] as int;
    let words: usize = sums.len();
    let mut w: usize = 0;
    while w < words
        invariant
            w <= words == sums@.len() == word_count(data.chunk_size as nat),
            data == bit_data.data,
            data.valid(),
            groups.groups(data),
            row < data.num_rows,
            id == groups.row_to_id@[row as int],
            mask@.len() == data.chunk_size,
            forall|i: int| 0 <= i < mask@.len() ==> #[trigger] mask@[i] == is_shared(*groups, i),
            forall|v: int|
                0 <= v < words ==> #[trigger] sums@[v] == group_sum(
                    data,
                    *groups,
                    id,
                    v,
                    if v < w {
                        row + 1
                    } else {
                        row as int
                    },
                ),
        decreases words - w,
    {
        proof {
            group_sum_bound(data, *groups, id, w as int, row + 1);
            let n = row + 1;
            assert(n * u64::MAX <= u128::MAX) by (nonlinear_arith)
                requires
                    0 <= n <= u64::MAX,
            ;
        }
        let sum: u128 = sums[w] + read_word(bit_data, row, mask, false, w, groups) as u128;
        sums.set(w, sum);
        w += 1;
    }
}

/// Whether averages can be added to the shared bits.
pub fn check_averages(
    bit_data: &BitDataSet,
    groups: &BaseBitGroups,
    averages: &Vec<Vec<u64>>,
) -> (fit: bool)
    requires
        bit_data.data.valid(),
        groups.groups(bit_data.data),
        bit_data.data.chunk_size <= MAX_STREAM_BITS,
    ensures
        fit == averages_fit(bit_data.data, *groups, averages@),
{
    let ghost data = bit_data.data;
    if averages.len() != groups.num_bases {
        return false;
    }
    let mask = shared_mask(groups, bit_data.data.chunk_size);
    let words: usize = (bit_data.data.chunk_size + 63) / 64;
    let (firsts, _) = find_members(groups);
    let mut g: usize = 0;
    while g < averages.len()
        invariant
            g <= averages@.len() == groups.num_bases,
            data == bit_data.data,
            data.valid(),
            groups.groups(data),
            words == word_count(data.chunk_size as nat),
            mask@.len() == data.chunk_size,
            forall|i: int| 0 <= i < mask@.len() ==> #[trigger] mask@[i] == is_shared(*groups, i),
            firsts@.len() == groups.num_bases,
            forall|k: int|
                0 <= k < groups.num_bases ==> #[trigger] firsts@[k] == first_member(
                    groups.row_to_id@,
                    k,
                    0,
                ),
            forall|k: int| 0 <= k < g ==> (#[trigger] averages@[k])@.len() == words,
            forall|k: int, w: int|
                #![trigger averages@[k]@[w]]
                0 <= k < g && 0 <= w < words ==> word_of(shared_row(data, *groups, k), w)
                    + averages@[k]@[w] <= u64::MAX,
        decreases averages@.len() - g,
    {
        proof {
            group_has_member(data, *groups, g as int);
        }
        if averages[g].len() != words {
            return false;
        }
        let first: usize = firsts[g];
        let mut w: usize = 0;
        while w < words
            invariant
                w <= words == averages@[g as int]@.len(),
                g < averages@.len() == groups.num_bases,
                data == bit_data.data,
                data.valid(),
                words == word_count(data.chunk_size as nat),
                first == first_member(groups.row_to_id@, g as int, 0),
                first < data.num_rows,
                mask@.len() == data.chunk_size,
                forall|i: int|
                    0 <= i < mask@.len() ==> #[trigger] mask@[i] == is_shared(*groups, i),
                forall|v: int|
                    0 <= v < w ==> word_of(shared_row(data, *groups, g as int), v)
                        + #[trigger] averages@[g as int]@[v] <= u64::MAX,
            decreases words - w,
        {
            let word: u64 = read_word(bit_data, first, &mask, true, w, groups);
            if averages[g][w] > u64::MAX - word {
                assert(word_of(shared_row(data, *groups, g as int), w as int)
                    + averages@[g as int]@[w as int] > u64::MAX);
                return false;
            }
            w += 1;
        }
        g += 1;
    }
    true
}

/// The condensed rows of groups: the shared bits of each group with the averages added, and the
/// number of rows that each stands for.
pub fn condensed_rows(
    bit_data: &BitDataSet,
    groups: &BaseBitGroups,
    averages: &Vec<Vec<u64>>,
) -> (condensed: CondensedSamples)
    requires
        bit_data.data.valid(),
        groups.groups(bit_data.data),
        bit_data.data.chunk_size <= MAX_STREAM_BITS,
        averages_fit(bit_data.data, *groups, averages@),
    ensures
        condensed.samples@.len() == groups.num_bases,
        condensed.weights@.len() == groups.num_bases,
        forall|g: int|
            0 <= g < groups.num_bases ==> #[trigger] condensed.weights@[g] == rows_in_group(
                groups.row_to_id@,
                g,
                bit_data.data.num_rows as int,
            ),
        forall|g: int|
            0 <= g < groups.num_bases ==> (#[trigger] condensed.samples@[g])@ == join(
                raised_words(shared_row(bit_data.data, *groups, g), averages@[g]@),
            ),
{
    let ghost data = bit_data.data;
    let mask = shared_mask(groups, bit_data.data.chunk_size);
    let (firsts, weights) = find_members(groups);
    let mut samples: Vec<BitStream> = Vec::new();
    let mut g: usize = 0;
    while g < groups.num_bases
        invariant
            g <= groups.num_bases,
            data == bit_data.data,
            data.valid(),
            groups.groups(data),
            data.chunk_size <= MAX_STREAM_BITS,
            averages_fit(data, *groups, averages@),
            mask@.len() == data.chunk_size,
            forall|i: int| 0 <= i < mask@.len() ==> #[trigger] mask@[i] == is_shared(*groups, i),
            firsts@.len() == groups.num_bases,
            forall|k: int|
                0 <= k < groups.num_bases ==> #[trigger] firsts@[k] == first_member(
                    groups.row_to_id@,
                    k,
                    0,
                ),
            samples@.len() == g,
            forall|k: int|
                0 <= k < g ==> (#[trigger] samples@[k])@ == join(
                    raised_words(shared_row(data, *groups, k), averages@[k]@),
                ),
        decreases groups.num_bases - g,
    {
        proof {
            group_has_member(data, *groups, g as int);
        }
        samples.push(raised_row(bit_data, groups, &mask, firsts[g], &averages[g], g));
        g += 1;
    }
    CondensedSamples { samples, weights }
}

/// Every group has a row.
pub proof fn group_has_member(data: BitData, groups: BaseBitGroups, g: int)
    requires
        groups.groups(data),
        0 <= g < groups.num_bases,
    ensures
        0 <= first_member(groups.row_to_id@, g, 0) < data.num_rows,
{
    let all = patterns(data, groups.variable_bits@);
    let ids = groups.row_to_id@;
    distinct_are_entries(all);
    let row = choose|row: int| 0 <= row < all.len() && all[row] == distinct(all)[g];
    assert(distinct(all)[ids[row] as int] == all[row]);
    assert(ids[row] == g);
    first_member_found(ids, g, 0, row);
}

/// The first row of a group is one of its rows, where it has any.
pub proof fn first_member_is_one(ids: Seq<usize>, g: int, from: int)
    requires
        0 <= from,
        first_member(ids, g, from) < ids.len(),
    ensures
        from <= first_member(ids, g, from),
        ids[first_member(ids, g, from)] == g,
    decreases ids.len() - from,
{
    if from < ids.len() && ids[from] != g {
        first_member_is_one(ids, g, from + 1);
    }
}

/// The first row of a group is not behind another of its rows.
proof fn first_member_found(ids: Seq<usize>, g: int, from: int, row: int)
    requires
        0 <= from <= row < ids.len(),
        ids[row] == g,
    ensures
        from <= first_member(ids, g, from) <= row,
    decreases row - from,
{
    if ids[from] != g {
        first_member_found(ids, g, from + 1, row);
    }
}

/// The first row of each group, and how many rows it has.
fn find_members(groups: &BaseBitGroups) -> (found: (Vec<usize>, Vec<usize>))
    requires
        forall|row: int|
            0 <= row < groups.row_to_id@.len() ==> #[trigger] groups.row_to_id@[row]
                < groups.num_bases,
    ensures
        found.0@.len() == groups.num_bases,
        found.1@.len() == groups.num_bases,
        forall|g: int|
            0 <= g < groups.num_bases ==> #[trigger] found.0@[g] == first_member(
                groups.row_to_id@,
                g,
                0,
            ),
        forall|g: int|
            0 <= g < groups.num_bases ==> #[trigger] found.1@[g] == rows_in_group(
                groups.row_to_id@,
                g,
                groups.row_to_id@.len() as int,
            ),
{
    let ghost ids = groups.row_to_id@;
    let total: usize = groups.row_to_id.len();
    let mut firsts: Vec<usize> = Vec::new();
    let mut counts: Vec<usize> = Vec::new();
    let mut g: usize = 0;
    while g < groups.num_bases
        invariant
            g <= groups.num_bases,
            firsts@.len() == g,
            counts@.len() == g,
            forall|k: int| 0 <= k < g ==> #[trigger] firsts@[k] == total,
            forall|k: int| 0 <= k < g ==> #[trigger] counts@[k] == 0,
        decreases groups.num_bases - g,
    {
        firsts.push(total);
        counts.push(0);
        g += 1;
    }
    let mut row: usize = 0;
    while row < total
        invariant
            row <= total == ids.len(),
            ids == groups.row_to_id@,
            forall|k: int| 0 <= k < ids.len() ==> #[trigger] ids[k] < groups.num_bases,
            firsts@.len() == groups.num_bases,
            counts@.len() == groups.num_bases,
            forall|k: int|
                0 <= k < groups.num_bases ==> #[trigger] counts@[k] == rows_in_group(
                    ids,
                    k,
                    row as int,
                ) && counts@[k] <= row,
            forall|k: int|
                0 <= k < groups.num_bases ==> #[trigger] firsts@[k] <= total && first_member(
                    ids,
                    k,
                    0,
                ) == (if firsts@[k] == total {
                    first_member(ids, k, row as int)
                } else {
                    firsts@[k] as int
                }),
        decreases total - row,
    {
        let id: usize = groups.row_to_id[row];
        if firsts[id] == total {
            firsts.set(id, row);
        }
        let count: usize = counts[id] + 1;
        counts.set(id, count);
        row += 1;
    }
    (firsts, counts)
}

/// The shared bits of a row with averages added to its words.
fn raised_row(
    bit_data: &BitDataSet,
    groups: &BaseBitGroups,
    mask: &Vec<bool>,
    first: usize,
    averages: &Vec<u64>,
    g: usize,
) -> (row: BitStream)
    requires
        bit_data.data.valid(),
        bit_data.data.chunk_size <= MAX_STREAM_BITS,
        first < bit_data.data.num_rows,
        first == first_member(groups.row_to_id@, g as int, 0),
        mask@.len() == bit_data.data.chunk_size,
        forall|i: int| 0 <= i < mask@.len() ==> #[trigger] mask@[i] == is_shared(*groups, i),
        averages@.len() == word_count(bit_data.data.chunk_size as nat),
        forall|w: int|
            0 <= w < averages@.len() ==> word_of(shared_row(bit_data.data, *groups, g as int), w)
                + #[trigger] averages@[w] <= u64::MAX,
    ensures
        row@ == join(raised_words(shared_row(bit_data.data, *groups, g as int), averages@)),
{
    let ghost base = shared_row(bit_data.data, *groups, g as int);
    let ghost parts = raised_words(base, averages@);
    let chunk_size: usize = mask.len();
    proof {
        row_in_bounds(
            first as int,
            bit_data.data.num_rows as int,
            bit_data.data.stride as int,
            chunk_size as int,
        );
        assert(base.len() == chunk_size);
        assert(parts.take(0) =~= Seq::empty());
    }
    let mut row = BitStream::empty();
    let mut w: usize = 0;
    while w < averages.len()
        invariant
            w <= averages@.len() == word_count(chunk_size as nat),
            bit_data.data.valid(),
            first < bit_data.data.num_rows,
            first == first_member(groups.row_to_id@, g as int, 0),
            base == shared_row(bit_data.data, *groups, g as int),
            base.len() == chunk_size == mask@.len() == bit_data.data.chunk_size,
            chunk_size <= MAX_STREAM_BITS,
            forall|i: int| 0 <= i < mask@.len() ==> #[trigger] mask@[i] == is_shared(*groups, i),
            parts == raised_words(base, averages@),
            forall|v: int|
                0 <= v < averages@.len() ==> word_of(base, v) + #[trigger] averages@[v] <= u64::MAX,
            row@ == join(parts.take(w as int)),
            row@.len() == (if 64 * w <= chunk_size {
                64 * w
            } else {
                chunk_size as int
            }),
        decreases averages@.len() - w,
    {
        let start: usize = 64 * w;
        let len: usize = if chunk_size - start >= 64 {
            64
        } else {
            chunk_size - start
        };
        let word: u64 = read_word(bit_data, first, mask, true, w, groups);
        assert(word + averages@[w as int] <= u64::MAX);
        row.append_high_first(word + averages[w], len);
        proof {
            assert(parts.take(w as int + 1) =~= parts.take(w as int).push(parts[w as int]));
            join_push(parts.take(w as int), parts[w as int]);
        }
        w += 1;
    }
    assert(parts.take(w as int) =~= parts);
    row
}

} // verus!
