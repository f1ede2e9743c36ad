//! How much the bits of rows vary.
use vstd::prelude::*;

use crate::dataset::{BitData, BitDataSet};
use crate::error::EntroGdError;
use crate::filter_pipeline::Filter;

verus! {

/// A bit position and its entropy: the bits of a non-negative floating-point number, which are
/// ordered as the numbers are, and zero where the number is zero.
pub type EntropyBitScore = (usize, u64);

/// The positions of the bits that are the same in all rows, those that are clear and those that
/// are set.
#[derive(Debug, PartialEq, Eq)]
pub struct ConstantBitPolarity {
    pub constant_zero_bit_positions: Vec<usize>,
    pub constant_one_bit_positions: Vec<usize>,
}

impl Default for ConstantBitPolarity {
    fn default() -> (polarity: ConstantBitPolarity)
        ensures
            polarity.constant_zero_bit_positions@ == Seq::<usize>::empty(),
            polarity.constant_one_bit_positions@ == Seq::<usize>::empty(),
    {
        ConstantBitPolarity {
            constant_zero_bit_positions: Vec::new(),
            constant_one_bit_positions: Vec::new(),
        }
    }
}

/// Rows with the entropy of their bits.
#[derive(Debug)]
pub struct EntropyScoredContext {
    pub bit_data: BitDataSet,
    pub entropy_scores: Vec<EntropyBitScore>,
    pub constant_bit_polarity: ConstantBitPolarity,
}

/// In how many of the first `n` rows a bit is set.
pub open spec fn ones(data: BitData, bit: int, n: nat) -> nat
    decreases n,
{
    if n == 0 {
        0
    } else {
        ones(data, bit, (n - 1) as nat) + (if data.row(n - 1)[bit] {
            1nat
        } else {
            0
        })
    }
}

/// The entropy of a bit, where `score_of_count` has the entropies of bits that are set in so many
/// rows. A bit that is the same in all rows has none.
pub open spec fn score(data: BitData, bit: int, score_of_count: Seq<u64>) -> u64 {
    let count = ones(data, bit, data.num_rows as nat);
    if count == 0 || count == data.num_rows {
        0
    } else {
        score_of_count[count as int]
    }
}

/// The entropies of all bits of a row, in their order.
pub open spec fn scores(data: BitData, score_of_count: Seq<u64>) -> Seq<EntropyBitScore> {
    Seq::new(
        data.chunk_size as nat,
        |bit: int| (bit as usize, score(data, bit, score_of_count)),
    )
}

/// Whether an entry is that of a bit that is `one` in all rows: it has no entropy and is `one` in
/// the first row. Without rows every bit counts as clear.
pub open spec fn is_constant(entry: EntropyBitScore, data: BitData, one: bool) -> bool {
    entry.1 == 0 && one == (data.num_rows > 0 && data.row(0)[entry.0 as int])
}

/// The positions of the bits that are `one` in all rows, in the order of their entries.
pub open spec fn constant_positions(
    entries: Seq<EntropyBitScore>,
    data: BitData,
    one: bool,
) -> Seq<usize>
    decreases entries.len(),
{
    if entries.len() == 0 {
        Seq::empty()
    } else {
        let before = constant_positions(entries.drop_last(), data, one);
        if is_constant(entries.last(), data, one) {
            before.push(entries.last().0)
        } else {
            before
        }
    }
}

/// Whether the positions without entropy exist in rows.
pub open spec fn constants_exist(entries: Seq<EntropyBitScore>, data: BitData) -> bool {
    forall|i: int|
        0 <= i < entries.len() && data.num_rows > 0 && (#[trigger] entries[i]).1 == 0 ==> entries[i].0
            < data.chunk_size
}

fn derive_constant_bit_polarity_from_entropy(
    bit_data: &BitDataSet,
    entropy_scores: &Vec<EntropyBitScore>,
) -> (polarity: ConstantBitPolarity)
    requires
        bit_data.data.valid(),
        constants_exist(entropy_scores@, bit_data.data),
    ensures
        polarity.constant_zero_bit_positions@ == constant_positions(
            entropy_scores@,
            bit_data.data,
            false,
        ),
        polarity.constant_one_bit_positions@ == constant_positions(
            entropy_scores@,
            bit_data.data,
            true,
        ),
{
    let mut clear: Vec<usize> = Vec::new();
    let mut set: Vec<usize> = Vec::new();
    let mut i: usize = 0;
    while i < entropy_scores.len()
        invariant
            bit_data.data.valid(),
            constants_exist(entropy_scores@, bit_data.data),
            i <= entropy_scores@.len(),
            clear@ == constant_positions(entropy_scores@.take(i as int), bit_data.data, false),
            set@ == constant_positions(entropy_scores@.take(i as int), bit_data.data, true),
        decreases entropy_scores@.len() - i,
    {
        let (bit_position, entropy) = entropy_scores[i];
        assert(entropy_scores@.take(i as int + 1).drop_last() =~= entropy_scores@.take(i as int));
        if entropy == 0 {
            assert(entropy_scores@[i as int].1 == 0);
            if bit_data.num_rows() > 0 && bit_data.data.get_bit(0, bit_position) {
                set.push(bit_position);
            } else {
                clear.push(bit_position);
            }
        }
        i += 1;
    }
    assert(entropy_scores@.take(i as int) =~= entropy_scores@);
    ConstantBitPolarity { constant_zero_bit_positions: clear, constant_one_bit_positions: set }
}

impl EntropyScoredContext {
    /// Whether a context holds rows and entries with the constant bits that follow from them.
    pub open spec fn holds(self, bit_data: BitDataSet, entries: Seq<EntropyBitScore>) -> bool {
        &&& self.bit_data == bit_data
        &&& self.entropy_scores@ == entries
        &&& self.constant_bit_polarity.constant_zero_bit_positions@ == constant_positions(
            entries,
            bit_data.data,
            false,
        )
        &&& self.constant_bit_polarity.constant_one_bit_positions@ == constant_positions(
            entries,
            bit_data.data,
            true,
        )
    }

    /// Rows with the entropy of their bits. The bits without any are told apart by the first row.
    pub fn new(bit_data: BitDataSet, entropy_scores: Vec<EntropyBitScore>) -> (context:
        EntropyScoredContext)
        requires
            bit_data.data.valid(),
            constants_exist(entropy_scores@, bit_data.data),
        ensures
            context.holds(bit_data, entropy_scores@),
    {
        let constant_bit_polarity = derive_constant_bit_polarity_from_entropy(
            &bit_data,
            &entropy_scores,
        );
        EntropyScoredContext { bit_data, entropy_scores, constant_bit_polarity }
    }
}

/// There are no more set bits than rows.
pub proof fn ones_bound(data: BitData, bit: int, n: nat)
    ensures
        ones(data, bit, n) <= n,
    decreases n,
{
    if n > 0 {
        ones_bound(data, bit, (n - 1) as nat);
    }
}

/// In how many rows a bit is set.
pub fn count_ones(bit_data: &BitDataSet, bit: usize) -> (count: usize)
    requires
        bit_data.data.valid(),
        bit < bit_data.data.chunk_size,
    ensures
        count == ones(bit_data.data, bit as int, bit_data.data.num_rows as nat),
        count <= bit_data.data.num_rows,
{
    let mut count: usize = 0;
    let mut row: usize = 0;
    while row < bit_data.num_rows()
        invariant
            bit_data.data.valid(),
            bit < bit_data.data.chunk_size,
            row <= bit_data.data.num_rows,
            count == ones(bit_data.data, bit as int, row as nat),
            count <= row,
        decreases bit_data.data.num_rows - row,
    {
        if bit_data.data.get_bit(row, bit) {
            count += 1;
        }
        row += 1;
    }
    count
}

/// The entropies of all bits, where `score_of_count` has the entropies of bits that are set in so
/// many rows.
pub fn calculate_entropy(bit_data: &BitDataSet, score_of_count: &Vec<u64>) -> (entries: Vec<
    EntropyBitScore,
>)
    requires
        bit_data.data.valid(),
        score_of_count@.len() >= bit_data.data.num_rows,
    ensures
        entries@ == scores(bit_data.data, score_of_count@),
{
    let mut entries: Vec<EntropyBitScore> = Vec::new();
    let mut bit: usize = 0;
    while bit < bit_data.chunk_size()
        invariant
            bit_data.data.valid(),
            score_of_count@.len() >= bit_data.data.num_rows,
            bit <= bit_data.data.chunk_size,
            entries@ == scores(bit_data.data, score_of_count@).take(bit as int),
        decreases bit_data.data.chunk_size - bit,
    {
        let count: usize = count_ones(bit_data, bit);
        let entropy: u64 = if count == 0 || count == bit_data.num_rows() {
            0
        } else {
            score_of_count[count]
        };
        entries.push((bit, entropy));
        assert(entries@ =~= scores(bit_data.data, score_of_count@).take(bit as int + 1));
        bit += 1;
    }
    assert(entries@ =~= scores(bit_data.data, score_of_count@));
    entries
}

/// Measures the entropy of the bits of rows.
pub struct Entropy {
    /// The entropies of bits that are set in no row, in one row, and so on.
    pub score_of_count: Vec<u64>,
}

impl Filter for Entropy {
    type Input = BitDataSet;

    type Output = EntropyScoredContext;

    open spec fn admits(&self, input: BitDataSet) -> bool {
        input.data.valid() && self.score_of_count@.len() >= input.data.num_rows
    }

    open spec fn yields(
        &self,
        input: BitDataSet,
        result: Result<EntropyScoredContext, EntroGdError>,
    ) -> bool {
        result matches Ok(context) && context.holds(
            input,
            scores(input.data, self.score_of_count@),
        )
    }

    fn process(&self, input: BitDataSet) -> (result: Result<EntropyScoredContext, EntroGdError>) {
        let entries = calculate_entropy(&input, &self.score_of_count);
        Ok(EntropyScoredContext::new(input, entries))
    }
}

/// A bit is set in no row just where it is clear in all of them, and in every row just where it
/// is set in all of them.
pub proof fn ones_of_constants(data: BitData, bit: int, n: nat)
    ensures
        ones(data, bit, n) == 0 <==> (forall|row: int| 0 <= row < n ==> !#[trigger] data.row(row)[bit]),
        ones(data, bit, n) == n <==> (forall|row: int| 0 <= row < n ==> #[trigger] data.row(row)[bit]),
    decreases n,
{
    ones_bound(data, bit, n);
    if n > 0 {
        let m = (n - 1) as nat;
        ones_of_constants(data, bit, m);
        ones_bound(data, bit, m);
        let last = data.row(m as int)[bit];
        assert((forall|row: int| 0 <= row < n ==> !#[trigger] data.row(row)[bit]) <==> !last && (
        forall|row: int| 0 <= row < m ==> !#[trigger] data.row(row)[bit]));
        assert((forall|row: int| 0 <= row < n ==> #[trigger] data.row(row)[bit]) <==> last && (
        forall|row: int| 0 <= row < m ==> #[trigger] data.row(row)[bit]));
    }
}

/// The constant positions of entries are the positions of those entries that are constant.
proof fn constant_positions_hold(
    entries: Seq<EntropyBitScore>,
    data: BitData,
    one: bool,
    bit: usize,
)
    ensures
        constant_positions(entries, data, one).contains(bit) <==> exists|i: int|
            0 <= i < entries.len() && is_constant(#[trigger] entries[i], data, one)
                && entries[i].0 == bit,
    decreases entries.len(),
{
    if entries.len() > 0 {
        let shorter = entries.drop_last();
        let before = constant_positions(shorter, data, one);
        let all = constant_positions(entries, data, one);
        constant_positions_hold(shorter, data, one, bit);
        if before.contains(bit) {
            let i = choose|i: int|
                0 <= i < shorter.len() && is_constant(#[trigger] shorter[i], data, one)
                    && shorter[i].0 == bit;
            assert(entries[i] == shorter[i]);
            let k = choose|k: int| 0 <= k < before.len() && before[k] == bit;
            assert(all[k] == bit);
        } else {
            assert forall|i: int|
                0 <= i < shorter.len() && entries[i].0 == bit implies !is_constant(
                #[trigger] entries[i],
                data,
                one,
            ) by {
                assert(shorter[i] == entries[i]);
            }
            if all.contains(bit) {
                let k = choose|k: int| 0 <= k < all.len() && all[k] == bit;
                assert(k < before.len() ==> before[k] == bit);
                assert(is_constant(entries[entries.len() - 1], data, one));
            }
            if is_constant(entries.last(), data, one) && entries.last().0 == bit {
                assert(all[before.len() as int] == bit);
            }
        }
    }
}

/// The bits that count as clear in all rows, or as set in all rows, are just those that are: of
/// measured rows, where a bit that differs between rows has some entropy.
pub proof fn constant_bits_are_found(
    data: BitData,
    score_of_count: Seq<u64>,
    one: bool,
    bit: usize,
)
    requires
        data.num_rows > 0,
        bit < data.chunk_size,
        forall|count: int| 0 < count < data.num_rows ==> #[trigger] score_of_count[count] > 0,
    ensures
        constant_positions(scores(data, score_of_count), data, one).contains(bit) <==> (forall|
            row: int,
        |
            0 <= row < data.num_rows ==> #[trigger] data.row(row)[bit as int] == one),
{
    let entries = scores(data, score_of_count);
    let n = data.num_rows as nat;
    constant_positions_hold(entries, data, one, bit);
    ones_of_constants(data, bit as int, n);
    ones_bound(data, bit as int, n);
    assert(entries[bit as int].0 == bit);
    let first = data.row(0)[bit as int];
    if entries[bit as int].1 == 0 {
        let count = ones(data, bit as int, n);
        assert(count == 0 || count == n) by {
            if 0 < count < n {
                assert(score_of_count[count as int] > 0);
            }
        }
    }
    assert(forall|i: int| 0 <= i < entries.len() && (#[trigger] entries[i]).0 == bit ==> i == bit);
}

/// The rows of a dataset.
pub open spec fn all_rows(data: BitData) -> Seq<Seq<bool>> {
    Seq::new(data.num_rows as nat, |row: int| data.row(row))
}

/// In how many rows a bit is set.
spec fn set_in(rows: Seq<Seq<bool>>, bit: int) -> nat
    decreases rows.len(),
{
    if rows.len() == 0 {
        0
    } else {
        set_in(rows.drop_last(), bit) + (if rows.last()[bit] {
            1nat
        } else {
            0
        })
    }
}

/// Bits are counted row by row.
proof fn ones_in_rows(data: BitData, bit: int, n: nat)
    requires
        n <= data.num_rows,
    ensures
        ones(data, bit, n) == set_in(all_rows(data).take(n as int), bit),
    decreases n,
{
    let rows = all_rows(data);
    if n > 0 {
        ones_in_rows(data, bit, (n - 1) as nat);
        assert(rows.take(n as int).drop_last() =~= rows.take(n - 1));
        assert(rows.take(n as int).last() == data.row(n - 1));
    }
}

/// Taking a row away takes its bit away.
proof fn set_in_without(rows: Seq<Seq<bool>>, bit: int, i: int)
    requires
        0 <= i < rows.len(),
    ensures
        set_in(rows, bit) == set_in(rows.remove(i), bit) + (if rows[i][bit] {
            1nat
        } else {
            0
        }),
    decreases rows.len(),
{
    if i < rows.len() - 1 {
        set_in_without(rows.drop_last(), bit, i);
        assert(rows.remove(i).drop_last() =~= rows.drop_last().remove(i));
    } else {
        assert(rows.remove(i) =~= rows.drop_last());
    }
}

/// The same rows in another order have a bit set as often.
proof fn set_in_reordered(rows: Seq<Seq<bool>>, other: Seq<Seq<bool>>, bit: int)
    requires
        rows.to_multiset() == other.to_multiset(),
    ensures
        set_in(rows, bit) == set_in(other, bit),
    decreases rows.len(),
{
    broadcast use vstd::seq_lib::group_to_multiset_ensures;
    assert(rows.len() == rows.to_multiset().len());
    assert(other.len() == other.to_multiset().len());
    if rows.len() > 0 {
        let last = rows.last();
        let n = rows.len() - 1;
        assert(rows.contains(last));
        assert(rows.to_multiset().count(last) > 0);
        assert(other.contains(last));
        let i = choose|i: int| 0 <= i < other.len() && other[i] == last;
        assert(rows.remove(n) =~= rows.drop_last());
        vstd::seq_lib::to_multiset_remove(rows, n);
        vstd::seq_lib::to_multiset_remove(other, i);
        set_in_reordered(rows.drop_last(), other.remove(i), bit);
        set_in_without(other, bit, i);
    }
}

/// The entropies of bits stay the same when rows are put into another order.
pub proof fn scores_do_not_depend_on_order(data: BitData, other: BitData, score_of_count: Seq<u64>)
    requires
        data.chunk_size == other.chunk_size,
        data.num_rows == other.num_rows,
        all_rows(data).to_multiset() == all_rows(other).to_multiset(),
    ensures
        forall|bit: int|
            0 <= bit < data.chunk_size ==> #[trigger] ones(data, bit, data.num_rows as nat) == ones(
                other,
                bit,
                other.num_rows as nat,
            ),
        scores(data, score_of_count) == scores(other, score_of_count),
{
    let n = data.num_rows as nat;
    assert forall|bit: int| 0 <= bit < data.chunk_size implies #[trigger] ones(data, bit, n) == ones(
        other,
        bit,
        n,
    ) by {
        ones_in_rows(data, bit, n);
        ones_in_rows(other, bit, n);
        assert(all_rows(data).take(n as int) =~= all_rows(data));
        assert(all_rows(other).take(n as int) =~= all_rows(other));
        set_in_reordered(all_rows(data), all_rows(other), bit);
    }
    assert(scores(data, score_of_count) =~= scores(other, score_of_count));
}

/// A bit that is turned around in every row is set in all the other rows.
pub proof fn ones_of_turned_bit(data: BitData, other: BitData, bit: int, n: nat)
    requires
        forall|row: int| 0 <= row < n ==> other.row(row)[bit] == !(#[trigger] data.row(row))[bit],
    ensures
        ones(other, bit, n) == n - ones(data, bit, n),
    decreases n,
{
    if n > 0 {
        ones_of_turned_bit(data, other, bit, (n - 1) as nat);
        assert(other.row(n - 1)[bit] == !data.row(n - 1)[bit]);
    }
}

/// Every bit has one entropy, in the order of the bits; it is zero just where the bit is the same in
/// all rows, or there are no rows. The entropies stay the same when rows are put into another order,
/// and when a bit is turned around in every row, where bits that are set in as many rows as others are
/// clear in have the same entropy.
pub proof fn entropies_of_rows(
    data: BitData,
    reordered: BitData,
    turned: BitData,
    turned_bit: int,
    score_of_count: Seq<u64>,
    bit: int,
)
    requires
        0 <= bit < data.chunk_size,
        forall|count: int| 0 < count < data.num_rows ==> #[trigger] score_of_count[count] > 0,
        reordered.chunk_size == data.chunk_size,
        reordered.num_rows == data.num_rows,
        all_rows(reordered).to_multiset() == all_rows(data).to_multiset(),
        turned.chunk_size == data.chunk_size,
        turned.num_rows == data.num_rows,
        forall|row: int, i: int|
            0 <= row < data.num_rows && 0 <= i < data.chunk_size ==> #[trigger] turned.row(row)[i]
                == (data.row(row)[i] != (i == turned_bit)),
        forall|count: int|
            0 < count < data.num_rows ==> #[trigger] score_of_count[count]
                == score_of_count[data.num_rows - count],
    ensures
        scores(data, score_of_count).len() == data.chunk_size,
        scores(data, score_of_count)[bit].0 == bit,
        scores(data, score_of_count)[bit].1 == 0 <==> (forall|row: int|
            0 <= row < data.num_rows ==> #[trigger] data.row(row)[bit] == data.row(0)[bit]),
        scores(reordered, score_of_count) == scores(data, score_of_count),
        scores(turned, score_of_count) == scores(data, score_of_count),
{
    let n = data.num_rows as nat;
    ones_bound(data, bit, n);
    ones_of_constants(data, bit, n);
    scores_do_not_depend_on_order(data, reordered, score_of_count);
    let count = ones(data, bit, n);
    if 0 < count < n {
        assert(score_of_count[count as int] > 0);
    }
    assert forall|i: int| 0 <= i < data.chunk_size implies #[trigger] score(
        turned,
        i,
        score_of_count,
    ) == score(data, i, score_of_count) by {
        ones_bound(data, i, n);
        let set = ones(data, i, n);
        if i == turned_bit {
            assert forall|row: int| 0 <= row < n implies turned.row(row)[i] == !(
            #[trigger] data.row(row))[i] by {
                assert(turned.row(row)[i] == (data.row(row)[i] != (i == turned_bit)));
            }
            ones_of_turned_bit(data, turned, i, n);
            if 0 < set < n {
                assert(score_of_count[set as int] == score_of_count[n - set]);
            }
        } else {
            same_ones(data, turned, i, n);
        }
    }
    assert(scores(turned, score_of_count) =~= scores(data, score_of_count));
}

/// A bit that is the same in both of two datasets is set in as many rows.
proof fn same_ones(data: BitData, other: BitData, bit: int, n: nat)
    requires
        forall|row: int| 0 <= row < n ==> #[trigger] other.row(row)[bit] == data.row(row)[bit],
    ensures
        ones(other, bit, n) == ones(data, bit, n),
    decreases n,
{
    if n > 0 {
        same_ones(data, other, bit, (n - 1) as nat);
        assert(other.row(n - 1)[bit] == data.row(n - 1)[bit]);
    }
}

/// A bit is counted in as many rows as have it, and its entropy is the one for that number.
pub proof fn entropy_is_of_rows_with_bit(data: BitData, bit: int, score_of_count: Seq<u64>, n: int)
    requires
        0 <= n <= data.num_rows,
    ensures
        ones(data, bit, n as nat) == all_rows(data).take(n).filter(|row: Seq<bool>| row[bit]).len(),
        ({
            let count = all_rows(data).filter(|row: Seq<bool>| row[bit]).len();
            score(data, bit, score_of_count) == (if 0 < count < data.num_rows {
                score_of_count[count as int]
            } else {
                0
            })
        }),
{
    ones_are_rows_with_bit(data, bit, n);
    ones_are_rows_with_bit(data, bit, data.num_rows as int);
    ones_bound(data, bit, data.num_rows as nat);
    assert(all_rows(data).take(data.num_rows as int) =~= all_rows(data));
}

proof fn ones_are_rows_with_bit(data: BitData, bit: int, n: int)
    requires
        0 <= n <= data.num_rows,
    ensures
        ones(data, bit, n as nat) == all_rows(data).take(n).filter(|row: Seq<bool>| row[bit]).len(),
    decreases n,
{
    reveal(Seq::filter);
    if n > 0 {
        ones_are_rows_with_bit(data, bit, n - 1);
        assert(all_rows(data).take(n).drop_last() =~= all_rows(data).take(n - 1));
    }
}

} // verus!
