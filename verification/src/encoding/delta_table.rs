//! Base tables as a first row and the differences between the rows, read as numbers whose most
//! significant bits are the columns that come first in a given order.
use vstd::arithmetic::power2::{lemma_pow2_pos, lemma_pow2_unfold, pow2};
use vstd::prelude::*;

use crate::base_table::table_view;
use crate::bits::{bits_value, join, join_concat, join_push, low_digits, BitStream, MAX_STREAM_BITS};
use crate::data::{significant_bits, significant_bits_bound};
use crate::encoding::delta::{
    decode_adjusted_delta, delta_code, delta_code_is_read_back, encode_adjusted_delta_words,
    payload_width, prefix, read_delta, tier_fits, tier_from, tier_widths, tiers, DeltaBitStats,
};
use crate::error::{bad_metadata, EntroGdError};
use crate::file_format::tags::{BASE_TABLE_TAG_DELTA_FIXED, BASE_TABLE_TAG_DELTA_UNARY};
use crate::numbers::{bits_value_bound, bits_value_push, digits_of_value, fitted, fitted_value};
use crate::text::two_numbers;

verus! {

/// Whether a column stands at no later rank of an order.
pub open spec fn last_rank(order: Seq<usize>, rank: int) -> bool {
    forall|later: int| rank < later < order.len() ==> #[trigger] order[later] != order[rank]
}

/// The bits of a row in the given order of columns, the first one most significant. Columns that
/// the order leaves out are left out.
pub open spec fn sort_key(row: Seq<bool>, order: Seq<usize>) -> Seq<bool> {
    Seq::new(
        row.len(),
        |j: int|
            {
                let rank = row.len() - 1 - j;
                rank < order.len() && last_rank(order, rank) && row[order[rank] as int]
            },
    )
}

/// The column whose bit a key holds at a place: the first one where the order names none.
pub open spec fn column_of(order: Seq<usize>, key_width: nat, j: int) -> int {
    if j == 0 && order.len() >= key_width {
        order.last() as int
    } else if key_width - 1 - j < order.len() {
        order[key_width - 1 - j] as int
    } else {
        0
    }
}

/// Whether a key sets the bit of a column.
pub open spec fn column_is_set(key: Seq<bool>, order: Seq<usize>, column: int) -> bool {
    exists|j: int| 0 <= j < key.len() && #[trigger] key[j] && column_of(order, key.len(), j) == column
}

/// The row that a key stands for.
pub open spec fn row_of_key(key: Seq<bool>, order: Seq<usize>) -> Seq<bool> {
    Seq::new(key.len(), |column: int| column_is_set(key, order, column))
}

/// Whether all columns of an order exist.
pub open spec fn order_in_range(order: Seq<usize>, width: nat) -> bool {
    forall|rank: int| 0 <= rank < order.len() ==> #[trigger] order[rank] < width
}

/// Whether an order names each column just once.
pub open spec fn orders_all(order: Seq<usize>, width: nat) -> bool {
    &&& order.len() == width
    &&& order_in_range(order, width)
    &&& order.no_duplicates()
}

/// Whether all rows have one width.
pub open spec fn rows_uniform(rows: Seq<(Seq<bool>, usize)>, width: nat) -> bool {
    forall|i: int| 0 <= i < rows.len() ==> (#[trigger] rows[i]).0.len() == width
}

/// The keys of rows as numbers.
pub open spec fn key_numbers(rows: Seq<(Seq<bool>, usize)>, order: Seq<usize>) -> Seq<nat> {
    Seq::new(rows.len(), |i: int| bits_value(sort_key(rows[i].0, order)))
}

/// Whether the first `n` keys go down at each step.
pub open spec fn descending(keys: Seq<nat>, n: int) -> bool {
    forall|i: int| 0 < i < n ==> keys[i - 1] > #[trigger] keys[i]
}

/// The codes of the steps between keys; a step is at least one, so one less is written.
pub open spec fn step_codes(codec_id: u8, keys: Seq<nat>, key_width: nat) -> Seq<Seq<bool>> {
    Seq::new(
        (keys.len() - 1) as nat,
        |i: int| delta_code(codec_id, (keys[i] - keys[i + 1] - 1) as nat, key_width),
    )
}

/// The first `count + 1` keys that a stream of codes stands for, and where those codes end.
pub open spec fn decoded_keys(
    codec_id: u8,
    bits: Seq<bool>,
    key_width: nat,
    first: nat,
    count: nat,
) -> Option<(Seq<nat>, int)>
    decreases count,
{
    if count == 0 {
        Some((seq![first], 0))
    } else {
        match decoded_keys(codec_id, bits, key_width, first, (count - 1) as nat) {
            Some((keys, at)) => match read_delta(codec_id, bits, at, key_width) {
                Some((step, end)) => Some(
                    (keys.push(((keys.last() - step - 1) % pow2(key_width) as int) as nat), end),
                ),
                None => None,
            },
            None => None,
        }
    }
}

/// A base table as differences.
#[derive(Debug, PartialEq, Eq)]
pub struct DeltaBaseTableData {
    /// The number of rows.
    pub num_bases: usize,
    /// The key of the first row, the least significant bit first.
    pub first_sort_key: BitStream,
    /// The codes of the steps from each row to the next one.
    pub delta_bit_stream: BitStream,
    /// The number of steps.
    pub delta_count: usize,
    /// The columns, the most significant one first.
    pub sort_column_order: Vec<usize>,
    /// The code of the steps.
    pub codec_id: u8,
}

/// The content of a base table as differences.
#[verifier::ext_equal]
pub struct DeltaView {
    pub num_bases: nat,
    pub first_sort_key: Seq<bool>,
    pub steps: Seq<bool>,
    pub delta_count: nat,
    pub order: Seq<usize>,
    pub codec_id: u8,
}

impl View for DeltaBaseTableData {
    type V = DeltaView;

    open spec fn view(&self) -> DeltaView {
        DeltaView {
            num_bases: self.num_bases as nat,
            first_sort_key: self.first_sort_key@,
            steps: self.delta_bit_stream@,
            delta_count: self.delta_count as nat,
            order: self.sort_column_order@,
            codec_id: self.codec_id,
        }
    }
}

impl DeltaView {
    /// The width of a key.
    pub open spec fn key_width(self) -> nat {
        self.first_sort_key.len()
    }

    /// The keys of the rows, where the codes can be read.
    pub open spec fn keys(self) -> Option<(Seq<nat>, int)> {
        decoded_keys(
            self.codec_id,
            self.steps,
            self.key_width(),
            bits_value(self.first_sort_key),
            self.delta_count,
        )
    }

    /// The rows that the differences stand for; how often a base occurs is not stored. There are
    /// none if counts, order or codes are unsound or codes are left over.
    pub open spec fn rows(self) -> Option<Seq<(Seq<bool>, usize)>> {
        if self.num_bases == 0 {
            Some(Seq::empty())
        } else if self.delta_count != self.num_bases - 1 || !order_in_range(
            self.order,
            self.key_width(),
        ) {
            None
        } else {
            match self.keys() {
                Some((keys, at)) => if at == self.steps.len() {
                    Some(
                        Seq::new(
                            keys.len(),
                            |i: int|
                                (row_of_key(low_digits(keys[i], self.key_width()), self.order), 0),
                        ),
                    )
                } else {
                    None
                },
                None => None,
            }
        }
    }
}

/// Undecodable codes stay so with more of them.
proof fn undecodable_keys(
    codec_id: u8,
    bits: Seq<bool>,
    key_width: nat,
    first: nat,
    few: nat,
    many: nat,
)
    requires
        few <= many,
        decoded_keys(codec_id, bits, key_width, first, few) is None,
    ensures
        decoded_keys(codec_id, bits, key_width, first, many) is None,
    decreases many - few,
{
    if few < many {
        undecodable_keys(codec_id, bits, key_width, first, few, (many - 1) as nat);
    }
}

/// The difference of two numbers given by their digits, less one more if `borrow`; and whether it
/// had to borrow at the end. Digits of the second number beyond the first one's are left out.
fn subtract(
    number: &BitStream,
    source: &BitStream,
    start: usize,
    end: usize,
    borrow: bool,
) -> (result: (BitStream, bool))
    requires
        start <= end <= source@.len(),
    ensures
        result.0@.len() == number@.len(),
        bits_value(result.0@) + bits_value(
            fitted(source@.subrange(start as int, end as int), number@.len()),
        ) + (if borrow {
            1int
        } else {
            0int
        }) == bits_value(number@) + (if result.1 {
            pow2(number@.len()) as int
        } else {
            0int
        }),
{
    let ghost taken = source@.subrange(start as int, end as int);
    let width: usize = number.bit_len();
    let mut difference = BitStream::empty();
    let mut carry: bool = borrow;
    let mut j: usize = 0;
    proof {
        assert(fitted(taken, 0) =~= Seq::empty());
        assert(number@.take(0) =~= Seq::empty());
        vstd::arithmetic::power2::lemma2_to64();
    }
    while j < width
        invariant
            j <= width == number@.len() <= MAX_STREAM_BITS,
            start <= end <= source@.len(),
            taken == source@.subrange(start as int, end as int),
            difference@.len() == j,
            bits_value(difference@) + bits_value(fitted(taken, j as nat)) + (if borrow {
                1int
            } else {
                0int
            }) == bits_value(number@.take(j as int)) + (if carry {
                pow2(j as nat) as int
            } else {
                0int
            }),
        decreases width - j,
    {
        let a: bool = number.bit(j);
        let b: bool = j < end - start && source.bit(start + j);
        let bit: bool = (a != b) != carry;
        proof {
            assert(fitted(taken, j as nat + 1) =~= fitted(taken, j as nat).push(b));
            assert(number@.take(j as int + 1) =~= number@.take(j as int).push(a));
            bits_value_push(difference@, bit);
            bits_value_push(fitted(taken, j as nat), b);
            bits_value_push(number@.take(j as int), a);
            lemma_pow2_unfold(j as nat + 1);
        }
        difference.append_bit(bit);
        carry = if a {
            b && carry
        } else {
            b || carry
        };
        j += 1;
    }
    assert(number@.take(width as int) =~= number@);
    (difference, carry)
}

/// For each column the place of its bit in a key, or the greatest number for none.
fn key_places(order: &Vec<usize>, width: usize) -> (places: Vec<usize>)
    requires
        order@.len() <= width <= MAX_STREAM_BITS,
        order_in_range(order@, width as nat),
    ensures
        places@.len() == width,
        forall|column: int|
            0 <= column < width && #[trigger] places@[column] != usize::MAX ==> {
                let rank = width - 1 - places@[column];
                0 <= rank < order@.len() && order@[rank] == column && last_rank(order@, rank)
            },
        forall|rank: int|
            0 <= rank < order@.len() && last_rank(order@, rank) ==> places@[#[trigger] order@[rank] as int]
                == width - 1 - rank,
{
    let mut places: Vec<usize> = Vec::new();
    let mut i: usize = 0;
    while i < width
        invariant
            i <= width,
            places@.len() == i,
            forall|column: int| 0 <= column < i ==> #[trigger] places@[column] == usize::MAX,
        decreases width - i,
    {
        places.push(usize::MAX);
        i += 1;
    }
    let mut rank: usize = 0;
    while rank < order.len()
        invariant
            rank <= order@.len() <= width <= MAX_STREAM_BITS,
            order_in_range(order@, width as nat),
            places@.len() == width,
            forall|column: int|
                0 <= column < width && #[trigger] places@[column] != usize::MAX ==> {
                    let r = width - 1 - places@[column];
                    0 <= r < rank && order@[r] == column && last_rank(order@.take(rank as int), r)
                },
            forall|r: int|
                0 <= r < rank && last_rank(order@.take(rank as int), r) ==> places@[#[trigger] order@[r] as int]
                    == width - 1 - r,
        decreases order@.len() - rank,
    {
        let column: usize = order[rank];
        let ghost before = places@;
        places.set(column, width - 1 - rank);
        proof {
            let done = order@.take(rank as int);
            let more = order@.take(rank as int + 1);
            assert forall|c: int| 0 <= c < width && #[trigger] places@[c] != usize::MAX implies ({
                let r = width - 1 - places@[c];
                0 <= r < rank + 1 && order@[r] == c && last_rank(more, r)
            }) by {
                let r = width - 1 - places@[c];
                if c != column {
                    assert(before[c] == places@[c]);
                    assert(last_rank(done, r));
                    assert forall|later: int| r < later < more.len() implies #[trigger] more[later]
                        != more[r] by {
                        if later < rank {
                            assert(done[later] != done[r]);
                        }
                    }
                }
            }
            assert forall|r: int| 0 <= r < rank + 1 && last_rank(more, r) implies
                places@[#[trigger] order@[r] as int] == width - 1 - r by {
                if r < rank {
                    assert(more[rank as int] != more[r]);
                    assert forall|later: int| r < later < done.len() implies #[trigger] done[later]
                        != done[r] by {
                        assert(more[later] != more[r]);
                    }
                    assert(last_rank(done, r));
                }
            }
        }
        rank += 1;
    }
    assert(order@.take(rank as int) =~= order@);
    places
}

/// The key of a row.
fn build_sort_key(row: &BitStream, places: &Vec<usize>, order: &Vec<usize>) -> (key: BitStream)
    requires
        order@.len() <= row@.len(),
        order_in_range(order@, row@.len()),
        places@.len() == row@.len(),
        forall|column: int|
            0 <= column < row@.len() && #[trigger] places@[column] != usize::MAX ==> {
                let rank = row@.len() - 1 - places@[column];
                0 <= rank < order@.len() && order@[rank] == column && last_rank(order@, rank)
            },
        forall|rank: int|
            0 <= rank < order@.len() && last_rank(order@, rank) ==> places@[#[trigger] order@[rank] as int]
                == row@.len() - 1 - rank,
    ensures
        key@ == sort_key(row@, order@),
{
    let width: usize = row.bit_len();
    let ghost expected = sort_key(row@, order@);
    let mut key = BitStream::filled(false, width);
    let mut column: usize = 0;
    while column < width
        invariant
            column <= width == row@.len() == places@.len(),
            key@.len() == width,
            expected == sort_key(row@, order@),
            forall|c: int|
                0 <= c < row@.len() && #[trigger] places@[c] != usize::MAX ==> {
                    let rank = row@.len() - 1 - places@[c];
                    0 <= rank < order@.len() && order@[rank] == c && last_rank(order@, rank)
                },
            forall|c: int|
                0 <= c < column && #[trigger] places@[c] != usize::MAX && row@[c]
                    ==> key@[places@[c] as int],
            forall|j: int| 0 <= j < width && #[trigger] key@[j] ==> expected[j],
        decreases width - column,
    {
        let place: usize = places[column];
        if place != usize::MAX && row.bit(column) {
            key.put_bit(place, true);
        }
        column += 1;
    }
    proof {
        assert forall|j: int| 0 <= j < width && expected[j] implies key@[j] by {
            let rank = width - 1 - j;
            let c = order@[rank] as int;
            assert(places@[c] == j);
        }
        assert(key@ =~= expected);
    }
    key
}

/// Whether the codes of the steps fit into one stream, as far as the keys go down.
pub open spec fn steps_fit(codec_id: u8, keys: Seq<nat>, key_width: nat) -> bool {
    forall|k: int|
        0 < k <= keys.len() && descending(keys, k) ==> (#[trigger] join(
            step_codes(codec_id, keys, key_width).take(k - 1),
        )).len() <= MAX_STREAM_BITS
}

/// The step down from a key to the next one, less one.
pub open spec fn step_down(keys: Seq<nat>, i: int) -> nat {
    (keys[i] - keys[i + 1] - 1) as nat
}

/// The bits of the prefixes, of the payloads and of the digits themselves in the codes of the first
/// `n` steps.
pub open spec fn written_bits(codec_id: u8, keys: Seq<nat>, key_width: nat, n: int) -> (
    nat,
    nat,
    nat,
)
    decreases n,
{
    if n <= 0 {
        (0, 0, 0)
    } else {
        let before = written_bits(codec_id, keys, key_width, n - 1);
        let value = step_down(keys, n - 1);
        let tier = tier_from(tiers(codec_id), value, 0);
        (
            before.0 + prefix(codec_id, tier).len(),
            before.1 + payload_width(codec_id, tier, key_width),
            before.2 + significant_bits(value),
        )
    }
}

/// Whether counts are those of the codes of the first `n` steps.
pub open spec fn counts_steps(
    stats: DeltaBitStats,
    codec_id: u8,
    keys: Seq<nat>,
    key_width: nat,
    n: int,
) -> bool {
    let written = written_bits(codec_id, keys, key_width, n);
    &&& stats.prefix_bits == written.0
    &&& stats.payload_bits == written.1
    &&& stats.minimally_necessary_bits == written.2
    &&& stats.total_written_bits == written.0 + written.1
}

/// The first key and the codes of the steps with the number of their bits, if the keys of the rows go
/// down at each step.
pub fn delta_encode_base_rows(
    raw_rows: &Vec<(BitStream, usize)>,
    order: &Vec<usize>,
    codec_id: u8,
) -> (result: Option<(BitStream, BitStream, DeltaBitStats)>)
    requires
        raw_rows@.len() > 0,
        rows_uniform(table_view(raw_rows@), raw_rows@[0].0@.len()),
        order@.len() <= raw_rows@[0].0@.len(),
        order_in_range(order@, raw_rows@[0].0@.len()),
        steps_fit(
            codec_id,
            key_numbers(table_view(raw_rows@), order@),
            raw_rows@[0].0@.len(),
        ),
    ensures
        ({
            let rows = table_view(raw_rows@);
            let keys = key_numbers(rows, order@);
            &&& result is Some <==> descending(keys, keys.len() as int)
            &&& result matches Some((first, steps, stats)) ==> first@ == sort_key(rows[0].0, order@)
                && steps@ == join(step_codes(codec_id, keys, rows[0].0.len())) && counts_steps(
                stats,
                codec_id,
                keys,
                rows[0].0.len(),
                keys.len() - 1,
            )
        }),
{
    let ghost rows = table_view(raw_rows@);
    let ghost keys = key_numbers(rows, order@);
    let ghost width = rows[0].0.len();
    let ghost codes = step_codes(codec_id, keys, width);
    let widths = tier_widths(codec_id);
    let key_width: usize = raw_rows[0].0.bit_len();
    let places = key_places(order, key_width);
    let first_sort_key = build_sort_key(&raw_rows[0].0, &places, order);
    let mut prev = first_sort_key.clone();
    let mut steps = BitStream::empty();
    let mut stats = DeltaBitStats {
        total_written_bits: 0,
        prefix_bits: 0,
        payload_bits: 0,
        minimally_necessary_bits: 0,
    };
    let mut i: usize = 1;
    proof {
        assert(rows[0].0 == raw_rows@[0].0@);
        assert(codes.take(0) =~= Seq::empty());
    }
    while i < raw_rows.len()
        invariant
            1 <= i <= raw_rows@.len(),
            rows == table_view(raw_rows@),
            keys == key_numbers(rows, order@),
            width == rows[0].0.len(),
            codes == step_codes(codec_id, keys, width),
            steps_fit(codec_id, keys, width),
            rows_uniform(rows, width),
            key_width == width,
            widths@ == tiers(codec_id),
            order@.len() <= width,
            order_in_range(order@, width),
            places@.len() == width,
            forall|column: int|
                0 <= column < width && #[trigger] places@[column] != usize::MAX ==> {
                    let rank = width - 1 - places@[column];
                    0 <= rank < order@.len() && order@[rank] == column && last_rank(order@, rank)
                },
            forall|rank: int|
                0 <= rank < order@.len() && last_rank(order@, rank) ==> places@[#[trigger] order@[rank] as int]
                    == width - 1 - rank,
            descending(keys, i as int),
            prev@ == sort_key(rows[i - 1].0, order@),
            steps@ == join(codes.take(i - 1)),
            counts_steps(stats, codec_id, keys, width, i - 1),
            stats.total_written_bits == steps@.len(),
            stats.minimally_necessary_bits <= stats.payload_bits,
        decreases raw_rows@.len() - i,
    {
        proof {
            assert(rows[i as int].0.len() == width);
            assert(rows[i as int].0 == raw_rows@[i as int].0@);
            assert(rows[i - 1].0.len() == width);
        }
        let next = build_sort_key(&raw_rows[i].0, &places, order);
        let next_width: usize = next.bit_len();
        let (step, borrowed) = subtract(&prev, &next, 0, next_width, true);
        proof {
            assert(next@.subrange(0, next_width as int) =~= next@);
            assert(fitted(next@, width) =~= next@);
            bits_value_bound(step@);
            assert(keys[i - 1] == bits_value(prev@));
            assert(keys[i as int] == bits_value(next@));
        }
        if borrowed {
            assert(!(keys[i - 1] > keys[i as int]));
            return None;
        }
        proof {
            assert(bits_value(step@) == keys[i - 1] - keys[i as int] - 1);
            assert(codes[i - 1] == delta_code(codec_id, bits_value(step@), width));
            assert(codes.take(i as int) =~= codes.take(i - 1).push(codes[i - 1]));
            join_push(codes.take(i - 1), codes[i - 1]);
            assert(descending(keys, i + 1));
            assert(codes.take((i + 1) - 1) == codes.take(i as int));
            assert(join(codes.take((i + 1) - 1)).len() <= MAX_STREAM_BITS);
        }
        let more = encode_adjusted_delta_words(&mut steps, codec_id, &widths, &step);
        proof {
            let value = bits_value(step@);
            assert(value == step_down(keys, i - 1));
            let tier = tier_from(tiers(codec_id), value, 0);
            tier_fits(tiers(codec_id), value, 0);
            significant_bits_bound(value, payload_width(codec_id, tier, width));
            assert(codes[i - 1].len() == more.total_written_bits);
            assert(steps@.len() == stats.total_written_bits + more.total_written_bits);
        }
        let written: usize = steps.bit_len();
        stats = DeltaBitStats {
            total_written_bits: stats.total_written_bits + more.total_written_bits,
            prefix_bits: stats.prefix_bits + more.prefix_bits,
            payload_bits: stats.payload_bits + more.payload_bits,
            minimally_necessary_bits: stats.minimally_necessary_bits
                + more.minimally_necessary_bits,
        };
        assert(stats.total_written_bits == written);
        prev = next;
        i += 1;
    }
    assert(codes.take(i - 1) =~= codes);
    Some((first_sort_key, steps, stats))
}

/// For each place of a key the column whose bit it holds.
fn key_columns(order: &Vec<usize>, width: usize) -> (columns: Vec<usize>)
    requires
        order_in_range(order@, width as nat),
    ensures
        columns@.len() == width,
        forall|j: int| 0 <= j < width ==> #[trigger] columns@[j] == column_of(order@, width as nat, j),
        forall|j: int| 0 <= j < width ==> #[trigger] columns@[j] < width,
{
    let mut columns: Vec<usize> = Vec::new();
    let mut j: usize = 0;
    while j < width
        invariant
            j <= width,
            order_in_range(order@, width as nat),
            columns@.len() == j,
            forall|i: int|
                0 <= i < j ==> #[trigger] columns@[i] == column_of(order@, width as nat, i),
            forall|i: int| 0 <= i < j ==> #[trigger] columns@[i] < width,
        decreases width - j,
    {
        let column: usize = if j == 0 && order.len() >= width {
            order[order.len() - 1]
        } else if width - 1 - j < order.len() {
            order[width - 1 - j]
        } else {
            0
        };
        columns.push(column);
        j += 1;
    }
    columns
}

/// The row that a key stands for.
fn scatter_key_to_row(key: &BitStream, columns: &Vec<usize>, order: &Vec<usize>) -> (row: BitStream)
    requires
        columns@.len() == key@.len(),
        forall|j: int|
            0 <= j < key@.len() ==> #[trigger] columns@[j] == column_of(order@, key@.len(), j),
        forall|j: int| 0 <= j < key@.len() ==> #[trigger] columns@[j] < key@.len(),
    ensures
        row@ == row_of_key(key@, order@),
{
    let width: usize = key.bit_len();
    let mut row = BitStream::filled(false, width);
    let mut j: usize = 0;
    while j < width
        invariant
            j <= width == key@.len() == columns@.len(),
            row@.len() == width,
            forall|i: int|
                0 <= i < key@.len() ==> #[trigger] columns@[i] == column_of(order@, key@.len(), i),
            forall|i: int| 0 <= i < key@.len() ==> #[trigger] columns@[i] < key@.len(),
            forall|i: int| 0 <= i < j && #[trigger] key@[i] ==> row@[columns@[i] as int],
            forall|c: int| 0 <= c < width && #[trigger] row@[c] ==> column_is_set(key@, order@, c),
        decreases width - j,
    {
        if key.bit(j) {
            assert(column_is_set(key@, order@, columns@[j as int] as int));
            row.put_bit(columns[j], true);
        }
        j += 1;
    }
    proof {
        assert forall|c: int| 0 <= c < width && column_is_set(key@, order@, c) implies row@[c] by {
            let i = choose|i: int|
                0 <= i < key@.len() && #[trigger] key@[i] && column_of(order@, key@.len(), i) == c;
            assert(columns@[i] == c);
        }
        assert(row@ =~= row_of_key(key@, order@));
    }
    row
}

/// One step down from a key, wrapping around below zero.
proof fn step_wraps(key: nat, taken: nat, width: nat, result: nat, borrowed: bool)
    requires
        result < pow2(width),
        result + taken % pow2(width) + 1 == key + (if borrowed {
            pow2(width) as int
        } else {
            0int
        }),
    ensures
        result == (key - taken - 1) % pow2(width) as int,
{
    let p = pow2(width) as int;
    let t = taken as int;
    let q = t / p;
    lemma_pow2_pos(width);
    vstd::arithmetic::div_mod::lemma_fundamental_div_mod(t, p);
    let back = if borrowed {
        q + 1
    } else {
        q
    };
    assert(key - taken - 1 == -back * p + result) by (nonlinear_arith)
        requires
            t == p * q + t % p,
            t == taken,
            result + t % p + 1 == key + (if borrowed {
                p
            } else {
                0int
            }),
            back == (if borrowed {
                q + 1
            } else {
                q
            }),
    ;
    vstd::arithmetic::div_mod::lemma_fundamental_div_mod_converse(
        key - taken - 1,
        p,
        -back,
        result as int,
    );
}

impl DeltaBaseTableData {
    /// The rows that the differences stand for.
    pub fn decode_rows(&self) -> (result: Result<Vec<(BitStream, usize)>, EntroGdError>)
        ensures
            match self@.rows() {
                Some(rows) => result matches Ok(found) && table_view(found@) == rows,
                None => result matches Err(error) && error is InvalidMetadata,
            },
    {
        let mut rows: Vec<(BitStream, usize)> = Vec::new();
        if self.num_bases == 0 {
            assert(table_view(rows@) =~= Seq::empty());
            return Ok(rows);
        }
        if self.delta_count != self.num_bases - 1 {
            return Err(
                EntroGdError::InvalidMetadata {
                    message: two_numbers(
                        "delta_count mismatch: expected ",
                        self.num_bases - 1,
                        ", got ",
                        self.delta_count,
                    ),
                },
            );
        }
        let width: usize = self.first_sort_key.bit_len();
        let mut rank: usize = 0;
        while rank < self.sort_column_order.len()
            invariant
                rank <= self.sort_column_order@.len(),
                width == self@.key_width(),
                self.num_bases > 0,
                forall|r: int| 0 <= r < rank ==> #[trigger] self@.order[r] < width,
            decreases self.sort_column_order@.len() - rank,
        {
            if self.sort_column_order[rank] >= width {
                assert(self@.order[rank as int] >= width);
                return Err(bad_metadata("delta sort column order contains out-of-range index"));
            }
            rank += 1;
        }
        let ghost order = self@.order;
        let ghost first = bits_value(self.first_sort_key@);
        let widths = tier_widths(self.codec_id);
        let columns = key_columns(&self.sort_column_order, width);
        let total: usize = self.delta_bit_stream.bit_len();
        let mut key = self.first_sort_key.clone();
        let mut position: usize = 0;
        let mut count: usize = 0;
        rows.push((scatter_key_to_row(&key, &columns, &self.sort_column_order), 0));
        proof {
            digits_of_value(key@);
        }
        while count < self.delta_count
            invariant
                count <= self.delta_count,
                self.num_bases > 0,
                width == self@.key_width() <= MAX_STREAM_BITS,
                order == self@.order,
                first == bits_value(self.first_sort_key@),
                widths@ == tiers(self.codec_id),
                forall|i: int| 0 <= i < widths@.len() ==> #[trigger] widths@[i] <= 212,
                columns@.len() == width,
                forall|j: int|
                    0 <= j < width ==> #[trigger] columns@[j] == column_of(order, width as nat, j),
                forall|j: int| 0 <= j < width ==> #[trigger] columns@[j] < width,
                total == self@.steps.len(),
                position <= total,
                key@.len() == width,
                decoded_keys(
                    self.codec_id,
                    self@.steps,
                    width as nat,
                    first,
                    count as nat,
                ) matches Some((keys, at)) && at == position && keys.len() == count + 1
                    && keys.last() == bits_value(key@) && rows@.len() == keys.len() && (forall|
                    i: int,
                |
                    0 <= i < rows@.len() ==> (#[trigger] rows@[i]).0@ == row_of_key(
                        low_digits(keys[i], width as nat),
                        order,
                    ) && rows@[i].1 == 0),
            decreases self.delta_count - count,
        {
            let ghost known = decoded_keys(
                self.codec_id,
                self@.steps,
                width as nat,
                first,
                count as nat,
            )->0;
            match decode_adjusted_delta(
                &self.delta_bit_stream,
                position,
                width,
                self.codec_id,
                &widths,
            ) {
                Ok((start, end)) => {
                    let (next, borrowed) = subtract(&key, &self.delta_bit_stream, start, end, true);
                    proof {
                        let taken = self@.steps.subrange(start as int, end as int);
                        fitted_value(taken, width as nat);
                        bits_value_bound(next@);
                        step_wraps(
                            bits_value(key@),
                            bits_value(taken),
                            width as nat,
                            bits_value(next@),
                            borrowed,
                        );
                        digits_of_value(next@);
                    }
                    key = next;
                    rows.push((scatter_key_to_row(&key, &columns, &self.sort_column_order), 0));
                    position = end;
                    proof {
                        let more = decoded_keys(
                            self.codec_id,
                            self@.steps,
                            width as nat,
                            first,
                            count as nat + 1,
                        )->0;
                        assert(more.0 == known.0.push(bits_value(key@)));
                        assert forall|i: int| 0 <= i < rows@.len() implies (
                        #[trigger] rows@[i]).0@ == row_of_key(
                            low_digits(more.0[i], width as nat),
                            order,
                        ) && rows@[i].1 == 0 by {
                            if i < count + 1 {
                                assert(more.0[i] == known.0[i]);
                            }
                        }
                    }
                },
                Err(error) => {
                    proof {
                        undecodable_keys(
                            self.codec_id,
                            self@.steps,
                            width as nat,
                            first,
                            count as nat + 1,
                            self.delta_count as nat,
                        );
                    }
                    return Err(error);
                },
            }
            count += 1;
        }
        if position != total {
            return Err(bad_metadata("delta bitstream has trailing/unused bits"));
        }
        assert(table_view(rows@) =~= self@.rows()->0);
        Ok(rows)
    }
}

/// Keys are read back from the codes of their steps.
#[verifier::spinoff_prover]
#[verifier::rlimit(40)]
proof fn keys_are_read_back(codec_id: u8, keys: Seq<nat>, width: nat, count: nat)
    requires
        codec_id == BASE_TABLE_TAG_DELTA_UNARY || codec_id == BASE_TABLE_TAG_DELTA_FIXED,
        count < keys.len(),
        descending(keys, keys.len() as int),
        forall|i: int| 0 <= i < keys.len() ==> #[trigger] keys[i] < pow2(width),
    ensures
        ({
            let codes = step_codes(codec_id, keys, width);
            decoded_keys(codec_id, join(codes), width, keys[0], count) == Some(
                (keys.take(count as int + 1), join(codes.take(count as int)).len() as int),
            )
        }),
    decreases count,
{
    let codes = step_codes(codec_id, keys, width);
    if count == 0 {
        assert(keys.take(1) =~= seq![keys[0]]);
        assert(codes.take(0) =~= Seq::empty());
    } else {
        let last = count - 1;
        keys_are_read_back(codec_id, keys, width, last as nat);
        let before = codes.take(last);
        let after = codes.skip(count as int);
        assert(keys[count - 1] > keys[count as int]);
        let step = (keys[last] - keys[last + 1] - 1) as nat;
        assert(codes[last] == delta_code(codec_id, step, width));
        assert(codes =~= before.push(codes[last]) + after);
        assert(codes.take(count as int) =~= before.push(codes[last]));
        join_concat(before.push(codes[last]), after);
        join_push(before, codes[last]);
        assert(join(codes) =~= join(before) + codes[last] + join(after));
        delta_code_is_read_back(codec_id, step, width, join(before), join(after));
        assert(keys.take(count as int).last() == keys[last]);
        vstd::arithmetic::div_mod::lemma_small_mod(keys[count as int], pow2(width));
        assert(keys.take(count as int + 1) =~= keys.take(count as int).push(keys[count as int]));
    }
}

/// An order of all columns has each of them at some rank.
proof fn every_column_has_rank(order: Seq<usize>, width: nat, column: int)
    requires
        orders_all(order, width),
        0 <= column < width,
    ensures
        exists|rank: int| 0 <= rank < order.len() && order[rank] == column,
{
    let columns = order.map_values(|x: usize| x as int);
    let all = vstd::set_lib::set_int_range(0, width as int);
    assert(columns.no_duplicates());
    columns.unique_seq_to_set();
    vstd::set_lib::lemma_int_range(0, width as int);
    assert forall|x: int| columns.to_set().contains(x) implies all.contains(x) by {
        let rank = choose|rank: int| 0 <= rank < columns.len() && columns[rank] == x;
        assert(order[rank] < width);
    }
    vstd::set_lib::lemma_subset_equality(columns.to_set(), all);
    assert(columns.to_set().contains(column));
    let rank = choose|rank: int| 0 <= rank < columns.len() && columns[rank] == column;
    assert(order[rank] == column);
}

/// A row is found again from its key if the order names all columns.
pub proof fn row_is_found_again(row: Seq<bool>, order: Seq<usize>)
    requires
        orders_all(order, row.len()),
    ensures
        row_of_key(sort_key(row, order), order) == row,
{
    let key = sort_key(row, order);
    let width = row.len();
    assert forall|column: int| 0 <= column < width implies #[trigger] row_of_key(
        key,
        order,
    )[column] == row[column] by {
        every_column_has_rank(order, width, column);
        let rank = choose|rank: int| 0 <= rank < order.len() && order[rank] == column;
        let place = width - 1 - rank;
        assert(last_rank(order, rank));
        assert(column_of(order, width, place) == order[rank]);
        assert(key[place] == row[column]);
        if column_is_set(key, order, column) {
            let j = choose|j: int|
                0 <= j < key.len() && #[trigger] key[j] && column_of(order, key.len(), j) == column;
            assert(order[width - 1 - j] == order[rank]);
        }
    }
    assert(row_of_key(key, order) =~= row);
}

/// A base table is found again from its differences, but for how often its bases occur.
pub proof fn delta_table_is_lossless(
    rows: Seq<(Seq<bool>, usize)>,
    order: Seq<usize>,
    codec_id: u8,
    width: nat,
)
    requires
        codec_id == BASE_TABLE_TAG_DELTA_UNARY || codec_id == BASE_TABLE_TAG_DELTA_FIXED,
        rows.len() > 0,
        rows_uniform(rows, width),
        orders_all(order, width),
        descending(key_numbers(rows, order), rows.len() as int),
    ensures
        (DeltaView {
            num_bases: rows.len(),
            first_sort_key: sort_key(rows[0].0, order),
            steps: join(step_codes(codec_id, key_numbers(rows, order), width)),
            delta_count: (rows.len() - 1) as nat,
            order,
            codec_id,
        }).rows() == Some(Seq::new(rows.len(), |i: int| (rows[i].0, 0usize))),
{
    let keys = key_numbers(rows, order);
    let codes = step_codes(codec_id, keys, width);
    let table = DeltaView {
        num_bases: rows.len(),
        first_sort_key: sort_key(rows[0].0, order),
        steps: join(codes),
        delta_count: (rows.len() - 1) as nat,
        order,
        codec_id,
    };
    assert(rows[0].0.len() == width);
    assert forall|i: int| 0 <= i < keys.len() implies #[trigger] keys[i] < pow2(width) by {
        assert(rows[i].0.len() == width);
        bits_value_bound(sort_key(rows[i].0, order));
    }
    keys_are_read_back(codec_id, keys, width, (rows.len() - 1) as nat);
    assert(keys.take(keys.len() as int) =~= keys);
    assert(codes.take(codes.len() as int) =~= codes);
    let found = table.rows()->0;
    assert forall|i: int| 0 <= i < rows.len() implies #[trigger] found[i] == (rows[i].0, 0usize) by {
        assert(rows[i].0.len() == width);
        digits_of_value(sort_key(rows[i].0, order));
        row_is_found_again(rows[i].0, order);
    }
    assert(found =~= Seq::new(rows.len(), |i: int| (rows[i].0, 0usize)));
}

} // verus!
