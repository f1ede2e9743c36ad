//! Rows as symbols whose base numbers have the most significant bit first.
use vstd::prelude::*;

use crate::bits::{high_digits_first, join, join_push, join_uniform, BitStream, MAX_STREAM_BITS};
use crate::dataset::{BitData, BitDataSet};
use crate::encoding::deviation::{DeviationData, DeviationView};
use crate::encoding::huffman::{all_digits_spell, spelled};
use crate::encoding::layout::{clear_count, unmasked, unmasked_len};
use crate::utils::{bits_needed, bits_needed_nonzero, is_least_width, least_width_is_needed};

verus! {

/// The contents of groups of rows.
pub open spec fn group_views(groups: Seq<Vec<usize>>) -> Seq<Seq<usize>> {
    Seq::new(groups.len(), |g: int| groups[g]@)
}

/// The number of the last group that holds a row, or zero where none does.
pub open spec fn group_of(groups: Seq<Seq<usize>>, row: int) -> int
    decreases groups.len(),
{
    if groups.len() == 0 {
        0
    } else if groups.last().contains(row as usize) {
        groups.len() - 1
    } else {
        group_of(groups.drop_last(), row)
    }
}

/// Whether groups hold only rows that there are.
pub open spec fn groups_within(groups: Seq<Seq<usize>>, num_rows: nat) -> bool {
    forall|g: int, k: int|
        0 <= g < groups.len() && 0 <= k < groups[g].len() ==> #[trigger] groups[g][k] < num_rows
}

/// The symbol of a row: its bits that the mask leaves clear, then the number of its group.
pub open spec fn group_symbol(
    data: BitData,
    mask: Seq<bool>,
    groups: Seq<Seq<usize>>,
    row: int,
) -> Seq<bool> {
    unmasked(data.row(row), mask) + high_digits_first(
        group_of(groups, row) as nat,
        bits_needed(groups.len()),
    )
}

/// The symbols of all rows.
pub open spec fn group_symbols(data: BitData, mask: Seq<bool>, groups: Seq<Seq<usize>>) -> Seq<
    Seq<bool>,
> {
    Seq::new(data.num_rows as nat, |row: int| group_symbol(data, mask, groups, row))
}

/// Rows as symbols of one width.
pub open spec fn group_encoded(
    data: BitData,
    mask: Seq<bool>,
    groups: Seq<Seq<usize>>,
) -> DeviationView {
    DeviationView {
        bits: join(group_symbols(data, mask, groups)),
        num_samples: data.num_rows as nat,
        num_deviation_bits: clear_count(mask),
        num_id_bits: bits_needed(groups.len()),
    }
}

/// Notes the number of a group for its rows.
fn note_group(ids: &mut Vec<usize>, group: &Vec<usize>, id: usize)
    requires
        forall|k: int| 0 <= k < group@.len() ==> #[trigger] group@[k] < old(ids)@.len(),
    ensures
        final(ids)@.len() == old(ids)@.len(),
        forall|row: int|
            0 <= row < final(ids)@.len() ==> #[trigger] final(ids)@[row] == (if group@.contains(
                row as usize,
            ) {
                id
            } else {
                old(ids)@[row]
            }),
{
    let mut k: usize = 0;
    let rows: usize = ids.len();
    while k < group.len()
        invariant
            k <= group@.len(),
            ids@.len() == old(ids)@.len() == rows,
            forall|j: int| 0 <= j < group@.len() ==> #[trigger] group@[j] < old(ids)@.len(),
            forall|row: int|
                0 <= row < ids@.len() ==> #[trigger] ids@[row] == (if group@.take(k as int).contains(
                    row as usize,
                ) {
                    id
                } else {
                    old(ids)@[row]
                }),
        decreases group@.len() - k,
    {
        let ghost before = ids@;
        ids.set(group[k], id);
        proof {
            let shorter = group@.take(k as int);
            let longer = group@.take(k as int + 1);
            assert(longer[k as int] == group@[k as int]);
            assert forall|row: int| 0 <= row < ids@.len() implies #[trigger] ids@[row] == (
            if longer.contains(row as usize) {
                id
            } else {
                old(ids)@[row]
            }) by {
                assert(before[row] == before[row]);
                if shorter.contains(row as usize) {
                    let j = choose|j: int| 0 <= j < shorter.len() && shorter[j] == row as usize;
                    assert(longer[j] == row as usize);
                }
                if longer.contains(row as usize) && row != group@[k as int] {
                    let j = choose|j: int| 0 <= j < longer.len() && longer[j] == row as usize;
                    assert(shorter[j] == row as usize);
                }
            }
        }
        k += 1;
    }
    assert(group@.take(k as int) =~= group@);
}

/// The number of the group of each row.
fn group_numbers(groups: &Vec<Vec<usize>>, num_rows: usize) -> (ids: Vec<usize>)
    requires
        groups_within(group_views(groups@), num_rows as nat),
    ensures
        ids@.len() == num_rows,
        forall|row: int|
            0 <= row < num_rows ==> #[trigger] ids@[row] == group_of(group_views(groups@), row),
{
    let mut ids: Vec<usize> = Vec::new();
    let mut row: usize = 0;
    while row < num_rows
        invariant
            row <= num_rows,
            ids@.len() == row,
            forall|k: int| 0 <= k < row ==> #[trigger] ids@[k] == 0,
        decreases num_rows - row,
    {
        ids.push(0);
        row += 1;
    }
    let ghost all = group_views(groups@);
    let mut g: usize = 0;
    while g < groups.len()
        invariant
            g <= groups@.len(),
            all == group_views(groups@),
            groups_within(all, num_rows as nat),
            ids@.len() == num_rows,
            forall|row: int|
                0 <= row < num_rows ==> #[trigger] ids@[row] == group_of(all.take(g as int), row),
        decreases groups@.len() - g,
    {
        proof {
            assert forall|k: int| 0 <= k < groups@[g as int]@.len() implies #[trigger] groups@[g as int]@[k]
                < num_rows by {
                assert(all[g as int][k] < num_rows);
            }
            assert(all.take(g as int + 1).drop_last() =~= all.take(g as int));
            assert(all.take(g as int + 1).last() == groups@[g as int]@);
        }
        note_group(&mut ids, &groups[g], g);
        g += 1;
    }
    assert(all.take(g as int) =~= all);
    ids
}

/// Appends the bits of a row that a mask leaves clear.
fn append_unmasked(out: &mut BitStream, bit_data: &BitDataSet, row: usize, mask: &BitStream)
    requires
        bit_data.data.valid(),
        row < bit_data.data.num_rows,
        mask@.len() == bit_data.data.chunk_size,
        old(out)@.len() + clear_count(mask@) <= MAX_STREAM_BITS,
    ensures
        final(out)@ == old(out)@ + unmasked(bit_data.data.row(row as int), mask@),
{
    let ghost bits = bit_data.data.row(row as int);
    let mut position: usize = 0;
    proof {
        unmasked_len(bits, mask@);
    }
    while position < bit_data.chunk_size()
        invariant
            bit_data.data.valid(),
            row < bit_data.data.num_rows,
            bits == bit_data.data.row(row as int),
            position <= mask@.len() == bit_data.data.chunk_size,
            old(out)@.len() + clear_count(mask@) <= MAX_STREAM_BITS,
            out@ == old(out)@ + unmasked(bits, mask@.take(position as int)),
        decreases bit_data.data.chunk_size - position,
    {
        proof {
            let longer = mask@.take(position as int + 1);
            assert(longer.drop_last() =~= mask@.take(position as int));
            unmasked_len(bits, longer);
            clear_count_grows(mask@, position as int + 1);
        }
        if !mask.bit(position) {
            out.append_bit(bit_data.data.get_bit(row, position));
        }
        position += 1;
    }
    assert(mask@.take(position as int) =~= mask@);
}

/// A prefix of a mask has no more clear positions than the whole mask.
proof fn clear_count_grows(mask: Seq<bool>, n: int)
    requires
        0 <= n <= mask.len(),
    ensures
        clear_count(mask.take(n)) <= clear_count(mask),
    decreases mask.len() - n,
{
    if n < mask.len() {
        clear_count_grows(mask, n + 1);
        assert(mask.take(n + 1).drop_last() =~= mask.take(n));
    } else {
        assert(mask.take(n) =~= mask);
    }
}

/// The number of clear positions of a mask.
fn count_clear(mask: &BitStream) -> (count: usize)
    ensures
        count == clear_count(mask@),
{
    let total: usize = mask.bit_len();
    let mut count: usize = 0;
    let mut position: usize = 0;
    while position < total
        invariant
            position <= total == mask@.len(),
            count == clear_count(mask@.take(position as int)),
            count <= position,
        decreases total - position,
    {
        assert(mask@.take(position as int + 1).drop_last() =~= mask@.take(position as int));
        if !mask.bit(position) {
            count += 1;
        }
        position += 1;
    }
    assert(mask@.take(position as int) =~= mask@);
    count
}

/// Rows as symbols of one width: of each row the bits that the mask leaves clear, then the number
/// of the group that holds it.
pub fn encode_data(bit_data: &BitDataSet, base_bit_mask: &BitStream, groups: &Vec<Vec<usize>>) -> (
    data: DeviationData)
    requires
        bit_data.data.valid(),
        base_bit_mask@.len() == bit_data.data.chunk_size,
        groups_within(group_views(groups@), bit_data.data.num_rows as nat),
        bit_data.data.num_rows * (clear_count(base_bit_mask@) + bits_needed(groups@.len()))
            <= MAX_STREAM_BITS,
    ensures
        data@ == group_encoded(bit_data.data, base_bit_mask@, group_views(groups@)),
{
    let l_id: usize = bits_needed_nonzero(groups.len());
    let num_deviation_bits: usize = count_clear(base_bit_mask);
    let num_rows: usize = bit_data.num_rows();
    let ids = group_numbers(groups, num_rows);
    let ghost mask = base_bit_mask@;
    let ghost all = group_views(groups@);
    let ghost symbols = group_symbols(bit_data.data, mask, all);
    let ghost width = clear_count(mask) + bits_needed(groups@.len());
    let mut stream = BitStream::empty();
    let mut row: usize = 0;
    proof {
        assert(symbols.take(0) =~= Seq::empty());
        assert forall|k: int| 0 <= k < symbols.len() implies (#[trigger] symbols[k]).len() == width by {
            unmasked_len(bit_data.data.row(k), mask);
        }
    }
    while row < num_rows
        invariant
            bit_data.data.valid(),
            mask == base_bit_mask@,
            mask.len() == bit_data.data.chunk_size,
            all == group_views(groups@),
            symbols == group_symbols(bit_data.data, mask, all),
            width == clear_count(mask) + bits_needed(groups@.len()),
            l_id == bits_needed(groups@.len()),
            l_id <= 64,
            row <= num_rows == bit_data.data.num_rows,
            num_rows * width <= MAX_STREAM_BITS,
            ids@.len() == num_rows,
            forall|k: int| 0 <= k < num_rows ==> #[trigger] ids@[k] == group_of(all, k),
            forall|k: int| 0 <= k < symbols.len() ==> (#[trigger] symbols[k]).len() == width,
            stream@ == join(symbols.take(row as int)),
        decreases num_rows - row,
    {
        proof {
            join_uniform(symbols.take(row as int), width);
            assert(row * width + width <= num_rows * width) by (nonlinear_arith)
                requires
                    row < num_rows,
            ;
            unmasked_len(bit_data.data.row(row as int), mask);
        }
        append_unmasked(&mut stream, bit_data, row, base_bit_mask);
        stream.append_high_first(ids[row] as u64, l_id);
        proof {
            assert(symbols.take(row as int + 1) =~= symbols.take(row as int).push(
                symbols[row as int],
            ));
            join_push(symbols.take(row as int), symbols[row as int]);
            assert(stream@ =~= join(symbols.take(row as int + 1)));
        }
        row += 1;
    }
    assert(symbols.take(row as int) =~= symbols);
    DeviationData::new(stream, num_rows, num_deviation_bits, l_id)
}

/// A row has the number of the last group that lists it.
proof fn last_group_counts(groups: Seq<Seq<usize>>, row: usize, g: int)
    requires
        0 <= g < groups.len(),
        groups[g].contains(row),
        forall|later: int| g < later < groups.len() ==> !(#[trigger] groups[later]).contains(row),
    ensures
        group_of(groups, row as int) == g,
    decreases groups.len(),
{
    if g < groups.len() - 1 {
        assert(!groups[groups.len() - 1].contains(row));
        last_group_counts(groups.drop_last(), row, g);
    }
}

/// Of an encoded row just the bits come back that the mask leaves clear, and the number of the last group
/// that lists it, its digits the most significant one first, in the least width that tells the groups
/// apart.
pub proof fn row_of_group_comes_back(
    data: BitData,
    mask: Seq<bool>,
    groups: Seq<Seq<usize>>,
    row: usize,
    g: int,
    id_bits: nat,
)
    requires
        row < data.num_rows,
        0 <= g < groups.len(),
        groups[g].contains(row),
        forall|later: int| g < later < groups.len() ==> !(#[trigger] groups[later]).contains(row),
        is_least_width(id_bits, groups.len()),
    ensures
        ({
            let encoded = group_encoded(data, mask, groups);
            let sample = encoded.sample(row as int);
            &&& encoded.num_samples == data.num_rows
            &&& encoded.bits.len() == encoded.num_samples * (clear_count(mask) + id_bits)
            &&& sample.deviation == unmasked(data.row(row as int), mask)
            &&& sample.id.len() == id_bits
            &&& spelled(sample.id, 0, id_bits) == g
        }),
{
    let encoded = group_encoded(data, mask, groups);
    let symbols = group_symbols(data, mask, groups);
    last_group_counts(groups, row, g);
    least_width_is_needed(id_bits, groups.len());
    assert forall|i: int| 0 <= i < symbols.len() implies (#[trigger] symbols[i]).len()
        == clear_count(mask) + id_bits by {
        unmasked_len(data.row(i), mask);
    }
    join_uniform(symbols, clear_count(mask) + id_bits);
    unmasked_len(data.row(row as int), mask);
    let symbol = symbols[row as int];
    assert(symbol == encoded.bits.subrange(
        row * (clear_count(mask) + id_bits),
        row * (clear_count(mask) + id_bits) + (clear_count(mask) + id_bits),
    ));
    let own = unmasked(data.row(row as int), mask);
    assert(symbol.take(clear_count(mask) as int) =~= own);
    assert(symbol.skip(clear_count(mask) as int) =~= high_digits_first(g as nat, id_bits));
    all_digits_spell(g as nat, id_bits);
    assert(encoded.sample(row as int).id == high_digits_first(g as nat, id_bits));
}

} // verus!
