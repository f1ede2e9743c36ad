//! From rows to symbols: the deviation bits of a row followed by the number of its base.
use vstd::prelude::*;

use crate::base_table::{
    positions, positions_bounded, BaseBitLayoutState, BaseLayoutInfo, PositionKind,
    PreEncodeContext,
};
use crate::bits::{join, join_push, join_uniform, low_digits, BitStream, MAX_STREAM_BITS};
use crate::dataset::row_in_bounds;
use crate::utils::{bits_needed, bits_needed_nonzero};

verus! {

/// Which bits of a row are base bits.
pub open spec fn base_mask(states: Seq<BaseBitLayoutState>) -> Seq<bool> {
    Seq::new(states.len(), |i: int| states[i] != BaseBitLayoutState::Deviation)
}

/// The bits of a row at the positions that the mask leaves clear, in ascending order.
pub open spec fn unmasked(row: Seq<bool>, mask: Seq<bool>) -> Seq<bool>
    decreases mask.len(),
{
    if mask.len() == 0 {
        Seq::empty()
    } else {
        let before = unmasked(row, mask.drop_last());
        if mask.last() {
            before
        } else {
            before.push(row[mask.len() - 1])
        }
    }
}

/// The number of clear positions of a mask.
pub open spec fn clear_count(mask: Seq<bool>) -> nat
    decreases mask.len(),
{
    if mask.len() == 0 {
        0
    } else {
        clear_count(mask.drop_last()) + (if mask.last() { 0nat } else { 1nat })
    }
}

/// A row has as many unmasked bits as the mask has clear positions.
pub proof fn unmasked_len(row: Seq<bool>, mask: Seq<bool>)
    ensures
        unmasked(row, mask).len() == clear_count(mask),
        clear_count(mask) <= mask.len(),
    decreases mask.len(),
{
    if mask.len() > 0 {
        unmasked_len(row, mask.drop_last());
    }
}

/// The positions that are not deviations are those that the base mask sets.
pub proof fn clear_count_of_states(states: Seq<BaseBitLayoutState>)
    ensures
        clear_count(base_mask(states)) == states.len() - positions(
            states,
            PositionKind::Selected,
        ).len(),
    decreases states.len(),
{
    if states.len() > 0 {
        clear_count_of_states(states.drop_last());
        assert(base_mask(states).drop_last() =~= base_mask(states.drop_last()));
    }
}

/// The unmasked bits up to `end` are those up to `start` and the whole range between, where
/// the range is clear, and no more where it is set.
proof fn unmasked_over_range(row: Seq<bool>, mask: Seq<bool>, start: int, end: int, clear: bool)
    requires
        0 <= start <= end <= mask.len(),
        mask.len() <= row.len(),
        forall|p: int| start <= p < end ==> mask[p] == !clear,
    ensures
        unmasked(row, mask.take(end)) == unmasked(row, mask.take(start)) + (if clear {
            row.subrange(start, end)
        } else {
            Seq::empty()
        }),
    decreases end - start,
{
    if start < end {
        unmasked_over_range(row, mask, start, end - 1, clear);
        assert(mask.take(end).drop_last() =~= mask.take(end - 1));
        if clear {
            assert(row.subrange(start, end) =~= row.subrange(start, end - 1).push(row[end - 1]));
        }
    } else {
        assert(row.subrange(start, end) =~= Seq::empty());
    }
}

/// Whether `ranges` are the maximal runs of clear positions of the first `len` ones.
pub open spec fn are_clear_runs(ranges: Seq<(usize, usize)>, mask: Seq<bool>, len: int) -> bool {
    &&& forall|k: int| 0 <= k < ranges.len() ==> (#[trigger] ranges[k]).0 < ranges[k].1 <= len
    &&& forall|i: int, j: int|
        0 <= i < j < ranges.len() ==> (#[trigger] ranges[i]).1 < (#[trigger] ranges[j]).0
    &&& forall|k: int, p: int|
        0 <= k < ranges.len() && (#[trigger] ranges[k]).0 <= p < ranges[k].1
            ==> !#[trigger] mask[p]
    &&& forall|p: int|
        0 <= p < len && !#[trigger] mask[p] ==> exists|k: int|
            0 <= k < ranges.len() && (#[trigger] ranges[k]).0 <= p < ranges[k].1
}

/// The maximal runs of clear positions among the first ones of a mask, as pairs of start and end.
pub fn build_deviation_ranges(base_bit_mask: &BitStream, chunk_size: usize) -> (ranges: Vec<
    (usize, usize),
>)
    requires
        chunk_size <= base_bit_mask@.len(),
    ensures
        are_clear_runs(ranges@, base_bit_mask@, chunk_size as int),
{
    let ghost mask = base_bit_mask@;
    let mut ranges: Vec<(usize, usize)> = Vec::new();
    let mut run_start: usize = 0;
    let mut position: usize = 0;
    // `run_start..position` is the run of clear positions that is still open.
    while position < chunk_size
        invariant
            chunk_size <= base_bit_mask@.len(),
            mask == base_bit_mask@,
            run_start <= position <= chunk_size,
            forall|p: int| run_start <= p < position ==> !#[trigger] mask[p],
            run_start > 0 ==> mask[run_start - 1],
            are_clear_runs(ranges@, mask, run_start as int),
            forall|k: int| 0 <= k < ranges@.len() ==> (#[trigger] ranges@[k]).1 < run_start,
        decreases chunk_size - position,
    {
        if base_bit_mask.bit(position) {
            let ghost before = ranges@;
            if run_start < position {
                ranges.push((run_start, position));
                proof {
                    assert forall|p: int|
                        0 <= p < position + 1 && !#[trigger] mask[p] implies exists|k: int|
                        0 <= k < ranges@.len() && (#[trigger] ranges@[k]).0 <= p < ranges@[k].1 by {
                        if p < run_start {
                            let k = choose|k: int|
                                0 <= k < before.len() && (#[trigger] before[k]).0 <= p
                                    < before[k].1;
                            assert(ranges@[k] == before[k]);
                        } else {
                            assert(ranges@[before.len() as int] == (run_start, position));
                        }
                    }
                }
            }
            run_start = position + 1;
        }
        position += 1;
    }
    if run_start < chunk_size {
        let ghost before = ranges@;
        ranges.push((run_start, chunk_size));
        proof {
            assert forall|p: int| 0 <= p < chunk_size && !#[trigger] mask[p] implies exists|k: int|
                0 <= k < ranges@.len() && (#[trigger] ranges@[k]).0 <= p < ranges@[k].1 by {
                if p < run_start {
                    let k = choose|k: int|
                        0 <= k < before.len() && (#[trigger] before[k]).0 <= p < before[k].1;
                    assert(ranges@[k] == before[k]);
                } else {
                    assert(ranges@[before.len() as int] == (run_start, chunk_size));
                }
            }
        }
    }
    ranges
}

/// The number of bits of a row that are stored per row.
pub open spec fn deviation_width(context: PreEncodeContext) -> nat {
    clear_count(base_mask(context.layout@))
}

/// The number of bits that tell the bases of the table apart.
pub open spec fn id_width(context: PreEncodeContext) -> nat {
    bits_needed(context.variable_base_table@.len())
}

/// The symbol of a row: its deviation bits, then the number of its base.
pub open spec fn row_symbol(context: PreEncodeContext, row: int) -> Seq<bool> {
    unmasked(context.bit_data.data.row(row), base_mask(context.layout@)) + low_digits(
        context.row_to_base_id@[row] as nat,
        id_width(context),
    )
}

/// The symbols of all rows, in order.
pub open spec fn row_symbols(context: PreEncodeContext) -> Seq<Seq<bool>> {
    Seq::new(context.bit_data.data.num_rows as nat, |row: int| row_symbol(context, row))
}

/// All symbols of a context have the width of its layout.
pub proof fn row_symbols_uniform(context: PreEncodeContext)
    ensures
        forall|row: int|
            0 <= row < row_symbols(context).len() ==> (#[trigger] row_symbols(context)[row]).len()
                == deviation_width(context) + id_width(context),
{
    assert forall|row: int| 0 <= row < row_symbols(context).len() implies (
    #[trigger] row_symbols(context)[row]).len() == deviation_width(context) + id_width(context) by {
        unmasked_len(context.bit_data.data.row(row), base_mask(context.layout@));
    }
}

/// The width of the deviation part of a symbol, the width of its base number, and the runs of
/// deviation bits of a row.
pub fn derive_symbol_layout(input: &PreEncodeContext) -> (layout: (
    usize,
    usize,
    Vec<(usize, usize)>,
))
    requires
        input.valid(),
        input.layout@.len() <= MAX_STREAM_BITS,
    ensures
        layout.0 == deviation_width(*input),
        layout.1 == id_width(*input),
        1 <= layout.1 <= 64,
        are_clear_runs(layout.2@, base_mask(input.layout@), input.layout@.len() as int),
        layout.0 <= input.layout@.len(),
{
    let chunk_size: usize = input.bit_data.chunk_size();
    let selected: Vec<usize> = input.layout.selected_base_bit_positions();
    proof {
        positions_bounded(input.layout@, PositionKind::Selected);
        clear_count_of_states(input.layout@);
    }
    let num_deviation_bits: usize = chunk_size - selected.len();
    let l_id: usize = bits_needed_nonzero(input.variable_base_table.len());
    let mask = mark_positions(&input.layout, &selected, chunk_size);
    let ranges = build_deviation_ranges(&mask, chunk_size);
    (num_deviation_bits, l_id, ranges)
}

/// The mask that is set at the selected positions of a layout.
fn mark_positions(layout: &BaseLayoutInfo, selected: &Vec<usize>, chunk_size: usize) -> (mask:
    BitStream)
    requires
        layout@.len() == chunk_size <= MAX_STREAM_BITS,
        selected@ == positions(layout@, PositionKind::Selected),
    ensures
        mask@ == base_mask(layout@),
{
    let mut mask = BitStream::filled(false, chunk_size);
    let mut i: usize = 0;
    proof {
        positions_bounded(layout@, PositionKind::Selected);
    }
    while i < selected.len()
        invariant
            i <= selected@.len(),
            mask@.len() == chunk_size == layout@.len(),
            selected@ == positions(layout@, PositionKind::Selected),
            forall|k: int| 0 <= k < selected@.len() ==> #[trigger] selected@[k] < chunk_size,
            forall|p: int|
                0 <= p < chunk_size ==> #[trigger] mask@[p] == selected@.take(i as int).contains(
                    p as usize,
                ),
        decreases selected@.len() - i,
    {
        let position: usize = selected[i];
        let ghost before = mask@;
        mask.put_bit(position, true);
        proof {
            let done = selected@.take(i as int);
            let more = selected@.take(i as int + 1);
            assert(more =~= done.push(position));
            assert forall|p: int| 0 <= p < chunk_size implies #[trigger] mask@[p] == more.contains(
                p as usize,
            ) by {
                if p == position {
                    assert(more[i as int] == p as usize);
                } else {
                    assert(before[p] == done.contains(p as usize));
                    if done.contains(p as usize) {
                        let k = choose|k: int| 0 <= k < done.len() && done[k] == p as usize;
                        assert(more[k] == p as usize);
                    }
                    if more.contains(p as usize) {
                        let k = choose|k: int| 0 <= k < more.len() && more[k] == p as usize;
                        assert(done[k] == p as usize);
                    }
                }
            }
        }
        i += 1;
    }
    proof {
        assert(selected@.take(i as int) =~= selected@);
        assert forall|p: int| 0 <= p < chunk_size implies mask@[p] == base_mask(layout@)[p] by {
            selected_iff_masked(layout@, p);
        }
        assert(mask@ =~= base_mask(layout@));
    }
    mask
}

/// A position is among the selected ones exactly if it is not a deviation.
proof fn selected_iff_masked(states: Seq<BaseBitLayoutState>, p: int)
    requires
        0 <= p < states.len() <= usize::MAX,
    ensures
        positions(states, PositionKind::Selected).contains(p as usize) == (states[p]
            != BaseBitLayoutState::Deviation),
    decreases states.len(),
{
    let before = positions(states.drop_last(), PositionKind::Selected);
    let all = positions(states, PositionKind::Selected);
    positions_bounded(states, PositionKind::Selected);
    if p < states.len() - 1 {
        selected_iff_masked(states.drop_last(), p);
        if before.contains(p as usize) {
            let k = choose|k: int| 0 <= k < before.len() && before[k] == p as usize;
            assert(all[k] == p as usize);
        }
        if all.contains(p as usize) {
            let k = choose|k: int| 0 <= k < all.len() && all[k] == p as usize;
            assert(k < before.len());
            assert(before[k] == p as usize);
        }
    } else if states[p] != BaseBitLayoutState::Deviation {
        assert(all.last() == p as usize);
    }
}

/// The numbers of the bases as bits, the least significant one first.
pub fn build_id_bits_per_base(l_id: usize, num_bases: usize) -> (id_bits: Vec<BitStream>)
    requires
        l_id <= 64,
    ensures
        id_bits@.len() == (if l_id > 0 { num_bases as nat } else { 0 }),
        forall|id: int|
            0 <= id < id_bits@.len() ==> (#[trigger] id_bits@[id])@ == low_digits(
                id as nat,
                l_id as nat,
            ),
{
    let mut id_bits: Vec<BitStream> = Vec::new();
    if l_id > 0 {
        let mut id: usize = 0;
        while id < num_bases
            invariant
                0 < l_id <= 64,
                id <= num_bases,
                id_bits@.len() == id,
                forall|k: int|
                    0 <= k < id ==> (#[trigger] id_bits@[k])@ == low_digits(k as nat, l_id as nat),
            decreases num_bases - id,
        {
            let mut bits = BitStream::filled(false, l_id);
            bits.put_number(0, l_id, id as u64);
            assert(bits@ =~= low_digits(id as nat, l_id as nat));
            id_bits.push(bits);
            id += 1;
        }
    }
    id_bits
}

/// Appends the deviation bits of one row.
pub fn append_deviation_bits(
    out: &mut BitStream,
    input: &PreEncodeContext,
    row: usize,
    ranges: &Vec<(usize, usize)>,
)
    requires
        input.valid(),
        row < input.bit_data.data.num_rows,
        are_clear_runs(ranges@, base_mask(input.layout@), input.layout@.len() as int),
        old(out)@.len() + deviation_width(*input) <= MAX_STREAM_BITS,
    ensures
        final(out)@ == old(out)@ + unmasked(
            input.bit_data.data.row(row as int),
            base_mask(input.layout@),
        ),
{
    let ghost mask = base_mask(input.layout@);
    let ghost bits = input.bit_data.data.row(row as int);
    let ghost n = mask.len() as int;
    proof {
        row_in_bounds(
            row as int,
            input.bit_data.data.num_rows as int,
            input.bit_data.data.stride as int,
            input.bit_data.data.chunk_size as int,
        );
        unmasked_len(bits, mask);
        assert(mask.take(0) =~= Seq::empty());
        assert(mask.take(n) =~= mask);
    }
    let total: usize = input.bit_data.data.data.bit_len();
    let row_start: usize = row * input.bit_data.data.stride;
    let mut k: usize = 0;
    let ghost mut done: int = 0;
    while k < ranges.len()
        invariant
            input.valid(),
            row < input.bit_data.data.num_rows,
            k <= ranges@.len(),
            mask == base_mask(input.layout@),
            bits == input.bit_data.data.row(row as int),
            n == mask.len() == bits.len(),
            are_clear_runs(ranges@, mask, n),
            row_start == row * input.bit_data.data.stride,
            row_start + n <= input.bit_data.data.data@.len() <= MAX_STREAM_BITS,
            unmasked(bits, mask).len() == deviation_width(*input),
            mask.take(n) == mask,
            old(out)@.len() + deviation_width(*input) <= MAX_STREAM_BITS,
            0 <= done <= n,
            done == (if k == 0 { 0 } else { ranges@[k - 1].1 as int }),
            out@ == old(out)@ + unmasked(bits, mask.take(done)),
        decreases ranges@.len() - k,
    {
        let (start, end) = ranges[k];
        proof {
            assert(done <= start) by {
                if k > 0 {
                    assert(ranges@[k - 1].1 < ranges@[k as int].0);
                }
            }
            gap_is_masked(ranges@, mask, n, k as int, done);
            unmasked_over_range(bits, mask, done, start as int, false);
            unmasked_over_range(bits, mask, start as int, end as int, true);
            assert forall|p: int| done <= p < start implies mask[p] by {}
            unmasked_prefix_len(bits, mask, end as int);
        }
        out.append_range(&input.bit_data.data.data, row_start + start, row_start + end);
        proof {
            assert(input.bit_data.data.data@.subrange(row_start + start, row_start + end)
                =~= bits.subrange(start as int, end as int));
            assert(unmasked(bits, mask.take(done)) + Seq::<bool>::empty() =~= unmasked(
                bits,
                mask.take(done),
            ));
            assert(out@ =~= old(out)@ + unmasked(bits, mask.take(end as int)));
            done = end as int;
        }
        k += 1;
    }
    proof {
        gap_is_masked(ranges@, mask, n, k as int, done);
        unmasked_over_range(bits, mask, done, n, false);
        assert(unmasked(bits, mask.take(done)) + Seq::<bool>::empty() =~= unmasked(
            bits,
            mask.take(done),
        ));
    }
}

/// Between two runs of clear positions everything is set.
proof fn gap_is_masked(ranges: Seq<(usize, usize)>, mask: Seq<bool>, n: int, k: int, done: int)
    requires
        are_clear_runs(ranges, mask, n),
        n == mask.len(),
        0 <= k <= ranges.len(),
        done == (if k == 0 { 0 } else { ranges[k - 1].1 as int }),
    ensures
        forall|p: int|
            done <= p < (if k < ranges.len() { ranges[k].0 as int } else { n }) ==> #[trigger] mask[p],
{
    assert forall|p: int|
        done <= p < (if k < ranges.len() { ranges[k].0 as int } else { n }) implies #[trigger] mask[p] by {
        if !mask[p] {
            let j = choose|j: int|
                0 <= j < ranges.len() && (#[trigger] ranges[j]).0 <= p < ranges[j].1;
            if j < k - 1 {
                assert(ranges[j].1 < ranges[k - 1].0);
            } else if j > k {
                assert(ranges[k].1 < ranges[j].0);
            }
        }
    }
}

/// A prefix of a mask leaves no more bits than the whole mask.
proof fn unmasked_prefix_len(row: Seq<bool>, mask: Seq<bool>, i: int)
    requires
        0 <= i <= mask.len(),
    ensures
        unmasked(row, mask.take(i)).len() <= unmasked(row, mask).len(),
    decreases mask.len() - i,
{
    if i < mask.len() {
        unmasked_prefix_len(row, mask, i + 1);
        assert(mask.take(i + 1).drop_last() =~= mask.take(i));
    } else {
        assert(mask.take(i) =~= mask);
    }
}

/// The symbols of all rows, one behind the other.
pub fn encode_rows_as_symbol_stream(
    input: &PreEncodeContext,
    l_id: usize,
    deviation_ranges: &Vec<(usize, usize)>,
    id_bits_per_base: &Vec<BitStream>,
) -> (stream: BitStream)
    requires
        input.valid(),
        l_id == id_width(*input),
        are_clear_runs(deviation_ranges@, base_mask(input.layout@), input.layout@.len() as int),
        id_bits_per_base@.len() == input.variable_base_table@.len(),
        forall|id: int|
            0 <= id < id_bits_per_base@.len() ==> (#[trigger] id_bits_per_base@[id])@ == low_digits(
                id as nat,
                l_id as nat,
            ),
        input.bit_data.data.num_rows * (deviation_width(*input) + id_width(*input))
            <= MAX_STREAM_BITS,
    ensures
        stream@ == join(row_symbols(*input)),
{
    let num_rows: usize = input.bit_data.num_rows();
    let ghost symbols = row_symbols(*input);
    let ghost width = deviation_width(*input) + id_width(*input);
    let mut stream = BitStream::empty();
    let mut row: usize = 0;
    proof {
        row_symbols_uniform(*input);
        assert(symbols.take(0) =~= Seq::empty());
    }
    while row < num_rows
        invariant
            input.valid(),
            l_id == id_width(*input),
            are_clear_runs(deviation_ranges@, base_mask(input.layout@), input.layout@.len() as int),
            id_bits_per_base@.len() == input.variable_base_table@.len(),
            forall|id: int|
                0 <= id < id_bits_per_base@.len() ==> (#[trigger] id_bits_per_base@[id])@
                    == low_digits(id as nat, l_id as nat),
            row <= num_rows == input.bit_data.data.num_rows,
            symbols == row_symbols(*input),
            width == deviation_width(*input) + id_width(*input),
            num_rows * width <= MAX_STREAM_BITS,
            forall|k: int| 0 <= k < symbols.len() ==> (#[trigger] symbols[k]).len() == width,
            stream@ == join(symbols.take(row as int)),
        decreases num_rows - row,
    {
        proof {
            join_uniform(symbols.take(row as int), width);
            assert(row * width + width <= num_rows * width) by (nonlinear_arith)
                requires
                    row < num_rows,
            ;
            unmasked_len(input.bit_data.data.row(row as int), base_mask(input.layout@));
        }
        append_deviation_bits(&mut stream, input, row, deviation_ranges);
        let id: usize = input.row_to_base_id[row];
        stream.append_range(&id_bits_per_base[id], 0, l_id);
        proof {
            let id_bits = id_bits_per_base@[id as int]@;
            assert(id_bits.subrange(0, l_id as int) =~= id_bits);
            assert(symbols.take(row as int + 1) =~= symbols.take(row as int).push(
                symbols[row as int],
            ));
            join_push(symbols.take(row as int), symbols[row as int]);
            assert(stream@ =~= join(symbols.take(row as int + 1)));
        }
        row += 1;
    }
    assert(symbols.take(row as int) =~= symbols);
    stream
}

} // verus!
