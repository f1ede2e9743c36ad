//! Run-length encoders of the rows of a context.
use vstd::prelude::*;

use crate::base_table::PreEncodeContext;
use crate::bits::{join, join_concat, join_uniform, BitStream, MAX_STREAM_BITS};
use crate::data::{
    features_width, BitDataInfo, BitDataReconstructionInfo, InfoView, ReconstructionView,
};
use crate::encoding::deviation::{encoded_rows, slot, slot_in_bounds, split_symbol, symbols_fit};
use crate::encoding::layout::{
    build_id_bits_per_base, derive_symbol_layout, deviation_width, encode_rows_as_symbol_stream,
    id_width, row_symbols, row_symbols_uniform,
};
use crate::encoding::rle::{
    codes_for, codes_for_concat, greedy_coding_is_lossless, greedy_pairs, greedy_symbols, next_pair,
    next_pair_advances, pack_symbols, slots, slots_of_join, source, source_in_bounds,
    source_of_concat, writable,
};
use crate::encoding::rle_data::{
    complete, expands_to, row_from, RleDeviationData, RleDeviationOffsetData, RleOffsetView,
    RleView,
};
use crate::error::{bad_metadata, EntroGdError};
use crate::text::two_numbers;

verus! {

/// The least whole number that is no less than a quotient.
pub open spec fn ceil_div(value: nat, by: nat) -> nat {
    if value % by == 0 {
        value / by
    } else {
        value / by + 1
    }
}

/// How the original rows are arranged: their number, the number of groups and the rows of a
/// group. A table has groups of one row; an image has one group for each line of pixel groups.
pub open spec fn row_layout(info: InfoView) -> Option<(nat, nat, nat)> {
    let samples = info.original_size_bits / features_width(info.features);
    match info.reconstruction {
        ReconstructionView::Tabular { .. } => Some((samples, samples, 1)),
        ReconstructionView::Image(image) => {
            let across = image.pixel_grouping.0 as nat;
            let down = image.pixel_grouping.1 as nat;
            if across == 0 || down == 0 {
                None
            } else {
                let count = ceil_div(image.height as nat, down);
                let width = ceil_div(image.width as nat, across);
                if count == 0 && samples == 0 {
                    Some((0, 0, 0))
                } else if count == 0 || width == 0 || count * width != samples {
                    None
                } else {
                    Some((samples, count, width))
                }
            }
        },
    }
}

fn ceil_div_u32(value: u32, by: u32) -> (quotient: usize)
    requires
        by > 0,
    ensures
        quotient == ceil_div(value as nat, by as nat),
{
    let whole: usize = (value / by) as usize;
    proof {
        let v = value as int;
        let b = by as int;
        assert(v / b <= v) by (nonlinear_arith)
            requires
                0 <= v,
                0 < b,
        ;
        assert(v % b != 0 ==> v / b + 1 <= v) by (nonlinear_arith)
            requires
                0 <= v,
                0 < b,
        ;
    }
    if value % by == 0 {
        whole
    } else {
        whole + 1
    }
}

/// How the original rows are arranged: their number, the number of groups, the rows of a group.
pub fn huffman_row_layout(metadata: &BitDataInfo) -> (result: Result<
    (usize, usize, usize),
    EntroGdError,
>)
    requires
        metadata.valid(),
    ensures
        result is Ok <==> row_layout(metadata@) is Some,
        result matches Ok(layout) ==> row_layout(metadata@) == Some(
            (layout.0 as nat, layout.1 as nat, layout.2 as nat),
        ) && layout.0 == layout.1 * layout.2,
        result matches Err(error) ==> error is InvalidMetadata,
{
    let samples: usize = metadata.original_size_bits() / metadata.chunk_size();
    match &metadata.reconstruction {
        BitDataReconstructionInfo::Image(info) => {
            let across: u32 = info.pixel_grouping.width();
            let down: u32 = info.pixel_grouping.height();
            if across == 0 || down == 0 {
                return Err(bad_metadata("image pixel_grouping width and height must be > 0"));
            }
            let row_count: usize = ceil_div_u32(info.height, down);
            let row_width: usize = ceil_div_u32(info.width, across);
            if row_count == 0 && samples == 0 {
                return Ok((0, 0, 0));
            }
            if row_count == 0 || row_width == 0 {
                return Err(
                    EntroGdError::InvalidMetadata {
                        message: two_numbers(
                            "invalid image row layout width=",
                            info.width as usize,
                            " height=",
                            info.height as usize,
                        ),
                    },
                );
            }
            match row_count.checked_mul(row_width) {
                None => Err(bad_metadata("image row layout overflows sample count")),
                Some(expected) => {
                    if expected != samples {
                        return Err(
                            EntroGdError::InvalidMetadata {
                                message: two_numbers(
                                    "image row layout mismatch: ceil(height / group_height) * ceil(width / group_width) = ",
                                    expected,
                                    ", original samples = ",
                                    samples,
                                ),
                            },
                        );
                    }
                    Ok((samples, row_count, row_width))
                },
            }
        },
        BitDataReconstructionInfo::Tabular { .. } => Ok((samples, samples, 1)),
    }
}

/// The coding covers each symbol by some pair, so there are no more pairs than symbols.
proof fn greedy_pairs_count(symbols: Seq<Seq<bool>>, i: int, end: int)
    requires
        0 <= i <= end,
    ensures
        greedy_pairs(symbols, i, end).len() <= end - i,
    decreases end - i,
{
    if i < end {
        next_pair_advances(symbols, i, end);
        greedy_pairs_count(symbols, next_pair(symbols, i, end).2, end);
    }
}

/// All stored symbols have the width of the coded ones.
proof fn greedy_symbols_uniform(symbols: Seq<Seq<bool>>, i: int, end: int, width: nat)
    requires
        0 <= i <= end <= symbols.len(),
        forall|k: int| 0 <= k < symbols.len() ==> (#[trigger] symbols[k]).len() == width,
    ensures
        forall|k: int|
            0 <= k < greedy_symbols(symbols, i, end).len() ==> (#[trigger] greedy_symbols(
                symbols,
                i,
                end,
            )[k]).len() == width,
    decreases end - i,
{
    if i < end {
        next_pair_advances(symbols, i, end);
        let (repeated, literals, next) = next_pair(symbols, i, end);
        greedy_symbols_uniform(symbols, next, end, width);
        let run = if repeated > 0 {
            seq![symbols[i]]
        } else {
            Seq::empty()
        };
        let lits = symbols.subrange(i + repeated, next);
        let rest = greedy_symbols(symbols, next, end);
        let all = greedy_symbols(symbols, i, end);
        assert(all == run + lits + rest);
        assert forall|k: int| 0 <= k < all.len() implies (#[trigger] all[k]).len() == width by {
            if k < run.len() {
                assert(all[k] == symbols[i]);
            } else if k < run.len() + lits.len() {
                assert(all[k] == symbols[i + repeated + (k - run.len())]);
            } else {
                assert(all[k] == rest[k - run.len() - lits.len()]);
            }
        }
    }
}

/// What the run-length encoding of a context holds.
pub open spec fn rle_rows(context: PreEncodeContext) -> RleView {
    let symbols = row_symbols(context);
    let n = symbols.len() as int;
    RleView {
        symbols: join(greedy_symbols(symbols, 0, n)),
        pairs: greedy_pairs(symbols, 0, n),
        num_samples: symbols.len(),
        num_deviation_bits: deviation_width(context),
        num_id_bits: id_width(context),
    }
}

/// Whether the control values of all rows fit into one stream.
pub open spec fn controls_fit(context: PreEncodeContext) -> bool {
    context.bit_data.data.num_rows * 64 <= MAX_STREAM_BITS
}

/// The rows of a context, run-length coded.
pub fn encode_data_rle(input: &PreEncodeContext) -> (data: RleDeviationData)
    requires
        input.valid(),
        symbols_fit(*input),
        controls_fit(*input),
    ensures
        data.valid(),
        data@ == rle_rows(*input),
{
    let (num_deviation_bits, l_id, deviation_ranges) = derive_symbol_layout(input);
    let num_rows: usize = input.bit_data.num_rows();
    let id_bits = build_id_bits_per_base(l_id, input.variable_base_table.len());
    let raw = encode_rows_as_symbol_stream(input, l_id, &deviation_ranges, &id_bits);
    let width: usize = num_deviation_bits + l_id;
    let mut symbol_stream = BitStream::empty();
    let mut rm_values: Vec<(u8, u8)> = Vec::new();
    let ghost symbols = row_symbols(*input);
    proof {
        row_symbols_uniform(*input);
        slots_of_join(symbols, width as nat);
    }
    pack_symbols(&raw, width, 0, num_rows, &mut symbol_stream, &mut rm_values);
    proof {
        greedy_coding_is_lossless(symbols, 0, num_rows as int);
        greedy_pairs_count(symbols, 0, num_rows as int);
        assert(rm_values@ =~= greedy_pairs(symbols, 0, num_rows as int));
        assert(symbol_stream@ =~= join(greedy_symbols(symbols, 0, num_rows as int)));
    }
    RleDeviationData::new(symbol_stream, rm_values, num_rows, num_deviation_bits, l_id)
}

/// The pairs of the first `count` groups of `size` symbols, each group coded on its own.
pub open spec fn group_pairs(symbols: Seq<Seq<bool>>, size: int, count: int) -> Seq<(u8, u8)>
    decreases count,
{
    if count <= 0 {
        Seq::empty()
    } else {
        group_pairs(symbols, size, count - 1) + greedy_pairs(
            symbols,
            (count - 1) * size,
            (count - 1) * size + size,
        )
    }
}

/// The stored symbols of the first `count` groups of `size` symbols.
pub open spec fn group_symbols(symbols: Seq<Seq<bool>>, size: int, count: int) -> Seq<Seq<bool>>
    decreases count,
{
    if count <= 0 {
        Seq::empty()
    } else {
        group_symbols(symbols, size, count - 1) + greedy_symbols(
            symbols,
            (count - 1) * size,
            (count - 1) * size + size,
        )
    }
}

/// Where group `k` starts: the number of pairs and of bits before it.
pub open spec fn group_start(symbols: Seq<Seq<bool>>, size: int, k: int) -> (nat, nat) {
    (group_pairs(symbols, size, k).len(), join(group_symbols(symbols, size, k)).len())
}

/// What the run-length encoding of a context in groups holds, where the row layout is given.
pub open spec fn rle_offset_rows(
    context: PreEncodeContext,
    samples: nat,
    count: nat,
    size: nat,
) -> RleOffsetView {
    let symbols = row_symbols(context);
    let n = symbols.len() as int;
    RleOffsetView {
        symbols: join(
            group_symbols(symbols, size as int, count as int) + greedy_symbols(
                symbols,
                samples as int,
                n,
            ),
        ),
        pairs: group_pairs(symbols, size as int, count as int) + greedy_pairs(
            symbols,
            samples as int,
            n,
        ),
        row_offsets: Seq::new(
            count,
            |k: int|
                (
                    group_start(symbols, size as int, k).0 as u32,
                    group_start(symbols, size as int, k).1 as u32,
                ),
        ),
        original_num_samples: samples,
        row_width: size,
        num_samples: symbols.len(),
        num_deviation_bits: deviation_width(context),
        num_id_bits: id_width(context),
    }
}

/// Whether all group starts can be written as 32-bit numbers.
pub open spec fn starts_fit(context: PreEncodeContext, count: nat, size: nat) -> bool {
    let symbols = row_symbols(context);
    forall|k: int|
        0 <= k < count ==> (#[trigger] group_start(symbols, size as int, k)).0 <= u32::MAX
            && group_start(symbols, size as int, k).1 <= u32::MAX
}

/// Whether a pair of 32-bit numbers is the start of group `k`.
spec fn written_start(symbols: Seq<Seq<bool>>, size: int, k: int, offset: (u32, u32)) -> bool {
    offset.0 as nat == group_start(symbols, size, k).0 && offset.1 as nat == group_start(
        symbols,
        size,
        k,
    ).1
}

/// The groups stand for the symbols they cover.
pub proof fn groups_are_lossless(symbols: Seq<Seq<bool>>, size: int, count: int, width: nat)
    requires
        0 <= size,
        0 <= count,
        count * size <= symbols.len(),
        forall|k: int| 0 <= k < symbols.len() ==> (#[trigger] symbols[k]).len() == width,
    ensures
        codes_for(
            group_pairs(symbols, size, count),
            group_symbols(symbols, size, count),
            symbols.take(count * size),
        ),
        group_pairs(symbols, size, count).len() <= count * size,
        forall|k: int|
            0 <= k < group_symbols(symbols, size, count).len() ==> (#[trigger] group_symbols(
                symbols,
                size,
                count,
            )[k]).len() == width,
    decreases count,
{
    if count > 0 {
        let start = (count - 1) * size;
        assert(count * size == start + size) by (nonlinear_arith)
            requires
                start == (count - 1) * size,
        ;
        assert(0 <= start) by (nonlinear_arith)
            requires
                0 <= size,
                0 < count,
                start == (count - 1) * size,
        ;
        groups_are_lossless(symbols, size, count - 1, width);
        greedy_coding_is_lossless(symbols, start, start + size);
        greedy_pairs_count(symbols, start, start + size);
        greedy_symbols_uniform(symbols, start, start + size, width);
        codes_for_concat(
            group_pairs(symbols, size, count - 1),
            group_symbols(symbols, size, count - 1),
            symbols.take(start),
            greedy_pairs(symbols, start, start + size),
            greedy_symbols(symbols, start, start + size),
            symbols.subrange(start, start + size),
        );
        assert(symbols.take(start) + symbols.subrange(start, start + size) =~= symbols.take(
            start + size,
        ));
        let before = group_symbols(symbols, size, count - 1);
        let last = greedy_symbols(symbols, start, start + size);
        let all = group_symbols(symbols, size, count);
        assert(all == before + last);
        assert forall|k: int| 0 <= k < all.len() implies (#[trigger] all[k]).len() == width by {
            if k < before.len() {
                assert(all[k] == before[k]);
            } else {
                assert(all[k] == last[k - before.len()]);
            }
        }
    } else {
        assert(count * size == 0) by (nonlinear_arith)
            requires
                count == 0,
        ;
        assert(symbols.take(0) =~= Seq::empty());
    }
}

/// The groups up to `k` are the beginning of the groups up to `count`.
proof fn groups_extend(symbols: Seq<Seq<bool>>, size: int, k: int, count: int)
    requires
        0 <= k <= count,
    ensures
        group_pairs(symbols, size, k).is_prefix_of(group_pairs(symbols, size, count)),
        group_symbols(symbols, size, k).is_prefix_of(group_symbols(symbols, size, count)),
    decreases count - k,
{
    if k < count {
        groups_extend(symbols, size, k, count - 1);
        let shorter = group_pairs(symbols, size, count - 1);
        let longer = group_pairs(symbols, size, count);
        assert(shorter =~= longer.subrange(0, shorter.len() as int));
        assert(group_pairs(symbols, size, k) =~= longer.subrange(
            0,
            group_pairs(symbols, size, k).len() as int,
        ));
        let shorter = group_symbols(symbols, size, count - 1);
        let longer = group_symbols(symbols, size, count);
        assert(group_symbols(symbols, size, k) =~= longer.subrange(
            0,
            group_symbols(symbols, size, k).len() as int,
        ));
    } else {
        assert(group_pairs(symbols, size, k) =~= group_pairs(symbols, size, k).subrange(
            0,
            group_pairs(symbols, size, k).len() as int,
        ));
        assert(group_symbols(symbols, size, k) =~= group_symbols(symbols, size, k).subrange(
            0,
            group_symbols(symbols, size, k).len() as int,
        ));
    }
}

/// A beginning of a list of parts is a beginning of the joined bits.
proof fn join_of_prefix(part: Seq<Seq<bool>>, whole: Seq<Seq<bool>>)
    requires
        part.is_prefix_of(whole),
    ensures
        join(part).len() <= join(whole).len(),
        join(whole).take(join(part).len() as int) == join(part),
{
    assert(whole =~= part + whole.skip(part.len() as int));
    join_concat(part, whole.skip(part.len() as int));
    assert(join(whole).take(join(part).len() as int) =~= join(part));
}

/// Whether a context can be run-length encoded in groups.
pub open spec fn rle_offset_encodes(context: PreEncodeContext) -> bool {
    match row_layout(context.bit_data.info@) {
        Some((samples, count, size)) => if context.bit_data.data.num_rows == 0 {
            samples == 0
        } else {
            starts_fit(context, count, size)
        },
        None => false,
    }
}

/// Whether the original rows of a context are all there.
pub open spec fn holds_original_rows(context: PreEncodeContext) -> bool {
    row_layout(context.bit_data.info@) matches Some((samples, count, size)) ==> samples
        <= context.bit_data.data.num_rows
}

/// The rows of a context, run-length coded in groups, with the place where each group starts.
pub fn encode_data_offset_rle(input: &PreEncodeContext) -> (result: Result<
    RleDeviationOffsetData,
    EntroGdError,
>)
    requires
        input.valid(),
        symbols_fit(*input),
        controls_fit(*input),
        holds_original_rows(*input),
    ensures
        result is Ok <==> rle_offset_encodes(*input),
        result matches Ok(data) ==> {
            let layout = row_layout(input.bit_data.info@)->0;
            &&& data.valid()
            &&& data@ == rle_offset_rows(*input, layout.0, layout.1, layout.2)
        },
        result matches Err(error) ==> error is InvalidMetadata,
{
    let (num_deviation_bits, l_id, deviation_ranges) = derive_symbol_layout(input);
    let num_rows: usize = input.bit_data.num_rows();
    let id_bits = build_id_bits_per_base(l_id, input.variable_base_table.len());
    let raw = encode_rows_as_symbol_stream(input, l_id, &deviation_ranges, &id_bits);
    let width: usize = num_deviation_bits + l_id;
    let (samples, row_count, row_width) = match huffman_row_layout(&input.bit_data.info) {
        Ok(layout) => layout,
        Err(error) => {
            return Err(error);
        },
    };
    let ghost symbols = row_symbols(*input);
    let ghost w = width as nat;
    let ghost size = row_width as int;
    let mut symbol_stream = BitStream::empty();
    let mut rm_values: Vec<(u8, u8)> = Vec::new();
    let mut row_offsets: Vec<(u32, u32)> = Vec::new();
    proof {
        row_symbols_uniform(*input);
        slots_of_join(symbols, w);
        assert(0 * size == 0);
        assert(0 * w == 0);
    }
    let mut row: usize = 0;
    while row < row_count
        invariant
            row <= row_count,
            num_rows == symbols.len() == input.bit_data.data.num_rows,
            symbols == row_symbols(*input),
            width == w > 0,
            size == row_width,
            samples == row_count * row_width <= num_rows,
            raw@ == join(symbols),
            raw@.len() == num_rows * w <= MAX_STREAM_BITS,
            slots(raw@, w) == symbols,
            forall|k: int| 0 <= k < symbols.len() ==> (#[trigger] symbols[k]).len() == w,
            row_layout(input.bit_data.info@) == Some(
                (samples as nat, row_count as nat, row_width as nat),
            ),
            rm_values@ == group_pairs(symbols, size, row as int),
            symbol_stream@ == join(group_symbols(symbols, size, row as int)),
            symbol_stream@.len() <= row * row_width * w,
            row_offsets@.len() == row,
            forall|k: int|
                0 <= k < row ==> written_start(symbols, size, k, #[trigger] row_offsets@[k]),
        decreases row_count - row,
    {
        let ghost at = row as int;
        let ghost start = group_start(symbols, size, at);
        proof {
            assert(start == (rm_values@.len(), symbol_stream@.len()));
            if num_rows == 0 {
                empty_layout(input.bit_data.info@);
            }
        }
        if rm_values.len() > u32::MAX as usize {
            assert(!starts_fit(*input, row_count as nat, row_width as nat));
            return Err(bad_metadata("RLE row offset rm index does not fit into u32"));
        }
        let stream_len: usize = symbol_stream.bit_len();
        if stream_len > u32::MAX as usize {
            assert(!starts_fit(*input, row_count as nat, row_width as nat));
            return Err(bad_metadata("RLE row offset symbol bit index does not fit into u32"));
        }
        let ghost offsets_before = row_offsets@;
        row_offsets.push((rm_values.len() as u32, stream_len as u32));
        proof {
            assert(written_start(symbols, size, at, row_offsets@[at]));
            assert forall|k: int| 0 <= k < at + 1 implies written_start(
                symbols,
                size,
                k,
                #[trigger] row_offsets@[k],
            ) by {
                if k < at {
                    assert(row_offsets@[k] == offsets_before[k]);
                }
            }
            slot_in_bounds(at, row_count as int, size);
            assert((at + 1) * size == at * size + size) by (nonlinear_arith);
            group_room(at, size, w as int, num_rows as int);
        }
        let row_start: usize = row * row_width;
        let row_end: usize = row_start + row_width;
        pack_symbols(&raw, width, row_start, row_end, &mut symbol_stream, &mut rm_values);
        proof {
            join_concat(
                group_symbols(symbols, size, at),
                greedy_symbols(symbols, row_start as int, row_end as int),
            );
        }
        row += 1;
    }
    proof {
        groups_are_lossless(symbols, size, row_count as int, w);
        greedy_coding_is_lossless(symbols, samples as int, num_rows as int);
        greedy_pairs_count(symbols, samples as int, num_rows as int);
        tail_room(samples as int, num_rows as int, w as int);
    }
    pack_symbols(&raw, width, samples, num_rows, &mut symbol_stream, &mut rm_values);
    proof {
        let layout = row_layout(input.bit_data.info@)->0;
        let expected = rle_offset_rows(*input, layout.0, layout.1, layout.2);
        join_concat(
            group_symbols(symbols, size, row_count as int),
            greedy_symbols(symbols, samples as int, num_rows as int),
        );
        assert(symbol_stream@ =~= expected.symbols);
        assert(rm_values@ =~= expected.pairs);
        assert(row_offsets@ =~= expected.row_offsets);
        codes_for_concat(
            group_pairs(symbols, size, row_count as int),
            group_symbols(symbols, size, row_count as int),
            symbols.take(samples as int),
            greedy_pairs(symbols, samples as int, num_rows as int),
            greedy_symbols(symbols, samples as int, num_rows as int),
            symbols.subrange(samples as int, num_rows as int),
        );
        assert(starts_fit(*input, row_count as nat, row_width as nat)) by {
            assert forall|k: int| 0 <= k < row_count implies (#[trigger] group_start(
                symbols,
                size,
                k,
            )).0 <= u32::MAX && group_start(symbols, size, k).1 <= u32::MAX by {
                assert(written_start(symbols, size, k, row_offsets@[k]));
            }
        }
        offsets_are_sound(symbols, size, row_count as int, samples as int, row_offsets@);
        assert(expected.well_formed()) by {
            if samples > 0 {
                assert(row_width > 0) by {
                    if row_width == 0 {
                        assert(row_count * row_width == 0) by (nonlinear_arith)
                            requires
                                row_width == 0,
                        ;
                    }
                }
                assert((row_count * row_width) % (row_width as int) == 0 && (row_count * row_width)
                    / (row_width as int) == row_count) by (nonlinear_arith)
                    requires
                        row_width > 0,
                ;
            } else {
                assert(row_count == 0) by {
                    empty_layout(input.bit_data.info@);
                }
            }
        }
        assert(row_count <= num_rows) by {
            if samples > 0 {
                assert(row_count <= row_count * row_width) by (nonlinear_arith)
                    requires
                        row_width >= 1,
                ;
            } else {
                empty_layout(input.bit_data.info@);
            }
        }
    }
    RleDeviationOffsetData::new(
        symbol_stream,
        rm_values,
        row_offsets,
        samples,
        row_width,
        num_rows,
        num_deviation_bits,
        l_id,
    )
}

/// Without original rows there are no groups.
proof fn empty_layout(info: InfoView)
    requires
        row_layout(info) matches Some(layout) && layout.0 == 0,
    ensures
        (row_layout(info)->0).1 == 0,
{
    if let ReconstructionView::Image(image) = info.reconstruction {
        let count = ceil_div(image.height as nat, image.pixel_grouping.1 as nat);
        let width = ceil_div(image.width as nat, image.pixel_grouping.0 as nat);
        if count > 0 && width > 0 {
            assert(count * width > 0) by (nonlinear_arith)
                requires
                    count > 0,
                    width > 0,
            ;
        }
    }
}

/// What the groups before `row` store leaves room for the group `row`.
proof fn group_room(row: int, size: int, w: int, num_rows: int)
    requires
        0 <= row,
        0 <= size,
        0 < w,
        row * size + size <= num_rows,
    ensures
        (row * size + size) * w <= num_rows * w,
        row * size * w + size * w == (row + 1) * size * w,
        row * size * w + size * w <= num_rows * w,
        (row * size + size - row * size) * w == size * w,
{
    assert((row * size + size) * w <= num_rows * w) by (nonlinear_arith)
        requires
            row * size + size <= num_rows,
            0 < w,
    ;
    assert(row * size * w + size * w == (row + 1) * size * w) by (nonlinear_arith);
    assert(row * size * w + size * w == (row * size + size) * w) by (nonlinear_arith);
}

/// What the groups store leaves room for the rows behind them.
proof fn tail_room(samples: int, num_rows: int, w: int)
    requires
        0 <= samples <= num_rows,
        0 < w,
    ensures
        samples * w + (num_rows - samples) * w == num_rows * w,
{
    assert(samples * w + (num_rows - samples) * w == num_rows * w) by (nonlinear_arith);
}

/// Group starts ascend and lie inside the data.
proof fn offsets_are_sound(
    symbols: Seq<Seq<bool>>,
    size: int,
    count: int,
    samples: int,
    offsets: Seq<(u32, u32)>,
)
    requires
        0 <= count,
        0 <= samples <= symbols.len(),
        offsets.len() == count,
        forall|k: int|
            0 <= k < count ==> written_start(symbols, size, k, #[trigger] offsets[k]),
    ensures
        count > 0 ==> offsets[0] == (0u32, 0u32),
        forall|k: int|
            0 <= k < count ==> (#[trigger] offsets[k]).0 <= (group_pairs(symbols, size, count)
                + greedy_pairs(symbols, samples, symbols.len() as int)).len() && offsets[k].1
                <= join(
                group_symbols(symbols, size, count) + greedy_symbols(
                    symbols,
                    samples,
                    symbols.len() as int,
                ),
            ).len(),
        forall|j: int, k: int|
            0 <= j < k < count ==> crate::encoding::rle_data::offset_not_after(
                #[trigger] offsets[j],
                #[trigger] offsets[k],
            ),
{
    let tail = greedy_symbols(symbols, samples, symbols.len() as int);
    join_concat(group_symbols(symbols, size, count), tail);
    assert forall|k: int| 0 <= k < count implies (#[trigger] offsets[k]).0 <= group_pairs(
        symbols,
        size,
        count,
    ).len() && offsets[k].1 <= join(group_symbols(symbols, size, count)).len() by {
        groups_extend(symbols, size, k, count);
        join_of_prefix(group_symbols(symbols, size, k), group_symbols(symbols, size, count));
    }
    assert forall|j: int, k: int| 0 <= j < k < count implies
        crate::encoding::rle_data::offset_not_after(#[trigger] offsets[j], #[trigger] offsets[k]) by {
        groups_extend(symbols, size, j, k);
        join_of_prefix(group_symbols(symbols, size, j), group_symbols(symbols, size, k));
    }
}

/// A row is decoded from the middle of a coding: the stored symbols stand between other bits,
/// and further pairs follow.
pub proof fn row_from_middle(
    pairs: Seq<(u8, u8)>,
    stored: Seq<Seq<bool>>,
    symbols: Seq<Seq<bool>>,
    more_pairs: Seq<(u8, u8)>,
    bits_before: Seq<bool>,
    bits_after: Seq<bool>,
    s: int,
    num_deviation_bits: nat,
    num_id_bits: nat,
)
    requires
        codes_for(pairs, stored, symbols),
        forall|k: int|
            0 <= k < stored.len() ==> (#[trigger] stored[k]).len() == num_deviation_bits
                + num_id_bits,
        0 <= s < symbols.len(),
    ensures
        row_from(
            bits_before + join(stored) + bits_after,
            pairs + more_pairs,
            bits_before.len() as int,
            s,
            num_deviation_bits,
            num_id_bits,
        ) == Some(split_symbol(symbols[s], num_deviation_bits)),
{
    let width = num_deviation_bits + num_id_bits;
    let bits = bits_before + join(stored) + bits_after;
    let start = bits_before.len() as int;
    source_of_concat(pairs, more_pairs);
    source_in_bounds(pairs, s);
    let k = source(pairs, s);
    assert(source(pairs + more_pairs, s) == k);
    join_uniform(stored, width);
    slot_in_bounds(k, stored.len() as int, width as int);
    assert(stored[k] == join(stored).subrange(k * width, k * width + width));
    assert(bits.subrange(start + k * width, start + k * width + width) =~= stored[k]);
}

/// Stored symbols that stand for a list of symbols are complete, and writing them out gives
/// the list.
pub proof fn expansion_is_list(
    pairs: Seq<(u8, u8)>,
    stored: Seq<Seq<bool>>,
    symbols: Seq<Seq<bool>>,
    width: nat,
    raw: Seq<bool>,
)
    requires
        codes_for(pairs, stored, symbols),
        forall|k: int| 0 <= k < stored.len() ==> (#[trigger] stored[k]).len() == width,
        forall|k: int| 0 <= k < symbols.len() ==> (#[trigger] symbols[k]).len() == width,
    ensures
        complete(join(stored), pairs, symbols.len(), width),
        expands_to(pairs, join(stored), width, raw) <==> raw == join(symbols),
{
    join_uniform(stored, width);
    join_uniform(symbols, width);
    let bits = join(symbols);
    assert forall|s: int| 0 <= s < symbols.len() implies #[trigger] slot(bits, width, s) == slot(
        join(stored),
        width,
        source(pairs, s),
    ) by {
        source_in_bounds(pairs, s);
        let k = source(pairs, s);
        assert(stored[k] == join(stored).subrange(k * width, k * width + width));
        assert(symbols[s] == bits.subrange(s * width, s * width + width));
    }
    if expands_to(pairs, join(stored), width, raw) {
        assert forall|p: int| 0 <= p < raw.len() implies raw[p] == bits[p] by {
            let w = width as int;
            assert(w > 0) by {
                if w == 0 {
                    assert(symbols.len() * width == 0) by (nonlinear_arith)
                        requires
                            width == 0,
                    ;
                }
            }
            let s = p / w;
            let j = p % w;
            assert(p == s * w + j && 0 <= j < w && 0 <= s < symbols.len()) by (nonlinear_arith)
                requires
                    s == p / w,
                    j == p % w,
                    0 <= p < symbols.len() * w,
                    w > 0,
            ;
            slot_in_bounds(s, symbols.len() as int, w);
            assert(slot(raw, width, s) == slot(bits, width, s));
            assert(slot(raw, width, s)[j] == raw[s * w + j]);
            assert(slot(bits, width, s)[j] == bits[s * w + j]);
        }
        assert(raw =~= bits);
    }
}

/// Decoding the run-length encoding of a context gives its plain encoding, row by row and as a
/// whole.
pub proof fn rle_is_lossless(context: PreEncodeContext, raw: Seq<bool>)
    ensures
        complete(
            rle_rows(context).symbols,
            rle_rows(context).pairs,
            rle_rows(context).num_samples,
            rle_rows(context).symbol_width(),
        ),
        expands_to(
            rle_rows(context).pairs,
            rle_rows(context).symbols,
            rle_rows(context).symbol_width(),
            raw,
        ) <==> raw == encoded_rows(context).bits,
        forall|row: int|
            0 <= row < context.bit_data.data.num_rows ==> #[trigger] rle_rows(context).sample(row)
                == Some(encoded_rows(context).sample(row)),
{
    let symbols = row_symbols(context);
    let n = symbols.len() as int;
    let width = rle_rows(context).symbol_width();
    row_symbols_uniform(context);
    greedy_coding_is_lossless(symbols, 0, n);
    greedy_symbols_uniform(symbols, 0, n, width);
    assert(symbols.subrange(0, n) =~= symbols);
    let pairs = greedy_pairs(symbols, 0, n);
    let stored = greedy_symbols(symbols, 0, n);
    expansion_is_list(pairs, stored, symbols, width, raw);
    join_uniform(symbols, width);
    assert forall|row: int| 0 <= row < n implies #[trigger] rle_rows(context).sample(row) == Some(
        encoded_rows(context).sample(row),
    ) by {
        row_from_middle(
            pairs,
            stored,
            symbols,
            Seq::empty(),
            Seq::empty(),
            Seq::empty(),
            row,
            deviation_width(context),
            id_width(context),
        );
        assert(pairs + Seq::<(u8, u8)>::empty() =~= pairs);
        assert(Seq::<bool>::empty() + join(stored) + Seq::<bool>::empty() =~= join(stored));
        assert(symbols[row] == join(symbols).subrange(row * width, row * width + width));
    }
}

/// Decoding the run-length encoding of a context in groups gives its plain encoding as a whole,
/// and each row can be decoded from the start of its group.
pub proof fn rle_offset_is_lossless(
    context: PreEncodeContext,
    samples: nat,
    count: nat,
    size: nat,
    raw: Seq<bool>,
)
    requires
        row_layout(context.bit_data.info@) == Some((samples, count, size)),
        samples == count * size,
        samples <= context.bit_data.data.num_rows,
        starts_fit(context, count, size),
    ensures
        ({
            let rows = rle_offset_rows(context, samples, count, size);
            &&& complete(rows.symbols, rows.pairs, rows.num_samples, rows.symbol_width())
            &&& writable(rows.pairs)
            &&& expands_to(rows.pairs, rows.symbols, rows.symbol_width(), raw) <==> raw
                == encoded_rows(context).bits
            &&& forall|row: int|
                0 <= row < context.bit_data.data.num_rows ==> #[trigger] rows.sample(row) == Some(
                    encoded_rows(context).sample(row),
                )
        }),
{
    let rows = rle_offset_rows(context, samples, count, size);
    let symbols = row_symbols(context);
    let n = symbols.len() as int;
    let width = rows.symbol_width();
    let d = deviation_width(context);
    let i = id_width(context);
    row_symbols_uniform(context);
    groups_are_lossless(symbols, size as int, count as int, width);
    greedy_coding_is_lossless(symbols, samples as int, n);
    greedy_symbols_uniform(symbols, samples as int, n, width);
    let head_pairs = group_pairs(symbols, size as int, count as int);
    let head_stored = group_symbols(symbols, size as int, count as int);
    let tail_pairs = greedy_pairs(symbols, samples as int, n);
    let tail_stored = greedy_symbols(symbols, samples as int, n);
    let pairs = head_pairs + tail_pairs;
    let stored = head_stored + tail_stored;
    codes_for_concat(
        head_pairs,
        head_stored,
        symbols.take(samples as int),
        tail_pairs,
        tail_stored,
        symbols.subrange(samples as int, n),
    );
    assert(symbols.take(samples as int) + symbols.subrange(samples as int, n) =~= symbols);
    assert forall|k: int| 0 <= k < stored.len() implies (#[trigger] stored[k]).len() == width by {
        if k < head_stored.len() {
            assert(stored[k] == head_stored[k]);
        } else {
            assert(stored[k] == tail_stored[k - head_stored.len()]);
        }
    }
    expansion_is_list(pairs, stored, symbols, width, raw);
    join_uniform(symbols, width);
    assert forall|row: int| 0 <= row < n implies #[trigger] rows.sample(row) == Some(
        encoded_rows(context).sample(row),
    ) by {
        assert(symbols[row] == join(symbols).subrange(row * width, row * width + width));
        if size > 0 && row < samples {
            let g = row / size as int;
            let col = row % size as int;
            let w = size as int;
            assert(0 <= g < count && 0 <= col < w && row == g * w + col) by (nonlinear_arith)
                requires
                    g == row / w,
                    col == row % w,
                    0 <= row < count * w,
                    w > 0,
            ;
            group_row(context, samples, count, size, g, col);
        } else {
            row_from_middle(
                pairs,
                stored,
                symbols,
                Seq::empty(),
                Seq::empty(),
                Seq::empty(),
                row,
                d,
                i,
            );
            assert(pairs + Seq::<(u8, u8)>::empty() =~= pairs);
            assert(Seq::<bool>::empty() + join(stored) + Seq::<bool>::empty() =~= join(stored));
        }
    }
}

/// A row of group `g` is decoded from the start of the group.
#[verifier::spinoff_prover]
#[verifier::rlimit(40)]
proof fn group_row(
    context: PreEncodeContext,
    samples: nat,
    count: nat,
    size: nat,
    g: int,
    col: int,
)
    requires
        samples == count * size,
        samples <= context.bit_data.data.num_rows,
        starts_fit(context, count, size),
        0 <= g < count,
        0 <= col < size,
    ensures
        ({
            let rows = rle_offset_rows(context, samples, count, size);
            let start = rows.row_offsets[g];
            row_from(
                rows.symbols,
                rows.pairs.skip(start.0 as int),
                start.1 as int,
                col,
                rows.num_deviation_bits,
                rows.num_id_bits,
            ) == Some(
                split_symbol(row_symbols(context)[g * size + col], rows.num_deviation_bits),
            )
        }),
{
    let rows = rle_offset_rows(context, samples, count, size);
    let symbols = row_symbols(context);
    let w = size as int;
    let n = symbols.len() as int;
    let width = rows.symbol_width();
    let first = g * w;
    slot_in_bounds(g, count as int, w);
    row_symbols_uniform(context);
    greedy_coding_is_lossless(symbols, first, first + w);
    greedy_symbols_uniform(symbols, first, first + w, width);
    let own_pairs = greedy_pairs(symbols, first, first + w);
    let own_stored = greedy_symbols(symbols, first, first + w);
    let before_pairs = group_pairs(symbols, w, g);
    let before_stored = group_symbols(symbols, w, g);
    let upto_pairs = group_pairs(symbols, w, g + 1);
    let upto_stored = group_symbols(symbols, w, g + 1);
    assert(upto_pairs == before_pairs + own_pairs);
    assert(upto_stored == before_stored + own_stored);
    groups_extend(symbols, w, g + 1, count as int);
    let head_pairs = group_pairs(symbols, w, count as int);
    let head_stored = group_symbols(symbols, w, count as int);
    let tail_pairs = greedy_pairs(symbols, samples as int, n);
    let tail_stored = greedy_symbols(symbols, samples as int, n);
    let rest_pairs = head_pairs.skip(upto_pairs.len() as int) + tail_pairs;
    let rest_stored = head_stored.skip(upto_stored.len() as int) + tail_stored;
    assert(head_pairs =~= upto_pairs + head_pairs.skip(upto_pairs.len() as int));
    assert(head_stored =~= upto_stored + head_stored.skip(upto_stored.len() as int));
    assert(rows.pairs.skip(before_pairs.len() as int) =~= own_pairs + rest_pairs);
    assert(head_stored + tail_stored =~= before_stored + own_stored + rest_stored);
    join_concat(before_stored + own_stored, rest_stored);
    join_concat(before_stored, own_stored);
    assert(group_start(symbols, w, g) == (before_pairs.len(), join(before_stored).len()));
    row_from_middle(
        own_pairs,
        own_stored,
        symbols.subrange(first, first + w),
        rest_pairs,
        join(before_stored),
        join(rest_stored),
        col,
        rows.num_deviation_bits,
        rows.num_id_bits,
    );
    assert(symbols.subrange(first, first + w)[col] == symbols[first + col]);
}

} // verus!
