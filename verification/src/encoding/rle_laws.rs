//! How much run-length coding gathers, and how image rows are laid out for it.
use vstd::arithmetic::power2::{lemma2_to64, lemma2_to64_rest};
use vstd::prelude::*;

use crate::bits::high_digits_first;
use crate::data::{features_width, InfoView, ReconstructionView};
use crate::encoding::huffman::{all_digits_spell, spelled, spelled_in_place};
use crate::encoding::rle::{
    control_bits, control_stream, equal_run, greedy_pairs, literal_run, next_pair_advances,
    run_samples, stands_alone, RLE_LONG_MAX, RLE_MAX_RUN_LEN,
};
use crate::encoding::rle_data::offset_bits;
use crate::encoding::rle_encode::{ceil_div, row_layout};

verus! {

/// A run goes on as long as it can.
proof fn run_ends_for_reason(symbols: Seq<Seq<bool>>, i: int, end: int, k: nat)
    requires
        k <= RLE_MAX_RUN_LEN,
        i + k <= end,
    ensures
        ({
            let run = equal_run(symbols, i, end, k);
            run == RLE_MAX_RUN_LEN || i + run >= end || symbols[i + run] != symbols[i]
        }),
        k <= equal_run(symbols, i, end, k),
    decreases RLE_MAX_RUN_LEN - k,
{
    if k < RLE_MAX_RUN_LEN && i + k < end && symbols[i + k] == symbols[i] {
        run_ends_for_reason(symbols, i, end, k + 1);
    }
}

/// Literals go on as long as they can, and each one stands alone.
proof fn literals_end_for_reason(symbols: Seq<Seq<bool>>, i: int, end: int, k: nat)
    requires
        k <= RLE_LONG_MAX,
        forall|j: int| 0 <= j < k ==> #[trigger] stands_alone(symbols, i + j, end),
    ensures
        ({
            let count = literal_run(symbols, i, end, k);
            &&& count == RLE_LONG_MAX || !stands_alone(symbols, i + count, end)
            &&& forall|j: int| 0 <= j < count ==> #[trigger] stands_alone(symbols, i + j, end)
        }),
    decreases RLE_LONG_MAX - k,
{
    if k < RLE_LONG_MAX && stands_alone(symbols, i + k, end) {
        literals_end_for_reason(symbols, i, end, k + 1);
    }
}

/// A pair gathers all it can: equal symbols that stand side by side make a run, which ends only at
/// another symbol, at the end or at the longest run there is; of its literals none is followed by its
/// like, and they end only before two equal symbols, at the end or at their greatest number. Behind
/// that the coding goes on in the same way.
pub proof fn pair_gathers_all_it_can(symbols: Seq<Seq<bool>>, i: int, end: int)
    requires
        0 <= i < end,
    ensures
        ({
            let pair = greedy_pairs(symbols, i, end)[0];
            let run = run_samples(pair) as int;
            let start = i + run;
            let next = start + pair.1;
            &&& greedy_pairs(symbols, i, end).len() > 0
            &&& i < next <= end
            &&& greedy_pairs(symbols, i, end).skip(1) == greedy_pairs(symbols, next, end)
            &&& run > 0 <==> i + 1 < end && symbols[i + 1] == symbols[i]
            &&& forall|k: int| i <= k < start ==> #[trigger] symbols[k] == symbols[i]
            &&& run == 0 || run == 136 || start == end || symbols[start] != symbols[i]
            &&& forall|k: int|
                start <= k < next && k + 1 < end ==> #[trigger] symbols[k] != symbols[k + 1]
            &&& pair.1 == 135 || next == end || (next + 1 < end && symbols[next] == symbols[next
                + 1])
        }),
{
    let pairs = greedy_pairs(symbols, i, end);
    let pair = pairs[0];
    next_pair_advances(symbols, i, end);
    let count = equal_run(symbols, i, end, 1);
    run_ends_for_reason(symbols, i, end, 1);
    if i + 1 < end && symbols[i + 1] == symbols[i] {
        run_ends_for_reason(symbols, i, end, 2);
        assert(equal_run(symbols, i, end, 1) == equal_run(symbols, i, end, 2));
    }
    let run = run_samples(pair) as int;
    let start = i + run;
    let next = start + pair.1;
    literals_end_for_reason(symbols, start, end, 0);
    assert(pair.1 == literal_run(symbols, start, end, 0));
    assert(pairs.skip(1) =~= greedy_pairs(symbols, next, end));
    assert forall|k: int| i <= k < start implies #[trigger] symbols[k] == symbols[i] by {
        assert(symbols[i + (k - i)] == symbols[i]);
    }
    assert forall|k: int| start <= k < next && k + 1 < end implies #[trigger] symbols[k]
        != symbols[k + 1] by {
        assert(stands_alone(symbols, start + (k - start), end));
    }
}

/// Lines of groups cover an image, and one line fewer would not.
pub proof fn lines_cover_image(length: nat, size: nat)
    requires
        size > 0,
    ensures
        ceil_div(length, size) * size >= length,
        length > 0 ==> (ceil_div(length, size) - 1) * size < length,
        length == 0 ==> ceil_div(length, size) == 0,
{
    let whole = (length / size) as int;
    let rest = (length % size) as int;
    assert(length == size * whole + rest && 0 <= rest < size) by (nonlinear_arith)
        requires
            size > 0,
            whole == (length / size) as int,
            rest == (length % size) as int,
    ;
    assert((whole + 1) * size == size * whole + size && whole * size == size * whole && (whole - 1)
        * size == size * whole - size) by (nonlinear_arith);
    if length == 0 {
        assert(whole == 0) by (nonlinear_arith)
            requires
                size > 0,
                0 == size * whole + rest,
                0 <= rest < size,
        ;
    }
}

/// The rows of an image are arranged in lines of groups: just as many lines as cover its height, each with
/// just as many groups as cover its width, and so many rows in all. Rows of a table stand alone.
pub proof fn rows_are_arranged_in_lines(info: InfoView)
    requires
        row_layout(info) is Some,
    ensures
        ({
            let (samples, count, width) = row_layout(info)->0;
            &&& samples == count * width
            &&& samples == info.original_size_bits / features_width(info.features)
            &&& match info.reconstruction {
                ReconstructionView::Tabular { .. } => width == 1,
                ReconstructionView::Image(image) => samples > 0 ==> {
                    let across = image.pixel_grouping.0 as int;
                    let down = image.pixel_grouping.1 as int;
                    &&& across > 0 && down > 0
                    &&& (count - 1) * down < image.height <= count * down
                    &&& (width - 1) * across < image.width <= width * across
                },
            }
        }),
{
    if let ReconstructionView::Image(image) = info.reconstruction {
        let (samples, count, width) = row_layout(info)->0;
        let across = image.pixel_grouping.0 as nat;
        let down = image.pixel_grouping.1 as nat;
        lines_cover_image(image.height as nat, down);
        lines_cover_image(image.width as nat, across);
        if samples > 0 {
            assert(count > 0 && width > 0) by (nonlinear_arith)
                requires
                    count * width > 0,
            ;
        }
        assert(0 * width == 0);
    }
}

/// A control value is read from its bits: the first bit tells whether three or seven digits follow, and
/// these spell a value from zero or from eight on. Small values take four bits, others eight.
pub proof fn control_value_is_readable(value: u8)
    requires
        value <= 135,
    ensures
        control_bits(value)[0] <==> value > 7,
        value <= 7 ==> control_bits(value).len() == 4 && spelled(control_bits(value), 1, 3) == value,
        value > 7 ==> control_bits(value).len() == 8 && spelled(control_bits(value), 1, 7) + 8
            == value,
{
    let bits = control_bits(value);
    let (digits, rest) = if value <= 7 {
        (3nat, value as nat)
    } else {
        (7nat, (value - 8) as nat)
    };
    lemma2_to64();
    let part = high_digits_first(rest, digits);
    assert(bits.subrange(1, 1 + digits as int) =~= part);
    spelled_in_place(bits, 1, part, digits);
    all_digits_spell(rest, digits);
}

/// Group starts stand one behind the other, the pair and the bit that a group starts at in 32 digits
/// each.
pub proof fn group_starts_are_readable(offsets: Seq<(u32, u32)>, k: int)
    requires
        0 <= k < offsets.len(),
    ensures
        offset_bits(offsets).len() == 64 * offsets.len(),
        spelled(offset_bits(offsets), 64 * k, 32) == offsets[k].0,
        spelled(offset_bits(offsets), 64 * k + 32, 32) == offsets[k].1,
    decreases offsets.len(),
{
    let all = offset_bits(offsets);
    let fewer = offsets.drop_last();
    let before = offset_bits(fewer);
    if fewer.len() > 0 {
        group_starts_are_readable(fewer, if k < fewer.len() {
            k
        } else {
            0
        });
    } else {
        assert(before.len() == 0);
    }
    lemma2_to64();
    lemma2_to64_rest();
    if k < fewer.len() {
        assert(all.subrange(0, before.len() as int) =~= before);
        let first = before.subrange(64 * k, 64 * k + 32);
        let second = before.subrange(64 * k + 32, 64 * k + 64);
        assert(all.subrange(64 * k, 64 * k + 32) =~= first);
        assert(all.subrange(64 * k + 32, 64 * k + 64) =~= second);
        spelled_in_place(all, 64 * k, first, 32);
        spelled_in_place(before, 64 * k, first, 32);
        spelled_in_place(all, 64 * k + 32, second, 32);
        spelled_in_place(before, 64 * k + 32, second, 32);
    } else {
        let first = high_digits_first(offsets.last().0 as nat, 32);
        let second = high_digits_first(offsets.last().1 as nat, 32);
        assert(all.subrange(64 * k, 64 * k + 32) =~= first);
        assert(all.subrange(64 * k + 32, 64 * k + 64) =~= second);
        spelled_in_place(all, 64 * k, first, 32);
        spelled_in_place(all, 64 * k + 32, second, 32);
        all_digits_spell(offsets.last().0 as nat, 32);
        all_digits_spell(offsets.last().1 as nat, 32);
    }
}

/// Control values are read from the beginning on: those of the first pair, its run before its literals,
/// and then those of the other pairs.
pub proof fn first_pair_is_read_first(pairs: Seq<(u8, u8)>)
    requires
        pairs.len() > 0,
    ensures
        control_stream(pairs) == control_bits(pairs[0].0) + control_bits(pairs[0].1)
            + control_stream(pairs.drop_first()),
    decreases pairs.len(),
{
    let fewer = pairs.drop_last();
    let rest = pairs.drop_first();
    if fewer.len() == 0 {
        assert(control_stream(fewer) =~= Seq::empty());
        assert(control_stream(rest) =~= Seq::empty());
    } else {
        first_pair_is_read_first(fewer);
        assert(rest.drop_last() =~= fewer.drop_first());
    }
    assert(control_stream(pairs) =~= control_bits(pairs[0].0) + control_bits(pairs[0].1)
        + control_stream(rest));
}

} // verus!
