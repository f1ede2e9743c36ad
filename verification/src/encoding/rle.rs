//! Run-length coding of symbols.
//!
//! A pair `(r, m)` stands for a run and the literals behind it: with `r > 0` one stored symbol
//! that occurs `r + 1` times, then `m` stored symbols that occur once each.
use vstd::prelude::*;

use crate::bits::{
    high_digits_first, join, join_concat, join_push, join_uniform, BitStream, MAX_STREAM_BITS,
};
use crate::encoding::deviation::{slot, slot_in_bounds};

verus! {

/// The greatest control value that is written in four bits.
pub const RLE_SHORT_MAX: u8 = 7;

/// The least control value that is written in eight bits.
pub const RLE_LONG_MIN: u8 = 8;

/// The greatest control value.
pub const RLE_LONG_MAX: u8 = 135;

/// The greatest number of times that one pair can repeat a symbol.
pub const RLE_MAX_RUN_LEN: usize = 136;

/// The bits of a control value.
pub open spec fn control_bits(value: u8) -> Seq<bool> {
    if value <= RLE_SHORT_MAX {
        seq![false] + high_digits_first(value as nat, 3)
    } else {
        seq![true] + high_digits_first((value - RLE_LONG_MIN) as nat, 7)
    }
}

/// The control values of all pairs, one behind the other.
pub open spec fn control_stream(pairs: Seq<(u8, u8)>) -> Seq<bool>
    decreases pairs.len(),
{
    if pairs.len() == 0 {
        Seq::empty()
    } else {
        control_stream(pairs.drop_last()) + control_bits(pairs.last().0) + control_bits(
            pairs.last().1,
        )
    }
}

/// Whether both numbers of every pair can be written as control values.
pub open spec fn writable(pairs: Seq<(u8, u8)>) -> bool {
    forall|k: int|
        0 <= k < pairs.len() ==> (#[trigger] pairs[k]).0 <= RLE_LONG_MAX && pairs[k].1
            <= RLE_LONG_MAX
}

/// Appends a control value: four bits for the small ones, eight for the others.
pub fn write_rle_control_value(out: &mut BitStream, value: u8)
    requires
        value <= RLE_LONG_MAX,
        old(out)@.len() + 8 <= MAX_STREAM_BITS,
    ensures
        final(out)@ == old(out)@ + control_bits(value),
        control_bits(value).len() <= 8,
{
    if value <= RLE_SHORT_MAX {
        out.append_bit(false);
        out.append_high_first(value as u64, 3);
    } else {
        out.append_bit(true);
        out.append_high_first((value - RLE_LONG_MIN) as u64, 7);
    }
    assert(out@ =~= old(out)@ + control_bits(value));
}

/// The control values of all pairs, one behind the other.
pub fn write_rle_control_stream(pairs: &Vec<(u8, u8)>) -> (out: BitStream)
    requires
        writable(pairs@),
        pairs@.len() * 16 <= MAX_STREAM_BITS,
    ensures
        out@ == control_stream(pairs@),
{
    let mut out = BitStream::empty();
    let mut k: usize = 0;
    while k < pairs.len()
        invariant
            k <= pairs@.len(),
            writable(pairs@),
            pairs@.len() * 16 <= MAX_STREAM_BITS,
            out@ == control_stream(pairs@.take(k as int)),
            out@.len() <= k * 16,
        decreases pairs@.len() - k,
    {
        let (r, m) = pairs[k];
        write_rle_control_value(&mut out, r);
        write_rle_control_value(&mut out, m);
        assert(pairs@.take(k as int + 1).drop_last() =~= pairs@.take(k as int));
        k += 1;
    }
    assert(pairs@.take(k as int) =~= pairs@);
    out
}

/// How often a pair repeats its first stored symbol.
pub open spec fn run_samples(pair: (u8, u8)) -> nat {
    if pair.0 > 0 {
        (pair.0 + 1) as nat
    } else {
        0
    }
}

/// How many symbols a pair stores for its run.
pub open spec fn run_symbols(pair: (u8, u8)) -> nat {
    if pair.0 > 0 {
        1
    } else {
        0
    }
}

/// How many rows the pairs stand for.
pub open spec fn total_samples(pairs: Seq<(u8, u8)>) -> nat
    decreases pairs.len(),
{
    if pairs.len() == 0 {
        0
    } else {
        total_samples(pairs.drop_last()) + run_samples(pairs.last()) + pairs.last().1 as nat
    }
}

/// How many symbols the pairs store.
pub open spec fn total_symbols(pairs: Seq<(u8, u8)>) -> nat
    decreases pairs.len(),
{
    if pairs.len() == 0 {
        0
    } else {
        total_symbols(pairs.drop_last()) + run_symbols(pairs.last()) + pairs.last().1 as nat
    }
}

/// The stored symbol that row `sample` takes, for a row that the pairs stand for.
pub open spec fn source(pairs: Seq<(u8, u8)>, sample: int) -> int
    decreases pairs.len(),
{
    if pairs.len() == 0 {
        0
    } else {
        let before = pairs.drop_last();
        let offset = sample - total_samples(before);
        let run = run_samples(pairs.last());
        if offset < 0 {
            source(before, sample)
        } else if offset < run {
            total_symbols(before) as int
        } else {
            total_symbols(before) + run_symbols(pairs.last()) + (offset - run)
        }
    }
}

/// A row that the pairs stand for takes one of the stored symbols, later rows no earlier ones.
pub proof fn source_in_bounds(pairs: Seq<(u8, u8)>, sample: int)
    requires
        0 <= sample < total_samples(pairs),
    ensures
        0 <= source(pairs, sample) < total_symbols(pairs),
    decreases pairs.len(),
{
    if pairs.len() > 0 && sample < total_samples(pairs.drop_last()) {
        source_in_bounds(pairs.drop_last(), sample);
    }
}

/// The pairs of two lists one behind the other: first the rows of the first list, then those of
/// the second, whose symbols stand behind those of the first.
pub proof fn source_of_concat(first: Seq<(u8, u8)>, second: Seq<(u8, u8)>)
    ensures
        total_samples(first + second) == total_samples(first) + total_samples(second),
        total_symbols(first + second) == total_symbols(first) + total_symbols(second),
        forall|s: int|
            0 <= s < total_samples(first) ==> #[trigger] source(first + second, s) == source(
                first,
                s,
            ),
        forall|s: int|
            total_samples(first) <= s < total_samples(first) + total_samples(second)
                ==> #[trigger] source(first + second, s) == total_symbols(first) + source(
                second,
                s - total_samples(first),
            ),
    decreases second.len(),
{
    if second.len() == 0 {
        assert(first + second =~= first);
    } else {
        let shorter = second.drop_last();
        let all = first + second;
        source_of_concat(first, shorter);
        assert(all.drop_last() =~= first + shorter);
        assert(all.last() == second.last());
        assert forall|s: int| 0 <= s < total_samples(first) implies #[trigger] source(all, s)
            == source(first, s) by {
            assert(source(first + shorter, s) == source(first, s));
        }
        assert forall|s: int|
            total_samples(first) <= s < total_samples(first) + total_samples(
                second,
            ) implies #[trigger] source(all, s) == total_symbols(first) + source(
            second,
            s - total_samples(first),
        ) by {
            if s < total_samples(first) + total_samples(shorter) {
                assert(source(first + shorter, s) == total_symbols(first) + source(
                    shorter,
                    s - total_samples(first),
                ));
            }
        }
    }
}

/// The pairs up to `k`, split off.
pub proof fn source_of_prefix(pairs: Seq<(u8, u8)>, k: int)
    requires
        0 <= k <= pairs.len(),
    ensures
        total_samples(pairs.take(k)) <= total_samples(pairs),
        total_symbols(pairs.take(k)) <= total_symbols(pairs),
        forall|s: int|
            0 <= s < total_samples(pairs.take(k)) ==> #[trigger] source(pairs, s) == source(
                pairs.take(k),
                s,
            ),
{
    assert(pairs =~= pairs.take(k) + pairs.skip(k));
    source_of_concat(pairs.take(k), pairs.skip(k));
}

/// What one more pair adds.
pub proof fn totals_step(pairs: Seq<(u8, u8)>, k: int)
    requires
        0 <= k < pairs.len(),
    ensures
        total_samples(pairs.take(k + 1)) == total_samples(pairs.take(k)) + run_samples(pairs[k])
            + pairs[k].1,
        total_symbols(pairs.take(k + 1)) == total_symbols(pairs.take(k)) + run_symbols(pairs[k])
            + pairs[k].1,
{
    assert(pairs.take(k + 1).drop_last() =~= pairs.take(k));
}

/// How many equal symbols stand in a row from `i` on, at least `k`, no more than a pair can hold.
pub open spec fn equal_run(symbols: Seq<Seq<bool>>, i: int, end: int, k: nat) -> nat
    decreases RLE_MAX_RUN_LEN - k,
{
    if k < RLE_MAX_RUN_LEN && i + k < end && symbols[i + k] == symbols[i] {
        equal_run(symbols, i, end, k + 1)
    } else {
        k
    }
}

/// Whether a symbol is followed by another one.
pub open spec fn stands_alone(symbols: Seq<Seq<bool>>, i: int, end: int) -> bool {
    i < end && !(i + 1 < end && symbols[i + 1] == symbols[i])
}

/// How many symbols stand alone from `i` on, at least `k`, no more than a pair can hold.
pub open spec fn literal_run(symbols: Seq<Seq<bool>>, i: int, end: int, k: nat) -> nat
    decreases RLE_LONG_MAX - k,
{
    if k < RLE_LONG_MAX && stands_alone(symbols, i + k, end) {
        literal_run(symbols, i, end, k + 1)
    } else {
        k
    }
}

/// The first pair of the coding from `i` on: how many symbols it repeats (0 for no run), how
/// many literals follow, and where the next pair starts.
pub open spec fn next_pair(symbols: Seq<Seq<bool>>, i: int, end: int) -> (nat, nat, int) {
    let run = equal_run(symbols, i, end, 1);
    let repeated = if run >= 2 {
        run
    } else {
        0
    };
    let literals = literal_run(symbols, i + repeated, end, 0);
    (repeated, literals, i + repeated + literals)
}

/// A pair always covers at least one symbol and never goes past the end.
pub proof fn next_pair_advances(symbols: Seq<Seq<bool>>, i: int, end: int)
    requires
        0 <= i < end,
    ensures
        i < next_pair(symbols, i, end).2 <= end,
        next_pair(symbols, i, end).0 <= RLE_MAX_RUN_LEN,
        next_pair(symbols, i, end).1 <= RLE_LONG_MAX,
        next_pair(symbols, i, end).0 != 1,
        forall|k: int|
            0 <= k < next_pair(symbols, i, end).0 ==> #[trigger] symbols[i + k] == symbols[i],
{
    equal_run_bounds(symbols, i, end, 1);
    let (repeated, literals, next) = next_pair(symbols, i, end);
    literal_run_bounds(symbols, i + repeated, end, 0);
    if repeated == 0 {
        assert(stands_alone(symbols, i, end)) by {
            if i + 1 < end && symbols[i + 1] == symbols[i] {
                equal_run_bounds(symbols, i, end, 2);
                assert(equal_run(symbols, i, end, 1) == equal_run(symbols, i, end, 2));
            }
        }
        literal_run_bounds(symbols, i, end, 1);
        assert(literal_run(symbols, i, end, 0) == literal_run(symbols, i, end, 1));
    }
}

proof fn equal_run_bounds(symbols: Seq<Seq<bool>>, i: int, end: int, k: nat)
    requires
        0 <= i,
        1 <= k <= RLE_MAX_RUN_LEN,
        i + k <= end,
        forall|j: int| 0 <= j < k ==> #[trigger] symbols[i + j] == symbols[i],
    ensures
        k <= equal_run(symbols, i, end, k) <= RLE_MAX_RUN_LEN,
        i + equal_run(symbols, i, end, k) <= end,
        forall|j: int|
            0 <= j < equal_run(symbols, i, end, k) ==> #[trigger] symbols[i + j] == symbols[i],
    decreases RLE_MAX_RUN_LEN - k,
{
    if k < RLE_MAX_RUN_LEN && i + k < end && symbols[i + k] == symbols[i] {
        equal_run_bounds(symbols, i, end, k + 1);
    }
}

proof fn literal_run_bounds(symbols: Seq<Seq<bool>>, i: int, end: int, k: nat)
    requires
        0 <= i,
        k <= RLE_LONG_MAX,
        i + k <= end,
    ensures
        k <= literal_run(symbols, i, end, k) <= RLE_LONG_MAX,
        i + literal_run(symbols, i, end, k) <= end,
    decreases RLE_LONG_MAX - k,
{
    if k < RLE_LONG_MAX && stands_alone(symbols, i + k, end) {
        literal_run_bounds(symbols, i, end, k + 1);
    }
}

/// The pairs of the coding of the symbols `i..end`.
pub open spec fn greedy_pairs(symbols: Seq<Seq<bool>>, i: int, end: int) -> Seq<(u8, u8)>
    decreases end - i,
    when 0 <= i
    via greedy_pairs_decreases
{
    if i >= end {
        Seq::empty()
    } else {
        let (repeated, literals, next) = next_pair(symbols, i, end);
        let r = if repeated > 0 {
            (repeated - 1) as u8
        } else {
            0
        };
        seq![(r, literals as u8)] + greedy_pairs(symbols, next, end)
    }
}

#[via_fn]
proof fn greedy_pairs_decreases(symbols: Seq<Seq<bool>>, i: int, end: int) {
    if i < end {
        next_pair_advances(symbols, i, end);
    }
}

/// The stored symbols of the coding of the symbols `i..end`.
pub open spec fn greedy_symbols(symbols: Seq<Seq<bool>>, i: int, end: int) -> Seq<Seq<bool>>
    decreases end - i,
    when 0 <= i
    via greedy_symbols_decreases
{
    if i >= end {
        Seq::empty()
    } else {
        let (repeated, literals, next) = next_pair(symbols, i, end);
        let run = if repeated > 0 {
            seq![symbols[i]]
        } else {
            Seq::empty()
        };
        run + symbols.subrange(i + repeated, next) + greedy_symbols(symbols, next, end)
    }
}

#[via_fn]
proof fn greedy_symbols_decreases(symbols: Seq<Seq<bool>>, i: int, end: int) {
    if i < end {
        next_pair_advances(symbols, i, end);
    }
}

/// Whether pairs and stored symbols stand for the given symbols.
pub open spec fn codes_for(
    pairs: Seq<(u8, u8)>,
    stored: Seq<Seq<bool>>,
    symbols: Seq<Seq<bool>>,
) -> bool {
    &&& writable(pairs)
    &&& total_samples(pairs) == symbols.len()
    &&& total_symbols(pairs) == stored.len()
    &&& forall|s: int| 0 <= s < symbols.len() ==> stored[#[trigger] source(pairs, s)] == symbols[s]
}

/// Two codings one behind the other stand for both lists of symbols.
pub proof fn codes_for_concat(
    pairs: Seq<(u8, u8)>,
    stored: Seq<Seq<bool>>,
    symbols: Seq<Seq<bool>>,
    more_pairs: Seq<(u8, u8)>,
    more_stored: Seq<Seq<bool>>,
    more_symbols: Seq<Seq<bool>>,
)
    requires
        codes_for(pairs, stored, symbols),
        codes_for(more_pairs, more_stored, more_symbols),
    ensures
        codes_for(pairs + more_pairs, stored + more_stored, symbols + more_symbols),
{
    source_of_concat(pairs, more_pairs);
    let all = pairs + more_pairs;
    assert forall|s: int| 0 <= s < (symbols + more_symbols).len() implies (stored + more_stored)[
    #[trigger] source(all, s)] == (symbols + more_symbols)[s] by {
        if s < symbols.len() {
            source_in_bounds(pairs, s);
            assert(source(all, s) == source(pairs, s));
        } else {
            let t = s - symbols.len();
            source_in_bounds(more_pairs, t);
            assert(more_stored[source(more_pairs, t)] == more_symbols[t]);
            assert(source(all, s) == total_symbols(pairs) + source(more_pairs, t));
        }
    }
}

/// What a pair stands for by itself: its run, then its literals.
proof fn single_pair(pair: (u8, u8))
    ensures
        total_samples(seq![pair]) == run_samples(pair) + pair.1,
        total_symbols(seq![pair]) == run_symbols(pair) + pair.1,
        forall|s: int|
            0 <= s ==> #[trigger] source(seq![pair], s) == (if s < run_samples(pair) {
                0
            } else {
                run_symbols(pair) + (s - run_samples(pair))
            }),
{
    let pairs = seq![pair];
    assert(pairs.drop_last() =~= Seq::empty());
    assert(pairs.last() == pair);
    assert(total_samples(pairs.drop_last()) == 0);
    assert(total_symbols(pairs.drop_last()) == 0);
}

/// Decoding the run-length coding of a list of symbols gives the list back.
pub proof fn greedy_coding_is_lossless(symbols: Seq<Seq<bool>>, i: int, end: int)
    requires
        0 <= i <= end <= symbols.len(),
    ensures
        codes_for(
            greedy_pairs(symbols, i, end),
            greedy_symbols(symbols, i, end),
            symbols.subrange(i, end),
        ),
    decreases end - i,
{
    if i < end {
        next_pair_advances(symbols, i, end);
        let (repeated, literals, next) = next_pair(symbols, i, end);
        greedy_coding_is_lossless(symbols, next, end);
        let r = if repeated > 0 {
            (repeated - 1) as u8
        } else {
            0u8
        };
        let pair = (r, literals as u8);
        let run = if repeated > 0 {
            seq![symbols[i]]
        } else {
            Seq::empty()
        };
        let stored = run + symbols.subrange(i + repeated, next);
        let covered = symbols.subrange(i, next);
        assert(codes_for(seq![pair], stored, covered)) by {
            single_pair(pair);
            assert(run_samples(pair) == repeated);
            assert(run_symbols(pair) == run.len());
            assert(next == i + repeated + literals);
            assert forall|s: int| 0 <= s < covered.len() implies stored[#[trigger] source(
                seq![pair],
                s,
            )] == covered[s] by {
                assert(covered[s] == symbols[i + s]);
                if s < repeated {
                    assert(symbols[i + s] == symbols[i]);
                    assert(stored[0] == run[0]);
                } else {
                    let at = run.len() + (s - repeated);
                    assert(source(seq![pair], s) == at);
                    assert(stored[at] == symbols.subrange(i + repeated, next)[s - repeated]);
                }
            }
        }
        codes_for_concat(
            seq![pair],
            stored,
            covered,
            greedy_pairs(symbols, next, end),
            greedy_symbols(symbols, next, end),
            symbols.subrange(next, end),
        );
        assert(covered + symbols.subrange(next, end) =~= symbols.subrange(i, end));
    } else {
        assert(symbols.subrange(i, end) =~= Seq::empty());
    }
}

/// The symbols of a stream of symbols of one width.
pub open spec fn slots(stream: Seq<bool>, width: nat) -> Seq<Seq<bool>> {
    Seq::new(stream.len() / width, |k: int| slot(stream, width, k))
}

/// A stream made of symbols of one width is split into just those.
pub proof fn slots_of_join(parts: Seq<Seq<bool>>, width: nat)
    requires
        width > 0,
        forall|i: int| 0 <= i < parts.len() ==> (#[trigger] parts[i]).len() == width,
    ensures
        slots(join(parts), width) == parts,
        join(parts).len() == parts.len() * width,
{
    join_uniform(parts, width);
    let n = parts.len();
    assert((n * width) / width == n) by (nonlinear_arith)
        requires
            width > 0,
    ;
    assert(slots(join(parts), width) =~= parts);
}

/// Where symbols before `end` lie in a stream that holds them.
proof fn slots_reach(stream_len: int, width: int, end: int)
    requires
        0 < width,
        0 <= end,
        end * width <= stream_len,
    ensures
        end <= stream_len / width,
{
    assert(end <= stream_len / width) by (nonlinear_arith)
        requires
            0 < width,
            end * width <= stream_len,
    ;
}

/// Whether two symbols before `end` are the same.
fn same_symbol(raw: &BitStream, width: usize, i: usize, j: usize, end: usize) -> (same: bool)
    requires
        width > 0,
        i < end,
        j < end,
        end * width <= raw@.len(),
    ensures
        same == (slots(raw@, width as nat)[i as int] == slots(raw@, width as nat)[j as int]),
{
    let total: usize = raw.bit_len();
    proof {
        slots_reach(raw@.len() as int, width as int, end as int);
        slot_in_bounds(i as int, end as int, width as int);
        slot_in_bounds(j as int, end as int, width as int);
    }
    raw.ranges_match(i * width, j * width, width)
}

/// Appends the run-length coding of the symbols `begin..end` of a stream.
pub fn pack_symbols(
    raw: &BitStream,
    width: usize,
    begin: usize,
    end: usize,
    out: &mut BitStream,
    pairs: &mut Vec<(u8, u8)>,
)
    requires
        width > 0,
        begin <= end,
        end * width <= raw@.len(),
        old(out)@.len() + (end - begin) * width <= MAX_STREAM_BITS,
    ensures
        final(pairs)@ == old(pairs)@ + greedy_pairs(
            slots(raw@, width as nat),
            begin as int,
            end as int,
        ),
        final(out)@ == old(out)@ + join(
            greedy_symbols(slots(raw@, width as nat), begin as int, end as int),
        ),
        final(out)@.len() <= old(out)@.len() + (end - begin) * width,
{
    let ghost symbols = slots(raw@, width as nat);
    let ghost all_pairs = old(pairs)@ + greedy_pairs(symbols, begin as int, end as int);
    let ghost all_bits = old(out)@ + join(greedy_symbols(symbols, begin as int, end as int));
    let ghost room = old(out)@.len() + (end - begin) * width;
    let total: usize = raw.bit_len();
    let mut i: usize = begin;
    proof {
        slots_reach(raw@.len() as int, width as int, end as int);
    }
    while i < end
        invariant
            begin <= i <= end,
            width > 0,
            end * width <= raw@.len() == total,
            end <= symbols.len(),
            symbols == slots(raw@, width as nat),
            pairs@ + greedy_pairs(symbols, i as int, end as int) == all_pairs,
            out@ + join(greedy_symbols(symbols, i as int, end as int)) == all_bits,
            out@.len() + (end - i) * width <= room,
            room <= MAX_STREAM_BITS,
        decreases end - i,
    {
        let ghost start = i as int;
        let ghost stop = end as int;
        let ghost w = width as int;
        let ghost out_before = out@;
        let ghost pairs_before = pairs@;
        proof {
            next_pair_advances(symbols, start, stop);
            slot_in_bounds(start, stop, w);
        }
        let mut run: usize = 1;
        while run < RLE_MAX_RUN_LEN && i + run < end && same_symbol(raw, width, i, i + run, end)
            invariant
                1 <= run <= RLE_MAX_RUN_LEN,
                start == i < end,
                stop == end,
                i + run <= end,
                width > 0,
                w == width,
                end * width <= raw@.len() == total,
                end <= symbols.len(),
                symbols == slots(raw@, width as nat),
                equal_run(symbols, start, stop, 1) == equal_run(symbols, start, stop, run as nat),
            ensures
                equal_run(symbols, start, stop, 1) == run,
            decreases RLE_MAX_RUN_LEN - run,
        {
            run += 1;
        }
        let repeated: usize = if run >= 2 { run } else { 0 };
        let r: u8 = if repeated > 0 { (repeated - 1) as u8 } else { 0 };
        let ghost next = next_pair(symbols, start, stop);
        if repeated > 0 {
            proof {
                room_shrinks(start, start + 1, stop, w, out@.len() as int, room as int);
            }
            out.append_range(raw, i * width, i * width + width);
            assert(raw@.subrange(i * width, i * width + width) == symbols[start]);
        }
        let ghost run_part = if repeated > 0 {
            seq![symbols[start]]
        } else {
            Seq::empty()
        };
        proof {
            if repeated > 0 {
                assert(run_part =~= Seq::empty().push(symbols[start]));
                join_push(Seq::empty(), symbols[start]);
                assert(out@ =~= out_before + join(run_part));
            } else {
                assert(out@ =~= out_before + join(run_part));
            }
        }
        let first: usize = i + repeated;
        let ghost j = first as int;
        let mut literals: usize = 0;
        proof {
            literal_room(start, j, stop, w, out_before.len() as int, out@.len() as int, room as int);
            assert(symbols.subrange(j, j) =~= Seq::empty());
            assert(out_before + join(run_part) + join(symbols.subrange(j, j)) =~= out_before + join(
                run_part,
            ));
        }
        while literals < 135 && first + literals < end && !(first + literals + 1 < end && same_symbol(
            raw,
            width,
            first + literals,
            first + literals + 1,
            end,
        ))
            invariant
                literals <= 135,
                j == first <= end,
                stop == end,
                first + literals <= end,
                width > 0,
                w == width,
                end * width <= raw@.len() == total,
                end <= symbols.len(),
                symbols == slots(raw@, width as nat),
                room <= MAX_STREAM_BITS,
                out@.len() + (stop - (j + literals)) * w <= room,
                out@ == out_before + join(run_part) + join(symbols.subrange(j, j + literals)),
                literal_run(symbols, j, stop, 0) == literal_run(symbols, j, stop, literals as nat),
            ensures
                literal_run(symbols, j, stop, 0) == literals,
            decreases 135 - literals,
        {
            let ghost at = j + literals;
            proof {
                slot_in_bounds(at, stop, w);
                if at + 1 < stop {
                    slot_in_bounds(at + 1, stop, w);
                }
                room_shrinks(at, at + 1, stop, w, out@.len() as int, room as int);
            }
            let position: usize = (first + literals) * width;
            out.append_range(raw, position, position + width);
            proof {
                assert(raw@.subrange(position as int, position + width) == symbols[at]);
                assert(symbols.subrange(j, at + 1) =~= symbols.subrange(j, at).push(symbols[at]));
                join_push(symbols.subrange(j, at), symbols[at]);
                assert(out@ =~= out_before + join(run_part) + join(symbols.subrange(j, at + 1)));
            }
            literals += 1;
        }
        pairs.push((r, literals as u8));
        proof {
            let stop_at = j + literals;
            assert(next == (repeated as nat, literals as nat, stop_at));
            let rest_pairs = greedy_pairs(symbols, stop_at, stop);
            let rest = greedy_symbols(symbols, stop_at, stop);
            assert(greedy_pairs(symbols, start, stop) == seq![(r, literals as u8)] + rest_pairs);
            assert(pairs@ + rest_pairs =~= pairs_before + (seq![(r, literals as u8)] + rest_pairs));
            let lits = symbols.subrange(j, stop_at);
            assert(greedy_symbols(symbols, start, stop) == run_part + lits + rest);
            join_concat(run_part, lits);
            join_concat(run_part + lits, rest);
            assert(out@ + join(rest) =~= out_before + join(greedy_symbols(symbols, start, stop)));
        }
        i = first + literals;
    }
    proof {
        assert(pairs@ =~= pairs@ + greedy_pairs(symbols, i as int, end as int));
        assert(out@ =~= out@ + join(greedy_symbols(symbols, i as int, end as int)));
        assert((end - i) * width == 0) by (nonlinear_arith)
            requires
                end == i,
        ;
    }
}

/// Storing one symbol for one or more covered symbols uses no more room than is left for them.
proof fn room_shrinks(from: int, to: int, end: int, w: int, used: int, room: int)
    requires
        from + 1 == to <= end,
        0 < w,
        used + (end - from) * w <= room,
    ensures
        used + w <= room,
        used + w + (end - to) * w <= room,
{
    assert((end - from) * w == w + (end - to) * w) by (nonlinear_arith)
        requires
            from + 1 == to,
    ;
    assert(0 <= (end - to) * w) by (nonlinear_arith)
        requires
            to <= end,
            0 < w,
    ;
}

/// After a run, the room that is left for the literals behind it.
proof fn literal_room(
    start: int,
    j: int,
    end: int,
    w: int,
    used_before: int,
    used: int,
    room: int,
)
    requires
        start <= j <= end,
        0 < w,
        used_before + (end - start) * w <= room,
        used == (if j > start { used_before + w } else { used_before }),
    ensures
        used + (end - j) * w <= room,
{
    if j > start {
        assert((end - start) * w >= w + (end - j) * w) by (nonlinear_arith)
            requires
                start + 1 <= j <= end,
                0 < w,
        ;
    }
}

} // verus!
