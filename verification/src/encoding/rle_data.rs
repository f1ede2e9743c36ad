//! Run-length coded rows.
use vstd::prelude::*;

use crate::bits::{high_digits_first, BitStream, MAX_STREAM_BITS};
use crate::encoding::deviation::{
    sample_at, slot, slot_in_bounds, split_symbol, DeviationData, DeviationSample, SampleView,
};
use crate::encoding::rle::{
    control_stream, run_samples, run_symbols, source, source_in_bounds, source_of_prefix,
    total_samples, total_symbols, totals_step, writable, write_rle_control_stream,
};
use crate::error::{bad_metadata, EntroGdError};
use crate::text::two_numbers;

verus! {

/// Finds the stored symbol of a row, counted from pair `from` on. A number too great for the
/// machine comes out as the greatest one.
pub(crate) fn find_symbol(pairs: &Vec<(u8, u8)>, from: usize, sample: usize) -> (found: Option<
    usize,
>)
    requires
        from <= pairs@.len(),
    ensures
        found is Some <==> sample < total_samples(pairs@.skip(from as int)),
        found matches Some(symbol) ==> symbol == (if source(
            pairs@.skip(from as int),
            sample as int,
        ) <= usize::MAX {
            source(pairs@.skip(from as int), sample as int)
        } else {
            usize::MAX as int
        }),
{
    let ghost rest = pairs@.skip(from as int);
    let mut k: usize = from;
    let mut left: usize = sample;
    let mut used: usize = 0;
    assert(rest.take(0) =~= Seq::empty());
    while k < pairs.len()
        invariant
            from <= k <= pairs@.len(),
            rest == pairs@.skip(from as int),
            left == sample - total_samples(rest.take(k - from)),
            used == (if total_symbols(rest.take(k - from)) <= usize::MAX {
                total_symbols(rest.take(k - from)) as int
            } else {
                usize::MAX as int
            }),
        decreases pairs@.len() - k,
    {
        let (r, m) = pairs[k];
        let run: usize = if r > 0 { r as usize + 1 } else { 0 };
        let stored: usize = if r > 0 { 1 } else { 0 };
        let literals: usize = m as usize;
        proof {
            let at = k - from;
            totals_step(rest, at);
            assert(rest[at] == (r, m));
            source_of_prefix(rest, at + 1);
            assert(rest.take(at + 1).drop_last() =~= rest.take(at));
        }
        if left < run {
            return Some(used);
        }
        if left - run < literals {
            return Some(used.saturating_add(stored).saturating_add(left - run));
        }
        left = left - run - literals;
        used = used.saturating_add(stored).saturating_add(literals);
        k += 1;
    }
    assert(rest.take(k - from) =~= rest);
    None
}

/// Whether a stored symbol lies inside the stream, counted from a start bit.
pub open spec fn stored_inside(start: int, width: nat, symbol: int, len: nat) -> bool {
    start + symbol * width + width <= len
}

/// The row that stored symbols stand for, counted from a pair and a start bit on, if the pairs
/// stand for that row and its symbol lies inside the stream.
pub open spec fn row_from(
    symbols: Seq<bool>,
    pairs: Seq<(u8, u8)>,
    start: int,
    sample: int,
    num_deviation_bits: nat,
    num_id_bits: nat,
) -> Option<SampleView> {
    let width = num_deviation_bits + num_id_bits;
    if sample < total_samples(pairs) && stored_inside(
        start,
        width,
        source(pairs, sample),
        symbols.len(),
    ) {
        let at = start + source(pairs, sample) * width;
        Some(split_symbol(symbols.subrange(at, at + width), num_deviation_bits))
    } else {
        None
    }
}

/// The content of an optional row.
pub open spec fn sample_view(sample: Option<DeviationSample>) -> Option<SampleView> {
    match sample {
        Some(found) => Some(found@),
        None => None,
    }
}

/// Decodes one row from a pair and a start bit on.
pub(crate) fn decode_sample_from(
    symbols: &BitStream,
    pairs: &Vec<(u8, u8)>,
    start_pair: usize,
    start_bit: usize,
    sample_offset: usize,
    num_deviation_bits: usize,
    num_id_bits: usize,
) -> (sample: Option<DeviationSample>)
    requires
        start_pair <= pairs@.len(),
        start_bit <= symbols@.len(),
        num_deviation_bits + num_id_bits <= usize::MAX,
    ensures
        sample_view(sample) == row_from(
            symbols@,
            pairs@.skip(start_pair as int),
            start_bit as int,
            sample_offset as int,
            num_deviation_bits as nat,
            num_id_bits as nat,
        ),
{
    let width: usize = num_deviation_bits + num_id_bits;
    let len: usize = symbols.bit_len();
    let ghost rest = pairs@.skip(start_pair as int);
    let ghost src = source(rest, sample_offset as int);
    match find_symbol(pairs, start_pair, sample_offset) {
        Some(symbol) => {
            proof {
                source_in_bounds(rest, sample_offset as int);
            }
            if width == 0 {
                proof {
                    assert(src * 0 == 0);
                }
                return Some(sample_at(symbols, start_bit, num_deviation_bits, num_id_bits));
            }
            let room: usize = (len - start_bit) / width;
            proof {
                let space = len - start_bit;
                let w = width as int;
                assert(src < space / w <==> src * w + w <= space) by (nonlinear_arith)
                    requires
                        w > 0,
                        0 <= src,
                        0 <= space,
                ;
                assert(space / w <= space) by (nonlinear_arith)
                    requires
                        w > 0,
                        0 <= space,
                ;
                assert(0 <= src * w) by (nonlinear_arith)
                    requires
                        w > 0,
                        0 <= src,
                ;
            }
            if symbol >= room {
                return None;
            }
            Some(
                sample_at(symbols, start_bit + symbol * width, num_deviation_bits, num_id_bits),
            )
        },
        None => None,
    }
}

/// Whether a stream of symbols is what pairs and stored symbols stand for.
pub open spec fn expands_to(
    pairs: Seq<(u8, u8)>,
    symbols: Seq<bool>,
    width: nat,
    raw: Seq<bool>,
) -> bool {
    &&& raw.len() == total_samples(pairs) * width
    &&& forall|s: int|
        0 <= s < total_samples(pairs) ==> #[trigger] slot(raw, width, s) == slot(
            symbols,
            width,
            source(pairs, s),
        )
}

/// Symbols that stand before others in a stream are not moved by those.
pub proof fn slot_of_prefix(stream: Seq<bool>, more: Seq<bool>, width: nat, count: int, s: int)
    requires
        stream.len() == count * width,
        0 <= s < count,
    ensures
        slot(stream + more, width, s) == slot(stream, width, s),
{
    slot_in_bounds(s, count, width as int);
    assert(slot(stream + more, width, s) =~= slot(stream, width, s));
}

/// Symbols copied to the end of a stream stand there in their order.
pub proof fn slot_of_copied(
    stream: Seq<bool>,
    from: Seq<bool>,
    width: nat,
    count: int,
    first: int,
    copied: int,
    t: int,
)
    requires
        stream.len() == count * width,
        0 <= t < copied,
        0 <= count,
        0 <= first,
        (first + copied) * width <= from.len(),
    ensures
        slot(
            stream + from.subrange(first * width, (first + copied) * width),
            width,
            count + t,
        ) == slot(from, width, first + t),
{
    let w = width as int;
    slot_in_bounds(first + t, first + copied, w);
    assert(first * w <= (first + t) * w) by (nonlinear_arith)
        requires
            0 <= t,
            0 <= w,
    ;
    assert(0 <= first * w) by (nonlinear_arith)
        requires
            0 <= first,
            0 <= w,
    ;
    assert((count + t) * w == count * w + t * w) by (nonlinear_arith);
    assert((first + t) * w == first * w + t * w) by (nonlinear_arith);
    assert(slot(
        stream + from.subrange(first * width, (first + copied) * width),
        width,
        count + t,
    ) =~= slot(from, width, first + t));
}

/// Counts rows and stored symbols, as long as there are no more rows than expected.
fn count_pairs(pairs: &Vec<(u8, u8)>, num_samples: usize) -> (counts: Option<(usize, usize)>)
    ensures
        counts is Some <==> total_samples(pairs@) <= num_samples,
        counts matches Some((samples, symbols)) ==> samples == total_samples(pairs@) && symbols
            == total_symbols(pairs@) && symbols <= samples,
{
    let mut samples: usize = 0;
    let mut symbols: usize = 0;
    let mut k: usize = 0;
    assert(pairs@.take(0) =~= Seq::empty());
    while k < pairs.len()
        invariant
            k <= pairs@.len(),
            samples == total_samples(pairs@.take(k as int)),
            symbols == total_symbols(pairs@.take(k as int)),
            symbols <= samples <= num_samples,
        decreases pairs@.len() - k,
    {
        let (r, m) = pairs[k];
        let run: usize = if r > 0 { r as usize + 1 } else { 0 };
        let stored: usize = if r > 0 { 1 } else { 0 };
        proof {
            totals_step(pairs@, k as int);
            source_of_prefix(pairs@, k as int + 1);
        }
        if num_samples - samples < run + m as usize {
            return None;
        }
        samples = samples + run + m as usize;
        symbols = symbols + stored + m as usize;
        k += 1;
    }
    assert(pairs@.take(k as int) =~= pairs@);
    Some((samples, symbols))
}

/// Writes out the symbols of all rows.
fn expand_pairs(symbols: &BitStream, pairs: &Vec<(u8, u8)>, width: usize) -> (raw: BitStream)
    requires
        total_samples(pairs@) * width <= MAX_STREAM_BITS,
        total_symbols(pairs@) * width <= symbols@.len(),
    ensures
        expands_to(pairs@, symbols@, width as nat, raw@),
{
    let len: usize = symbols.bit_len();
    let mut raw = BitStream::empty();
    let mut cursor: usize = 0;
    let mut k: usize = 0;
    let ghost w = width as nat;
    assert(pairs@.take(0) =~= Seq::empty());
    assert(0 * w == 0);
    while k < pairs.len()
        invariant
            k <= pairs@.len(),
            w == width,
            len == symbols@.len() <= MAX_STREAM_BITS,
            total_samples(pairs@) * w <= MAX_STREAM_BITS,
            total_symbols(pairs@) * w <= len,
            cursor == total_symbols(pairs@.take(k as int)) * w,
            expands_to(pairs@.take(k as int), symbols@, w, raw@),
        decreases pairs@.len() - k,
    {
        let (r, m) = pairs[k];
        let ghost before = pairs@.take(k as int);
        let ghost after = pairs@.take(k as int + 1);
        let ghost n = total_samples(before) as int;
        let ghost c = total_symbols(before) as int;
        let ghost run = run_samples((r, m)) as int;
        let ghost stored = run_symbols((r, m)) as int;
        let ghost lits = m as int;
        proof {
            totals_step(pairs@, k as int);
            source_of_prefix(pairs@, k as int + 1);
            assert(after.drop_last() =~= before);
            assert((n + run + lits) * w <= total_samples(pairs@) * w) by (nonlinear_arith)
                requires
                    n + run + lits <= total_samples(pairs@),
            ;
            assert((c + stored + lits) * w <= total_symbols(pairs@) * w) by (nonlinear_arith)
                requires
                    c + stored + lits <= total_symbols(pairs@),
            ;
            assert((n + run + lits) * w == n * w + run * w + lits * w) by (nonlinear_arith);
            assert((c + stored + lits) * w == c * w + stored * w + lits * w) by (nonlinear_arith);
            assert(0 <= lits * w && 0 <= run * w) by (nonlinear_arith)
                requires
                    0 <= lits,
                    0 <= run,
            ;
        }
        let ghost raw_before = raw@;
        if r > 0 {
            let run_len: usize = r as usize + 1;
            let mut t: usize = 0;
            proof {
                assert(stored * w == w) by (nonlinear_arith)
                    requires
                        stored == 1,
                ;
                assert(n * w + 0 * w == n * w);
            }
            while t < run_len
                invariant
                    t <= run_len == run,
                    w == width,
                    n >= 0,
                    c >= 0,
                    cursor == c * w,
                    cursor + width <= symbols@.len() <= MAX_STREAM_BITS,
                    n * w + run * w <= MAX_STREAM_BITS,
                    raw@.len() == (n + t) * w,
                    raw_before.len() == n * w,
                    forall|s: int|
                        0 <= s < n ==> #[trigger] slot(raw@, w, s) == slot(raw_before, w, s),
                    forall|s: int|
                        n <= s < n + t ==> #[trigger] slot(raw@, w, s) == slot(symbols@, w, c),
                decreases run_len - t,
            {
                proof {
                    assert((n + t) * w + w == (n + t + 1) * w) by (nonlinear_arith);
                    assert((n + t + 1) * w <= n * w + run * w) by (nonlinear_arith)
                        requires
                            t + 1 <= run,
                    ;
                    assert((c + 1) * w == c * w + w) by (nonlinear_arith);
                }
                let ghost old_raw = raw@;
                raw.append_range(symbols, cursor, cursor + width);
                proof {
                    let more = symbols@.subrange(cursor as int, cursor + width);
                    assert forall|s: int| 0 <= s < n + t + 1 implies #[trigger] slot(raw@, w, s)
                        == (if s < n + t { slot(old_raw, w, s) } else { slot(symbols@, w, c) }) by {
                        if s < n + t {
                            slot_of_prefix(old_raw, more, w, n + t, s);
                        } else {
                            slot_of_copied(old_raw, symbols@, w, n + t, c, 1, 0);
                        }
                    }
                }
                t += 1;
            }
            cursor = cursor + width;
        }
        let ghost raw_mid = raw@;
        proof {
            assert((c + stored) * w == c * w + stored * w) by (nonlinear_arith);
            assert((n + run) * w == n * w + run * w) by (nonlinear_arith);
            if r == 0 {
                assert(0 * w == 0);
            }
            assert(raw_mid.len() == (n + run) * w);
            assert(cursor == (c + stored) * w);
        }
        let end: usize = cursor + m as usize * width;
        raw.append_range(symbols, cursor, end);
        proof {
            let more = symbols@.subrange(cursor as int, end as int);
            assert((c + stored + lits) * w == end);
            assert(raw@.len() == (n + run + lits) * w);
            assert forall|s: int| 0 <= s < total_samples(after) implies #[trigger] slot(raw@, w, s)
                == slot(symbols@, w, source(after, s)) by {
                if s < n + run {
                    slot_of_prefix(raw_mid, more, w, n + run, s);
                    if s < n {
                        assert(slot(raw_mid, w, s) == slot(raw_before, w, s));
                        assert(slot(raw_before, w, s) == slot(symbols@, w, source(before, s)));
                    } else {
                        assert(slot(raw_mid, w, s) == slot(symbols@, w, c));
                    }
                } else {
                    slot_of_copied(
                        raw_mid,
                        symbols@,
                        w,
                        n + run,
                        c + stored,
                        lits,
                        s - (n + run),
                    );
                }
            }
        }
        cursor = end;
        k += 1;
    }
    assert(pairs@.take(k as int) =~= pairs@);
    raw
}

/// Whether pairs and stored symbols stand for exactly the given number of rows.
pub open spec fn complete(
    symbols: Seq<bool>,
    pairs: Seq<(u8, u8)>,
    num_samples: nat,
    width: nat,
) -> bool {
    &&& total_samples(pairs) == num_samples
    &&& total_symbols(pairs) * width == symbols.len()
}

/// Writes out run-length coded rows.
fn expand_rows(
    symbols: &BitStream,
    pairs: &Vec<(u8, u8)>,
    num_samples: usize,
    num_deviation_bits: usize,
    num_id_bits: usize,
) -> (result: Result<DeviationData, EntroGdError>)
    requires
        num_deviation_bits + num_id_bits <= usize::MAX,
        num_samples * (num_deviation_bits + num_id_bits) <= MAX_STREAM_BITS || num_samples * (
        num_deviation_bits + num_id_bits) > usize::MAX,
    ensures
        result is Ok <==> num_samples * (num_deviation_bits + num_id_bits) <= usize::MAX
            && complete(
            symbols@,
            pairs@,
            num_samples as nat,
            (num_deviation_bits + num_id_bits) as nat,
        ),
        result matches Ok(data) ==> {
            &&& data@.num_samples == num_samples
            &&& data@.num_deviation_bits == num_deviation_bits
            &&& data@.num_id_bits == num_id_bits
            &&& expands_to(pairs@, symbols@, data@.symbol_width(), data@.bits)
        },
        result matches Err(error) ==> error is InvalidMetadata,
{
    let width: usize = num_deviation_bits + num_id_bits;
    if num_samples.checked_mul(width).is_none() {
        return Err(bad_metadata("raw deviation stream length overflow"));
    }
    let (samples, stored) = match count_pairs(pairs, num_samples) {
        Some(counts) => counts,
        None => {
            return Err(bad_metadata("RLE decoded sample count exceeds the expected one"));
        },
    };
    if samples != num_samples {
        return Err(
            EntroGdError::InvalidMetadata {
                message: two_numbers(
                    "RLE decoded sample count mismatch: expected ",
                    num_samples,
                    ", got ",
                    samples,
                ),
            },
        );
    }
    proof {
        assert(stored * width <= num_samples * width) by (nonlinear_arith)
            requires
                stored <= num_samples,
        ;
    }
    let len: usize = symbols.bit_len();
    let needed: usize = stored * width;
    if needed > len {
        return Err(bad_metadata("RLE symbol exceeds symbol stream length"));
    }
    if needed < len {
        return Err(
            EntroGdError::InvalidMetadata {
                message: two_numbers(
                    "RLE symbol stream not fully consumed: consumed ",
                    needed,
                    " bits of ",
                    len,
                ),
            },
        );
    }
    let raw = expand_pairs(symbols, pairs, width);
    Ok(DeviationData::new(raw, num_samples, num_deviation_bits, num_id_bits))
}

/// How many rows the first `limit` ones are, where `num_samples` are declared and the pairs
/// stand for a number of their own.
pub open spec fn available(pairs: Seq<(u8, u8)>, limit: nat, num_samples: nat) -> nat {
    let capped = if limit <= num_samples {
        limit
    } else {
        num_samples
    };
    if capped <= total_samples(pairs) {
        capped
    } else {
        total_samples(pairs)
    }
}

/// Decodes the first rows.
fn first_rows(
    symbols: &BitStream,
    pairs: &Vec<(u8, u8)>,
    limit: usize,
    num_samples: usize,
    num_deviation_bits: usize,
    num_id_bits: usize,
) -> (result: Result<Vec<DeviationSample>, EntroGdError>)
    requires
        num_deviation_bits + num_id_bits <= usize::MAX,
    ensures
        result is Ok <==> (forall|s: int|
            0 <= s < available(pairs@, limit as nat, num_samples as nat) ==> #[trigger] row_from(
                symbols@,
                pairs@,
                0,
                s,
                num_deviation_bits as nat,
                num_id_bits as nat,
            ) is Some),
        result matches Ok(samples) ==> {
            &&& samples@.len() == available(pairs@, limit as nat, num_samples as nat)
            &&& forall|s: int|
                0 <= s < samples@.len() ==> Some((#[trigger] samples@[s])@) == row_from(
                    symbols@,
                    pairs@,
                    0,
                    s,
                    num_deviation_bits as nat,
                    num_id_bits as nat,
                )
        },
        result matches Err(error) ==> error is InvalidMetadata,
{
    let capped: usize = if limit <= num_samples { limit } else { num_samples };
    let width: usize = num_deviation_bits + num_id_bits;
    let len: usize = symbols.bit_len();
    let mut samples: Vec<DeviationSample> = Vec::new();
    let ghost d = num_deviation_bits as nat;
    let ghost i = num_id_bits as nat;
    let ghost goal = available(pairs@, limit as nat, num_samples as nat) as int;
    let mut k: usize = 0;
    let mut cursor: usize = 0;
    assert(pairs@.take(0) =~= Seq::empty());
    assert(0 * width == 0);
    while k < pairs.len() && samples.len() < capped
        invariant
            k <= pairs@.len(),
            capped == (if limit <= num_samples { limit } else { num_samples }),
            goal == available(pairs@, limit as nat, num_samples as nat),
            d == num_deviation_bits,
            i == num_id_bits,
            width == num_deviation_bits + num_id_bits,
            len == symbols@.len() <= MAX_STREAM_BITS,
            samples@.len() <= goal,
            samples@.len() < capped ==> samples@.len() == total_samples(pairs@.take(k as int)),
            samples@.len() < capped ==> cursor == total_symbols(pairs@.take(k as int)) * width,
            samples@.len() < capped ==> cursor <= len,
            forall|t: int|
                0 <= t < samples@.len() ==> Some((#[trigger] samples@[t])@) == row_from(
                    symbols@,
                    pairs@,
                    0,
                    t,
                    d,
                    i,
                ),
        decreases pairs@.len() - k,
    {
        let (r, m) = pairs[k];
        let ghost before = pairs@.take(k as int);
        let ghost after = pairs@.take(k as int + 1);
        let ghost n = total_samples(before) as int;
        let ghost c = total_symbols(before) as int;
        proof {
            totals_step(pairs@, k as int);
            source_of_prefix(pairs@, k as int + 1);
            assert(after.drop_last() =~= before);
        }
        let run: usize = if r > 0 { r as usize + 1 } else { 0 };
        let mut left: usize = run;
        while left > 0 && samples.len() < capped
            invariant
                left <= run == run_samples((r, m)),
                run > 0 ==> r > 0,
                capped == (if limit <= num_samples { limit } else { num_samples }),
                goal == available(pairs@, limit as nat, num_samples as nat),
                d == num_deviation_bits,
                i == num_id_bits,
                width == num_deviation_bits + num_id_bits,
                len == symbols@.len() <= MAX_STREAM_BITS,
                cursor == c * width <= len,
                left < run ==> cursor + width <= len,
                0 <= k < pairs@.len(),
                pairs@[k as int] == (r, m),
                before == pairs@.take(k as int),
                after == pairs@.take(k as int + 1),
                after.drop_last() == before,
                n == total_samples(before),
                c == total_symbols(before),
                total_samples(after) == n + run + m,
                total_samples(after) <= total_samples(pairs@),
                forall|s: int|
                    0 <= s < total_samples(after) ==> #[trigger] source(pairs@, s) == source(
                        after,
                        s,
                    ),
                samples@.len() <= goal,
                samples@.len() == n + (run - left),
                forall|t: int|
                    0 <= t < samples@.len() ==> Some((#[trigger] samples@[t])@) == row_from(
                        symbols@,
                        pairs@,
                        0,
                        t,
                        d,
                        i,
                    ),
            decreases left,
        {
            let ghost s = samples@.len() as int;
            assert(source(pairs@, s) == c);
            if width > len - cursor {
                assert(row_from(symbols@, pairs@, 0, s, d, i) is None);
                return Err(bad_metadata("RLE run symbol exceeds symbol stream length"));
            }
            samples.push(sample_at(symbols, cursor, num_deviation_bits, num_id_bits));
            left -= 1;
        }
        if samples.len() < capped {
            if r > 0 {
                assert((c + 1) * width == c * width + width) by (nonlinear_arith);
                cursor = cursor + width;
            }
            let ghost stored = run_symbols((r, m)) as int;
            let mut t: usize = 0;
            assert((c + stored + 0) * width == (c + stored) * width);
            while t < m as usize && samples.len() < capped
                invariant
                    t <= m,
                    run == run_samples((r, m)),
                    stored == run_symbols((r, m)),
                    capped == (if limit <= num_samples { limit } else { num_samples }),
                    goal == available(pairs@, limit as nat, num_samples as nat),
                    d == num_deviation_bits,
                    i == num_id_bits,
                    width == num_deviation_bits + num_id_bits,
                    len == symbols@.len() <= MAX_STREAM_BITS,
                    cursor == (c + stored + t) * width <= len,
                    0 <= k < pairs@.len(),
                    pairs@[k as int] == (r, m),
                    before == pairs@.take(k as int),
                    after == pairs@.take(k as int + 1),
                    after.drop_last() == before,
                    n == total_samples(before),
                    c == total_symbols(before),
                    total_samples(after) == n + run + m,
                    total_samples(after) <= total_samples(pairs@),
                    forall|s: int|
                        0 <= s < total_samples(after) ==> #[trigger] source(pairs@, s) == source(
                            after,
                            s,
                        ),
                    samples@.len() <= goal,
                    samples@.len() == n + run + t,
                    forall|q: int|
                        0 <= q < samples@.len() ==> Some((#[trigger] samples@[q])@) == row_from(
                            symbols@,
                            pairs@,
                            0,
                            q,
                            d,
                            i,
                        ),
                decreases m - t,
            {
                let ghost s = samples@.len() as int;
                assert(source(pairs@, s) == c + stored + t);
                if width > len - cursor {
                    assert(row_from(symbols@, pairs@, 0, s, d, i) is None);
                    return Err(bad_metadata("RLE literal symbol exceeds symbol stream length"));
                }
                samples.push(sample_at(symbols, cursor, num_deviation_bits, num_id_bits));
                assert((c + stored + t + 1) * width == (c + stored + t) * width + width)
                    by (nonlinear_arith);
                cursor = cursor + width;
                t += 1;
            }
        }
        k += 1;
    }
    proof {
        assert(pairs@.take(pairs@.len() as int) =~= pairs@);
        assert(samples@.len() == goal);
        assert forall|t: int| 0 <= t < goal implies #[trigger] row_from(
            symbols@,
            pairs@,
            0,
            t,
            d,
            i,
        ) is Some by {
            assert(Some(samples@[t]@) == row_from(symbols@, pairs@, 0, t, d, i));
        }
    }
    Ok(samples)
}

/// Run-length coded rows.
#[derive(Debug, PartialEq, Eq)]
pub struct RleDeviationData {
    pub symbol_bit_stream: BitStream,
    pub rm_values: Vec<(u8, u8)>,
    pub rm_control_stream: BitStream,
    pub num_samples: usize,
    pub num_deviation_bits: usize,
    pub num_id_bits: usize,
}

/// The content of run-length coded rows.
#[verifier::ext_equal]
pub struct RleView {
    pub symbols: Seq<bool>,
    pub pairs: Seq<(u8, u8)>,
    pub num_samples: nat,
    pub num_deviation_bits: nat,
    pub num_id_bits: nat,
}

impl View for RleDeviationData {
    type V = RleView;

    open spec fn view(&self) -> RleView {
        RleView {
            symbols: self.symbol_bit_stream@,
            pairs: self.rm_values@,
            num_samples: self.num_samples as nat,
            num_deviation_bits: self.num_deviation_bits as nat,
            num_id_bits: self.num_id_bits as nat,
        }
    }
}

impl RleView {
    /// The bits of a symbol.
    pub open spec fn symbol_width(self) -> nat {
        self.num_deviation_bits + self.num_id_bits
    }

    /// The row at an index.
    pub open spec fn sample(self, index: int) -> Option<SampleView> {
        if index < self.num_samples {
            row_from(
                self.symbols,
                self.pairs,
                0,
                index,
                self.num_deviation_bits,
                self.num_id_bits,
            )
        } else {
            None
        }
    }
}

pub(crate) fn copy_pairs(pairs: &Vec<(u8, u8)>) -> (copy: Vec<(u8, u8)>)
    ensures
        copy@ == pairs@,
{
    let mut copy: Vec<(u8, u8)> = Vec::new();
    let mut k: usize = 0;
    while k < pairs.len()
        invariant
            k <= pairs@.len(),
            copy@ == pairs@.take(k as int),
        decreases pairs@.len() - k,
    {
        copy.push(pairs[k]);
        assert(pairs@.take(k as int + 1) =~= pairs@.take(k as int).push(pairs@[k as int]));
        k += 1;
    }
    assert(pairs@.take(k as int) =~= pairs@);
    copy
}

impl RleDeviationData {
    /// Whether the control stream is that of the pairs, and a symbol's width is a machine number.
    pub open spec fn valid(self) -> bool {
        &&& self.rm_control_stream@ == control_stream(self.rm_values@)
        &&& self@.symbol_width() <= usize::MAX
    }

    /// Rows from stored symbols and the pairs that say how often each occurs.
    pub fn new(
        symbol_bit_stream: BitStream,
        rm_values: Vec<(u8, u8)>,
        num_samples: usize,
        num_deviation_bits: usize,
        num_id_bits: usize,
    ) -> (data: RleDeviationData)
        requires
            writable(rm_values@),
            rm_values@.len() * 16 <= MAX_STREAM_BITS,
            num_deviation_bits + num_id_bits <= usize::MAX,
        ensures
            data.valid(),
            data@ == (RleView {
                symbols: symbol_bit_stream@,
                pairs: rm_values@,
                num_samples: num_samples as nat,
                num_deviation_bits: num_deviation_bits as nat,
                num_id_bits: num_id_bits as nat,
            }),
    {
        let rm_control_stream = write_rle_control_stream(&rm_values);
        RleDeviationData {
            symbol_bit_stream,
            rm_values,
            rm_control_stream,
            num_samples,
            num_deviation_bits,
            num_id_bits,
        }
    }

    /// The row at an index.
    pub fn get_sample(&self, sample_idx: usize) -> (sample: Option<DeviationSample>)
        requires
            self.valid(),
        ensures
            sample_view(sample) == self@.sample(sample_idx as int),
    {
        if sample_idx >= self.num_samples {
            return None;
        }
        assert(self.rm_values@.skip(0) =~= self.rm_values@);
        decode_sample_from(
            &self.symbol_bit_stream,
            &self.rm_values,
            0,
            0,
            sample_idx,
            self.num_deviation_bits,
            self.num_id_bits,
        )
    }

    /// The stored symbols.
    pub fn symbol_bit_stream(&self) -> (stream: &BitStream)
        ensures
            stream@ == self@.symbols,
    {
        &self.symbol_bit_stream
    }

    /// The pairs as control values.
    pub fn rm_control_stream(&self) -> (stream: &BitStream)
        requires
            self.valid(),
        ensures
            stream@ == control_stream(self@.pairs),
    {
        &self.rm_control_stream
    }

    /// The pairs.
    pub fn rm_values(&self) -> (pairs: &Vec<(u8, u8)>)
        ensures
            pairs@ == self@.pairs,
    {
        &self.rm_values
    }

    /// The number of rows.
    pub fn get_num_samples(&self) -> (samples: usize)
        ensures
            samples == self@.num_samples,
    {
        self.num_samples
    }

    /// The width of the deviation part of a symbol.
    pub fn get_num_deviation_bits(&self) -> (bits: usize)
        ensures
            bits == self@.num_deviation_bits,
    {
        self.num_deviation_bits
    }

    /// The width of the base number of a symbol.
    pub fn get_num_id_bits(&self) -> (bits: usize)
        ensures
            bits == self@.num_id_bits,
    {
        self.num_id_bits
    }

    /// The size of the encoded rows in bits.
    pub fn get_encoded_size(&self) -> (bits: usize)
        requires
            self.valid(),
        ensures
            bits == self@.symbols.len() + control_stream(self@.pairs).len(),
    {
        self.symbol_bit_stream.bit_len() + self.rm_control_stream.bit_len()
    }

    /// The first `limit` rows, or all of them where there are fewer.
    pub fn for_each_sample_n(&self, limit: usize) -> (result: Result<
        Vec<DeviationSample>,
        EntroGdError,
    >)
        requires
            self.valid(),
        ensures
            result is Ok <==> (forall|s: int|
                0 <= s < available(self@.pairs, limit as nat, self@.num_samples) ==> #[trigger] self@.sample(s) is Some),
            result matches Ok(samples) ==> {
                &&& samples@.len() == available(self@.pairs, limit as nat, self@.num_samples)
                &&& forall|s: int|
                    0 <= s < samples@.len() ==> Some((#[trigger] samples@[s])@) == self@.sample(s)
            },
            result matches Err(error) ==> error is InvalidMetadata,
    {
        let result = first_rows(
            &self.symbol_bit_stream,
            &self.rm_values,
            limit,
            self.num_samples,
            self.num_deviation_bits,
            self.num_id_bits,
        );
        proof {
            let n = available(self@.pairs, limit as nat, self@.num_samples) as int;
            assert forall|s: int| 0 <= s < n implies #[trigger] self@.sample(s) == row_from(
                self@.symbols,
                self@.pairs,
                0,
                s,
                self@.num_deviation_bits,
                self@.num_id_bits,
            ) by {}
            if forall|s: int| 0 <= s < n ==> #[trigger] self@.sample(s) is Some {
                assert forall|s: int| 0 <= s < n implies #[trigger] row_from(
                    self@.symbols,
                    self@.pairs,
                    0,
                    s,
                    self@.num_deviation_bits,
                    self@.num_id_bits,
                ) is Some by {
                    assert(self@.sample(s) is Some);
                }
            }
        }
        result
    }

    /// The rows as symbols of one width.
    pub fn to_deviation_data(&self) -> (result: Result<DeviationData, EntroGdError>)
        requires
            self.valid(),
            self@.num_samples * self@.symbol_width() <= MAX_STREAM_BITS || self@.num_samples
                * self@.symbol_width() > usize::MAX,
        ensures
            result is Ok <==> self@.num_samples * self@.symbol_width() <= usize::MAX && complete(
                self@.symbols,
                self@.pairs,
                self@.num_samples,
                self@.symbol_width(),
            ),
            result matches Ok(data) ==> {
                &&& data@.num_samples == self@.num_samples
                &&& data@.num_deviation_bits == self@.num_deviation_bits
                &&& data@.num_id_bits == self@.num_id_bits
                &&& expands_to(self@.pairs, self@.symbols, self@.symbol_width(), data@.bits)
            },
            result matches Err(error) ==> error is InvalidMetadata,
    {
        expand_rows(
            &self.symbol_bit_stream,
            &self.rm_values,
            self.num_samples,
            self.num_deviation_bits,
            self.num_id_bits,
        )
    }
}

impl Clone for RleDeviationData {
    fn clone(&self) -> (copy: RleDeviationData)
        ensures
            copy@ == self@,
            self.valid() ==> copy.valid(),
    {
        RleDeviationData {
            symbol_bit_stream: self.symbol_bit_stream.clone(),
            rm_values: copy_pairs(&self.rm_values),
            rm_control_stream: self.rm_control_stream.clone(),
            num_samples: self.num_samples,
            num_deviation_bits: self.num_deviation_bits,
            num_id_bits: self.num_id_bits,
        }
    }
}

/// Run-length coded rows in groups of equal size, with the place where each group starts, so
/// that a row can be decoded from the start of its group.
#[derive(Debug, PartialEq, Eq)]
pub struct RleDeviationOffsetData {
    pub symbol_bit_stream: BitStream,
    pub rm_values: Vec<(u8, u8)>,
    pub rm_control_stream: BitStream,
    pub row_offset_stream: BitStream,
    pub row_offsets: Vec<(u32, u32)>,
    pub original_num_samples: usize,
    pub row_width: usize,
    pub num_samples: usize,
    pub num_deviation_bits: usize,
    pub num_id_bits: usize,
}

/// The content of run-length coded rows with group starts.
#[verifier::ext_equal]
pub struct RleOffsetView {
    pub symbols: Seq<bool>,
    pub pairs: Seq<(u8, u8)>,
    pub row_offsets: Seq<(u32, u32)>,
    pub original_num_samples: nat,
    pub row_width: nat,
    pub num_samples: nat,
    pub num_deviation_bits: nat,
    pub num_id_bits: nat,
}

impl View for RleDeviationOffsetData {
    type V = RleOffsetView;

    open spec fn view(&self) -> RleOffsetView {
        RleOffsetView {
            symbols: self.symbol_bit_stream@,
            pairs: self.rm_values@,
            row_offsets: self.row_offsets@,
            original_num_samples: self.original_num_samples as nat,
            row_width: self.row_width as nat,
            num_samples: self.num_samples as nat,
            num_deviation_bits: self.num_deviation_bits as nat,
            num_id_bits: self.num_id_bits as nat,
        }
    }
}

/// Whether one group start is no later than another, pairs first.
pub open spec fn offset_not_after(first: (u32, u32), second: (u32, u32)) -> bool {
    first.0 < second.0 || (first.0 == second.0 && first.1 <= second.1)
}

impl RleOffsetView {
    /// The bits of a symbol.
    pub open spec fn symbol_width(self) -> nat {
        self.num_deviation_bits + self.num_id_bits
    }

    /// How many groups the original rows make up.
    pub open spec fn row_count(self) -> nat {
        if self.original_num_samples == 0 {
            0
        } else {
            self.original_num_samples / self.row_width
        }
    }

    /// Whether the original rows come in whole groups, each with a start that lies inside the
    /// data, the first one at its beginning and no one before an earlier one.
    pub open spec fn well_formed(self) -> bool {
        &&& self.original_num_samples <= self.num_samples
        &&& self.original_num_samples > 0 ==> self.row_width > 0 && self.original_num_samples
            % self.row_width == 0
        &&& self.row_offsets.len() == self.row_count()
        &&& self.row_offsets.len() > 0 ==> self.row_offsets[0] == (0u32, 0u32)
        &&& forall|k: int|
            0 <= k < self.row_offsets.len() ==> (#[trigger] self.row_offsets[k]).0
                <= self.pairs.len() && self.row_offsets[k].1 <= self.symbols.len()
        &&& forall|j: int, k: int|
            0 <= j < k < self.row_offsets.len() ==> offset_not_after(
                #[trigger] self.row_offsets[j],
                #[trigger] self.row_offsets[k],
            )
    }

    /// The row at an index: an original row from the start of its group, any other one from the
    /// beginning.
    pub open spec fn sample(self, index: int) -> Option<SampleView> {
        if index >= self.num_samples {
            None
        } else if self.row_width > 0 && index < self.original_num_samples {
            let start = self.row_offsets[index / self.row_width as int];
            row_from(
                self.symbols,
                self.pairs.skip(start.0 as int),
                start.1 as int,
                index % self.row_width as int,
                self.num_deviation_bits,
                self.num_id_bits,
            )
        } else {
            row_from(
                self.symbols,
                self.pairs,
                0,
                index,
                self.num_deviation_bits,
                self.num_id_bits,
            )
        }
    }
}

/// The group starts as bits, 32 for each number.
pub open spec fn offset_bits(offsets: Seq<(u32, u32)>) -> Seq<bool>
    decreases offsets.len(),
{
    if offsets.len() == 0 {
        Seq::empty()
    } else {
        offset_bits(offsets.drop_last()) + high_digits_first(offsets.last().0 as nat, 32)
            + high_digits_first(offsets.last().1 as nat, 32)
    }
}

fn write_offsets(offsets: &Vec<(u32, u32)>) -> (out: BitStream)
    requires
        offsets@.len() * 64 <= MAX_STREAM_BITS,
    ensures
        out@ == offset_bits(offsets@),
{
    let mut out = BitStream::empty();
    let mut k: usize = 0;
    while k < offsets.len()
        invariant
            k <= offsets@.len(),
            offsets@.len() * 64 <= MAX_STREAM_BITS,
            out@ == offset_bits(offsets@.take(k as int)),
            out@.len() == k * 64,
        decreases offsets@.len() - k,
    {
        let (rm_idx, symbol_bit_idx) = offsets[k];
        append_u32_bits(&mut out, rm_idx);
        append_u32_bits(&mut out, symbol_bit_idx);
        assert(offsets@.take(k as int + 1).drop_last() =~= offsets@.take(k as int));
        k += 1;
    }
    assert(offsets@.take(k as int) =~= offsets@);
    out
}

/// Appends a number as 32 bits, the most significant one first.
pub fn append_u32_bits(out: &mut BitStream, value: u32)
    requires
        old(out)@.len() + 32 <= MAX_STREAM_BITS,
    ensures
        final(out)@ == old(out)@ + high_digits_first(value as nat, 32),
{
    out.append_high_first(value as u64, 32);
}

impl RleDeviationOffsetData {
    /// Whether the group starts are sound and the derived streams are those of pairs and starts.
    pub open spec fn valid(self) -> bool {
        &&& self@.well_formed()
        &&& self.rm_control_stream@ == control_stream(self.rm_values@)
        &&& self.row_offset_stream@ == offset_bits(self.row_offsets@)
        &&& self@.symbol_width() <= usize::MAX
    }

    /// Rows from stored symbols, pairs and group starts.
    pub fn new(
        symbol_bit_stream: BitStream,
        rm_values: Vec<(u8, u8)>,
        row_offsets: Vec<(u32, u32)>,
        original_num_samples: usize,
        row_width: usize,
        num_samples: usize,
        num_deviation_bits: usize,
        num_id_bits: usize,
    ) -> (result: Result<RleDeviationOffsetData, EntroGdError>)
        requires
            writable(rm_values@),
            rm_values@.len() * 16 <= MAX_STREAM_BITS,
            row_offsets@.len() * 64 <= MAX_STREAM_BITS,
            num_deviation_bits + num_id_bits <= usize::MAX,
        ensures
            ({
                let content = RleOffsetView {
                    symbols: symbol_bit_stream@,
                    pairs: rm_values@,
                    row_offsets: row_offsets@,
                    original_num_samples: original_num_samples as nat,
                    row_width: row_width as nat,
                    num_samples: num_samples as nat,
                    num_deviation_bits: num_deviation_bits as nat,
                    num_id_bits: num_id_bits as nat,
                };
                &&& result is Ok <==> content.well_formed()
                &&& result matches Ok(data) ==> data@ == content && data.valid()
            }),
            result matches Err(error) ==> error is InvalidMetadata,
    {
        if original_num_samples > num_samples {
            return Err(bad_metadata("original sample count exceeds total sample count"));
        }
        if original_num_samples > 0 && row_width == 0 {
            return Err(bad_metadata("row width must be > 0 when original samples are present"));
        }
        let expected_row_count: usize = if original_num_samples == 0 {
            0
        } else {
            if original_num_samples % row_width != 0 {
                return Err(
                    EntroGdError::InvalidMetadata {
                        message: two_numbers(
                            "original sample count ",
                            original_num_samples,
                            " is not divisible by row width ",
                            row_width,
                        ),
                    },
                );
            }
            original_num_samples / row_width
        };
        if row_offsets.len() != expected_row_count {
            return Err(
                EntroGdError::InvalidMetadata {
                    message: two_numbers(
                        "row offset count mismatch: expected ",
                        expected_row_count,
                        ", got ",
                        row_offsets.len(),
                    ),
                },
            );
        }
        if expected_row_count > 0 {
            let (rm_idx, symbol_bit_idx) = row_offsets[0];
            if rm_idx != 0 || symbol_bit_idx != 0 {
                return Err(
                    bad_metadata("first row offset must start at rm index 0 and symbol bit 0"),
                );
            }
        }
        let stream_len: usize = symbol_bit_stream.bit_len();
        let mut k: usize = 0;
        while k < row_offsets.len()
            invariant
                k <= row_offsets@.len(),
                stream_len == symbol_bit_stream@.len(),
                row_offsets@.len() > 0 ==> row_offsets@[0] == (0u32, 0u32),
                forall|j: int|
                    0 <= j < k ==> (#[trigger] row_offsets@[j]).0 <= rm_values@.len()
                        && row_offsets@[j].1 <= stream_len,
                forall|i: int, j: int|
                    0 <= i < j < k ==> offset_not_after(
                        #[trigger] row_offsets@[i],
                        #[trigger] row_offsets@[j],
                    ),
            decreases row_offsets@.len() - k,
        {
            let (rm_idx, symbol_bit_idx) = row_offsets[k];
            if k > 0 {
                let (previous_rm, previous_bit) = row_offsets[k - 1];
                if rm_idx < previous_rm || (rm_idx == previous_rm && symbol_bit_idx
                    < previous_bit) {
                    assert(!offset_not_after(row_offsets@[k - 1], row_offsets@[k as int]));
                    return Err(bad_metadata("row offsets must be non-decreasing"));
                }
            }
            if rm_idx as usize > rm_values.len() {
                return Err(
                    EntroGdError::InvalidMetadata {
                        message: two_numbers(
                            "row offset rm index ",
                            rm_idx as usize,
                            " exceeds rm value count ",
                            rm_values.len(),
                        ),
                    },
                );
            }
            if symbol_bit_idx as usize > stream_len {
                return Err(
                    EntroGdError::InvalidMetadata {
                        message: two_numbers(
                            "row offset symbol bit ",
                            symbol_bit_idx as usize,
                            " exceeds symbol stream length ",
                            stream_len,
                        ),
                    },
                );
            }
            proof {
                assert forall|i: int, j: int| 0 <= i < j < k + 1 implies offset_not_after(
                    #[trigger] row_offsets@[i],
                    #[trigger] row_offsets@[j],
                ) by {
                    if j == k && i < k - 1 {
                        assert(offset_not_after(row_offsets@[i], row_offsets@[k - 1]));
                    }
                }
            }
            k += 1;
        }
        let rm_control_stream = write_rle_control_stream(&rm_values);
        let row_offset_stream = write_offsets(&row_offsets);
        Ok(
            RleDeviationOffsetData {
                symbol_bit_stream,
                rm_values,
                rm_control_stream,
                row_offset_stream,
                row_offsets,
                original_num_samples,
                row_width,
                num_samples,
                num_deviation_bits,
                num_id_bits,
            },
        )
    }

    /// The stored symbols.
    pub fn symbol_bit_stream(&self) -> (stream: &BitStream)
        ensures
            stream@ == self@.symbols,
    {
        &self.symbol_bit_stream
    }

    /// The pairs as control values.
    pub fn rm_control_stream(&self) -> (stream: &BitStream)
        requires
            self.valid(),
        ensures
            stream@ == control_stream(self@.pairs),
    {
        &self.rm_control_stream
    }

    /// The group starts as bits.
    pub fn row_offset_stream(&self) -> (stream: &BitStream)
        requires
            self.valid(),
        ensures
            stream@ == offset_bits(self@.row_offsets),
    {
        &self.row_offset_stream
    }

    /// The pairs.
    pub fn rm_values(&self) -> (pairs: &Vec<(u8, u8)>)
        ensures
            pairs@ == self@.pairs,
    {
        &self.rm_values
    }

    /// The group starts.
    pub fn row_offsets(&self) -> (offsets: &Vec<(u32, u32)>)
        ensures
            offsets@ == self@.row_offsets,
    {
        &self.row_offsets
    }

    /// The number of original rows.
    pub fn original_num_samples(&self) -> (samples: usize)
        ensures
            samples == self@.original_num_samples,
    {
        self.original_num_samples
    }

    /// The number of rows of a group.
    pub fn row_width(&self) -> (width: usize)
        ensures
            width == self@.row_width,
    {
        self.row_width
    }

    /// The row at an index, decoded from the start of its group.
    pub fn get_sample(&self, sample_idx: usize) -> (sample: Option<DeviationSample>)
        requires
            self.valid(),
        ensures
            sample_view(sample) == self@.sample(sample_idx as int),
    {
        if sample_idx >= self.num_samples {
            return None;
        }
        assert(self.rm_values@.skip(0) =~= self.rm_values@);
        if self.row_width > 0 && sample_idx < self.original_num_samples {
            let row_idx: usize = sample_idx / self.row_width;
            let col_idx: usize = sample_idx % self.row_width;
            proof {
                let n = self.original_num_samples as int;
                let w = self.row_width as int;
                let i = sample_idx as int;
                assert(i / w < n / w) by (nonlinear_arith)
                    requires
                        0 <= i < n,
                        0 < w,
                        n % w == 0,
                ;
            }
            let (start_rm_idx, start_symbol_bit_idx) = self.row_offsets[row_idx];
            return decode_sample_from(
                &self.symbol_bit_stream,
                &self.rm_values,
                start_rm_idx as usize,
                start_symbol_bit_idx as usize,
                col_idx,
                self.num_deviation_bits,
                self.num_id_bits,
            );
        }
        decode_sample_from(
            &self.symbol_bit_stream,
            &self.rm_values,
            0,
            0,
            sample_idx,
            self.num_deviation_bits,
            self.num_id_bits,
        )
    }

    /// The number of rows.
    pub fn get_num_samples(&self) -> (samples: usize)
        ensures
            samples == self@.num_samples,
    {
        self.num_samples
    }

    /// The width of the deviation part of a symbol.
    pub fn get_num_deviation_bits(&self) -> (bits: usize)
        ensures
            bits == self@.num_deviation_bits,
    {
        self.num_deviation_bits
    }

    /// The width of the base number of a symbol.
    pub fn get_num_id_bits(&self) -> (bits: usize)
        ensures
            bits == self@.num_id_bits,
    {
        self.num_id_bits
    }

    /// The size of the encoded rows in bits: two counts, the group starts, the pairs and the
    /// symbols.
    pub fn get_encoded_size(&self) -> (bits: usize)
        requires
            self.valid(),
        ensures
            bits == 64 + offset_bits(self@.row_offsets).len() + control_stream(self@.pairs).len()
                + self@.symbols.len(),
    {
        64 + self.row_offset_stream.bit_len() + self.rm_control_stream.bit_len()
            + self.symbol_bit_stream.bit_len()
    }

    /// The first `limit` rows, or all of them where there are fewer, decoded from the beginning.
    pub fn for_each_sample_n(&self, limit: usize) -> (result: Result<
        Vec<DeviationSample>,
        EntroGdError,
    >)
        requires
            self.valid(),
        ensures
            result is Ok <==> (forall|s: int|
                0 <= s < available(self@.pairs, limit as nat, self@.num_samples) ==> #[trigger] row_from(
                    self@.symbols,
                    self@.pairs,
                    0,
                    s,
                    self@.num_deviation_bits,
                    self@.num_id_bits,
                ) is Some),
            result matches Ok(samples) ==> {
                &&& samples@.len() == available(self@.pairs, limit as nat, self@.num_samples)
                &&& forall|s: int|
                    0 <= s < samples@.len() ==> Some((#[trigger] samples@[s])@) == row_from(
                        self@.symbols,
                        self@.pairs,
                        0,
                        s,
                        self@.num_deviation_bits,
                        self@.num_id_bits,
                    )
            },
            result matches Err(error) ==> error is InvalidMetadata,
    {
        first_rows(
            &self.symbol_bit_stream,
            &self.rm_values,
            limit,
            self.num_samples,
            self.num_deviation_bits,
            self.num_id_bits,
        )
    }

    /// The rows as symbols of one width.
    pub fn to_deviation_data(&self) -> (result: Result<DeviationData, EntroGdError>)
        requires
            self.valid(),
            self@.num_samples * self@.symbol_width() <= MAX_STREAM_BITS || self@.num_samples
                * self@.symbol_width() > usize::MAX,
        ensures
            result is Ok <==> self@.num_samples * self@.symbol_width() <= usize::MAX && complete(
                self@.symbols,
                self@.pairs,
                self@.num_samples,
                self@.symbol_width(),
            ),
            result matches Ok(data) ==> {
                &&& data@.num_samples == self@.num_samples
                &&& data@.num_deviation_bits == self@.num_deviation_bits
                &&& data@.num_id_bits == self@.num_id_bits
                &&& expands_to(self@.pairs, self@.symbols, self@.symbol_width(), data@.bits)
            },
            result matches Err(error) ==> error is InvalidMetadata,
    {
        expand_rows(
            &self.symbol_bit_stream,
            &self.rm_values,
            self.num_samples,
            self.num_deviation_bits,
            self.num_id_bits,
        )
    }
}

impl Clone for RleDeviationOffsetData {
    fn clone(&self) -> (copy: RleDeviationOffsetData)
        ensures
            copy@ == self@,
            self.valid() ==> copy.valid(),
    {
        let mut row_offsets: Vec<(u32, u32)> = Vec::new();
        let mut k: usize = 0;
        while k < self.row_offsets.len()
            invariant
                k <= self.row_offsets@.len(),
                row_offsets@ == self.row_offsets@.take(k as int),
            decreases self.row_offsets@.len() - k,
        {
            row_offsets.push(self.row_offsets[k]);
            assert(self.row_offsets@.take(k as int + 1) =~= self.row_offsets@.take(k as int).push(
                self.row_offsets@[k as int],
            ));
            k += 1;
        }
        assert(self.row_offsets@.take(k as int) =~= self.row_offsets@);
        RleDeviationOffsetData {
            symbol_bit_stream: self.symbol_bit_stream.clone(),
            rm_values: copy_pairs(&self.rm_values),
            rm_control_stream: self.rm_control_stream.clone(),
            row_offset_stream: self.row_offset_stream.clone(),
            row_offsets,
            original_num_samples: self.original_num_samples,
            row_width: self.row_width,
            num_samples: self.num_samples,
            num_deviation_bits: self.num_deviation_bits,
            num_id_bits: self.num_id_bits,
        }
    }
}

} // verus!
