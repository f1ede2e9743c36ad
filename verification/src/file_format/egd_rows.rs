//! How encoded rows are written.
use vstd::arithmetic::power2::lemma2_to64;
use vstd::prelude::*;

use crate::bits::{join, BitStream, MAX_STREAM_BITS};
use crate::bytes::{
    append_le, append_packed, byte_len, concat, concat_push, le_bytes, le_value, le_value_bound,
    list_len, packed, read_le, record, record_in_bounds, unpacked,
};
use crate::encoding::compressed::{EncodedData, EncodedView};
use crate::encoding::deviation::{slot, slot_in_bounds, DeviationData, DeviationView};
use crate::encoding::huffman_data::{HuffmanDeviationData, HuffmanView};
use crate::encoding::rle::{source, total_samples, total_symbols, writable, RLE_LONG_MAX};
use crate::encoding::rle_data::{expands_to, RleDeviationOffsetData, RleOffsetView, RleView};
use crate::error::{bad_metadata, EntroGdError};
use crate::file_format::egd_table::{read_bits, read_bits_at};
use crate::file_format::tags::{
    ENCODING_TAG_HUFFMAN_BASE_ID_ONLY, ENCODING_TAG_NORMAL, ENCODING_TAG_RLE_OFFSET,
};
use crate::numbers::fitted;
use crate::text::{numbered, two_numbers};

verus! {

/// Group starts as records of eight bytes.
pub open spec fn start_parts(starts: Seq<(u32, u32)>) -> Seq<Seq<u8>> {
    Seq::new(
        starts.len(),
        |i: int| le_bytes(starts[i].0 as nat, 4) + le_bytes(starts[i].1 as nat, 4),
    )
}

/// Pairs as records of two bytes.
pub open spec fn pair_parts(pairs: Seq<(u8, u8)>) -> Seq<Seq<u8>> {
    Seq::new(pairs.len(), |i: int| seq![pairs[i].0, pairs[i].1])
}

/// Entries of a code table as records: a symbol in as many bytes as its width takes, a length.
pub open spec fn code_parts(symbols: Seq<u64>, lengths: Seq<u8>, size: nat) -> Seq<Seq<u8>> {
    Seq::new(symbols.len(), |i: int| le_bytes(symbols[i] as nat, size).push(lengths[i]))
}

/// Offsets as records of four bytes.
pub open spec fn offset_parts(offsets: Seq<u32>) -> Seq<Seq<u8>> {
    Seq::new(offsets.len(), |i: int| le_bytes(offsets[i] as nat, 4))
}

/// Rows as symbols of one width as bytes.
pub open spec fn plain_bytes(rows: DeviationView, width: nat) -> Seq<u8> {
    seq![ENCODING_TAG_NORMAL] + packed(fitted(rows.bits, rows.num_samples * width))
}

/// Rows as runs with group starts as bytes.
pub open spec fn runs_bytes(rows: RleOffsetView, width: nat) -> Seq<u8> {
    seq![ENCODING_TAG_RLE_OFFSET] + le_bytes(rows.row_offsets.len(), 4) + le_bytes(
        rows.row_width,
        4,
    ) + concat(start_parts(rows.row_offsets)) + le_bytes(rows.pairs.len(), 4) + concat(
        pair_parts(rows.pairs),
    ) + packed(fitted(rows.symbols, total_symbols(rows.pairs) * width))
}

/// Rows with prefix codes as bytes. Of the width of a deviation only the lowest byte is written: the
/// width itself follows from the layout.
pub open spec fn codes_bytes(rows: HuffmanView) -> Seq<u8> {
    seq![ENCODING_TAG_HUFFMAN_BASE_ID_ONLY] + le_bytes(rows.symbols.len(), 4) + le_bytes(
        rows.num_id_bits,
        1,
    ) + le_bytes(rows.num_deviation_bits, 1) + le_bytes(rows.row_offsets.len(), 4) + concat(
        code_parts(rows.symbols, rows.lengths, byte_len(rows.num_id_bits)),
    ) + concat(offset_parts(rows.row_offsets)) + packed(
        fitted(rows.deviations, rows.num_samples * rows.num_deviation_bits),
    ) + packed(rows.pixels)
}

/// Runs written out as symbols of one width.
pub open spec fn written_out(rows: RleView) -> DeviationView {
    DeviationView {
        bits: join(
            Seq::new(
                total_samples(rows.pairs),
                |s: int| slot(rows.symbols, rows.symbol_width(), source(rows.pairs, s)),
            ),
        ),
        num_samples: rows.num_samples,
        num_deviation_bits: rows.num_deviation_bits,
        num_id_bits: rows.num_id_bits,
    }
}

/// Encoded rows as bytes, where a row has `width` bits. Runs without group starts are written
/// out.
pub open spec fn encoded_bytes(rows: EncodedView, width: nat) -> Seq<u8> {
    match rows {
        EncodedView::Normal(plain) => plain_bytes(plain, width),
        EncodedView::Rle(runs) => plain_bytes(written_out(runs), width),
        EncodedView::RleOffset(runs) => runs_bytes(runs, width),
        EncodedView::Huffman(codes) => codes_bytes(codes),
    }
}

/// The number of some bytes at a position, and where it ends.
pub open spec fn read_number(bytes: Seq<u8>, position: int, size: nat) -> Option<(nat, int)> {
    if position + size <= bytes.len() {
        Some((le_value(bytes.subrange(position, position + size)), position + size))
    } else {
        None
    }
}

/// Counts of rows and widths of their parts.
pub struct RowShape {
    /// The number of original rows.
    pub original: nat,
    /// The number of all rows.
    pub total: nat,
    pub num_deviation_bits: nat,
    pub num_id_bits: nat,
}

impl RowShape {
    /// The bits of a row.
    pub open spec fn width(self) -> nat {
        self.num_deviation_bits + self.num_id_bits
    }
}

/// Rows as symbols of one width at a position.
pub open spec fn read_plain(bytes: Seq<u8>, position: int, shape: RowShape) -> Option<
    (DeviationView, int),
> {
    match read_bits(bytes, position, shape.total * shape.width()) {
        Some((bits, end)) => Some(
            (
                DeviationView {
                    bits,
                    num_samples: shape.total,
                    num_deviation_bits: shape.num_deviation_bits,
                    num_id_bits: shape.num_id_bits,
                },
                end,
            ),
        ),
        None => None,
    }
}

/// Group starts at a position.
pub open spec fn read_starts(bytes: Seq<u8>, position: int, count: nat) -> Option<
    (Seq<(u32, u32)>, int),
> {
    let end = position + count * 8;
    if end <= bytes.len() {
        Some(
            (
                Seq::new(
                    count,
                    |i: int|
                        (
                            le_value(record(bytes, position, 8, i).take(4)) as u32,
                            le_value(record(bytes, position, 8, i).skip(4)) as u32,
                        ),
                ),
                end,
            ),
        )
    } else {
        None
    }
}

/// Pairs at a position; values that no run or literal can have are refused.
pub open spec fn read_pairs(bytes: Seq<u8>, position: int, count: nat) -> Option<
    (Seq<(u8, u8)>, int),
> {
    let end = position + count * 2;
    let pairs = Seq::new(
        count,
        |i: int| (record(bytes, position, 2, i)[0], record(bytes, position, 2, i)[1]),
    );
    if end <= bytes.len() && writable(pairs) {
        Some((pairs, end))
    } else {
        None
    }
}

/// The parts of rows as runs at a position.
pub open spec fn read_run_parts(bytes: Seq<u8>, position: int, width: nat) -> Option<
    ((nat, Seq<(u32, u32)>, Seq<(u8, u8)>, Seq<bool>), int),
> {
    match read_number(bytes, position, 4) {
        Some((row_count, a)) => match read_number(bytes, a, 4) {
            Some((row_width, b)) => match read_starts(bytes, b, row_count) {
                Some((row_offsets, c)) => match read_number(bytes, c, 4) {
                    Some((pair_count, d)) => match read_pairs(bytes, d, pair_count) {
                        Some((pairs, e)) => match read_bits(
                            bytes,
                            e,
                            total_symbols(pairs) * width,
                        ) {
                            Some((symbols, end)) => Some(
                                ((row_width, row_offsets, pairs, symbols), end),
                            ),
                            None => None,
                        },
                        None => None,
                    },
                    None => None,
                },
                None => None,
            },
            None => None,
        },
        None => None,
    }
}

/// Rows as runs with group starts at a position.
pub open spec fn read_runs(bytes: Seq<u8>, position: int, shape: RowShape) -> Option<
    (RleOffsetView, int),
> {
    match read_run_parts(bytes, position, shape.width()) {
        Some(((row_width, row_offsets, pairs, symbols), end)) => {
            let rows = RleOffsetView {
                symbols,
                pairs,
                row_offsets,
                original_num_samples: shape.original,
                row_width,
                num_samples: shape.total,
                num_deviation_bits: shape.num_deviation_bits,
                num_id_bits: shape.num_id_bits,
            };
            if rows.well_formed() {
                Some((rows, end))
            } else {
                None
            }
        },
        None => None,
    }
}

/// A code table at a position.
pub open spec fn read_codes(bytes: Seq<u8>, position: int, count: nat, size: nat) -> Option<
    ((Seq<u64>, Seq<u8>), int),
> {
    let end = position + count * (size + 1);
    if end <= bytes.len() {
        Some(
            (
                (
                    Seq::new(
                        count,
                        |i: int|
                            le_value(record(bytes, position, size + 1, i).take(size as int)) as u64,
                    ),
                    Seq::new(count, |i: int| record(bytes, position, size + 1, i)[size as int]),
                ),
                end,
            ),
        )
    } else {
        None
    }
}

/// Offsets at a position.
pub open spec fn read_offsets(bytes: Seq<u8>, position: int, count: nat) -> Option<(Seq<u32>, int)> {
    let end = position + count * 4;
    if end <= bytes.len() {
        Some((Seq::new(count, |i: int| le_value(record(bytes, position, 4, i)) as u32), end))
    } else {
        None
    }
}

/// The sizes at the beginning of rows with prefix codes: of the code table, of a base number, of
/// a deviation (its lowest byte), and the number of groups.
pub open spec fn read_code_sizes(bytes: Seq<u8>, position: int) -> Option<
    ((nat, nat, nat, nat), int),
> {
    if position + 10 <= bytes.len() {
        Some(
            (
                (
                    le_value(bytes.subrange(position, position + 4)),
                    bytes[position + 4] as nat,
                    bytes[position + 5] as nat,
                    le_value(bytes.subrange(position + 6, position + 10)),
                ),
                position + 10,
            ),
        )
    } else {
        None
    }
}

/// Code table, offsets and deviations behind the sizes of rows with prefix codes.
pub open spec fn read_code_parts(
    bytes: Seq<u8>,
    position: int,
    count: nat,
    groups: nat,
    shape: RowShape,
) -> Option<((Seq<u64>, Seq<u8>, Seq<u32>, Seq<bool>), int)> {
    match read_codes(bytes, position, count, byte_len(shape.num_id_bits)) {
        Some(((symbols, lengths), a)) => match read_offsets(bytes, a, groups) {
            Some((row_offsets, b)) => match read_bits(
                bytes,
                b,
                shape.total * shape.num_deviation_bits,
            ) {
                Some((deviations, end)) => Some(((symbols, lengths, row_offsets, deviations), end)),
                None => None,
            },
            None => None,
        },
        None => None,
    }
}

/// Rows with prefix codes at a position; the codes take all bytes to the end.
pub open spec fn read_coded(bytes: Seq<u8>, position: int, shape: RowShape) -> Option<HuffmanView> {
    match read_code_sizes(bytes, position) {
        Some(((count, num_id_bits, num_deviation_bits, groups), a)) => if num_id_bits
            != shape.num_id_bits || num_deviation_bits != shape.num_deviation_bits % 256 || (groups
            > 0 && shape.original % groups != 0) {
            None
        } else {
            match read_code_parts(bytes, a, count, groups, shape) {
                Some(((symbols, lengths, row_offsets, deviations), b)) => {
                    let rest = bytes.skip(b);
                    let rows = HuffmanView {
                        pixels: unpacked(rest, 8 * rest.len()),
                        deviations,
                        symbols,
                        lengths,
                        row_offsets,
                        num_samples: shape.total,
                        original_num_samples: shape.original,
                        num_deviation_bits: shape.num_deviation_bits,
                        num_id_bits,
                        row_width: if groups == 0 {
                            0
                        } else {
                            shape.original / groups
                        },
                    };
                    if rows.well_formed() {
                        Some(rows)
                    } else {
                        None
                    }
                },
                None => None,
            }
        },
        None => None,
    }
}

/// Whether all bytes from a position on are zero.
pub open spec fn zero_from(bytes: Seq<u8>, position: int) -> bool {
    forall|i: int| position <= i < bytes.len() ==> #[trigger] bytes[i] == 0
}

/// The encoded rows at a position, with nothing but zeros behind them.
pub open spec fn read_encoded(bytes: Seq<u8>, position: int, shape: RowShape) -> Option<
    EncodedView,
> {
    if position >= bytes.len() {
        None
    } else if bytes[position] == ENCODING_TAG_NORMAL {
        match read_plain(bytes, position + 1, shape) {
            Some((rows, end)) => if zero_from(bytes, end) {
                Some(EncodedView::Normal(rows))
            } else {
                None
            },
            None => None,
        }
    } else if bytes[position] == ENCODING_TAG_RLE_OFFSET {
        match read_runs(bytes, position + 1, shape) {
            Some((rows, end)) => if zero_from(bytes, end) {
                Some(EncodedView::RleOffset(rows))
            } else {
                None
            },
            None => None,
        }
    } else if bytes[position] == ENCODING_TAG_HUFFMAN_BASE_ID_ONLY {
        match read_coded(bytes, position + 1, shape) {
            Some(rows) => Some(EncodedView::Huffman(rows)),
            None => None,
        }
    } else {
        None
    }
}

/// A stream of symbols of one width is those symbols one behind the other.
proof fn stream_of_slots(stream: Seq<bool>, width: nat, count: nat)
    requires
        stream.len() == count * width,
    ensures
        stream == join(Seq::new(count, |s: int| slot(stream, width, s))),
    decreases count,
{
    let parts = Seq::new(count, |s: int| slot(stream, width, s));
    if count > 0 {
        let fewer = (count - 1) as nat;
        assert(count * width == fewer * width + width) by (nonlinear_arith)
            requires
                fewer == count - 1,
        ;
        let before = stream.take((fewer * width) as int);
        stream_of_slots(before, width, fewer);
        assert forall|s: int| 0 <= s < fewer implies #[trigger] parts.drop_last()[s] == slot(
            before,
            width,
            s,
        ) by {
            slot_in_bounds(s, fewer as int, width as int);
            assert(slot(stream, width, s) =~= slot(before, width, s));
        }
        assert(parts.drop_last() =~= Seq::new(fewer, |s: int| slot(before, width, s)));
        assert(stream =~= before + slot(stream, width, fewer as int));
    } else {
        assert(stream =~= join(parts));
    }
}

/// Runs have just one expansion.
proof fn expansion_is_unique(rows: RleView, raw: Seq<bool>)
    requires
        expands_to(rows.pairs, rows.symbols, rows.symbol_width(), raw),
    ensures
        raw == written_out(rows).bits,
{
    let count = total_samples(rows.pairs);
    let width = rows.symbol_width();
    stream_of_slots(raw, width, count);
    let here = Seq::new(count, |s: int| slot(raw, width, s));
    let there = Seq::new(count, |s: int| slot(rows.symbols, width, source(rows.pairs, s)));
    assert forall|s: int| 0 <= s < count implies #[trigger] here[s] == there[s] by {
        assert(slot(raw, width, s) == slot(rows.symbols, width, source(rows.pairs, s)));
    }
    assert(here =~= there);
}

/// Whether encoded rows can be written: runs can be written out or counted, and every count fits its
/// field.
pub open spec fn rows_writable(rows: EncodedView) -> bool {
    match rows {
        EncodedView::Normal(plain) => true,
        EncodedView::Rle(runs) => rows.has_plain_rows(),
        EncodedView::RleOffset(runs) => {
            &&& total_symbols(runs.pairs) <= usize::MAX
            &&& runs.row_offsets.len() <= u32::MAX
            &&& runs.row_width <= u32::MAX
            &&& runs.pairs.len() <= u32::MAX
        },
        EncodedView::Huffman(codes) => {
            &&& codes.symbols.len() <= u32::MAX
            &&& codes.row_offsets.len() <= u32::MAX
        },
    }
}

/// Whether the streams of encoded rows with the given width are addressable.
pub open spec fn encoded_fits(rows: EncodedView, width: nat) -> bool {
    match rows {
        EncodedView::Normal(plain) => plain.num_samples * width <= MAX_STREAM_BITS,
        EncodedView::Rle(runs) => {
            &&& runs.num_samples * width <= MAX_STREAM_BITS
            &&& runs.num_samples * runs.symbol_width() <= MAX_STREAM_BITS
        },
        EncodedView::RleOffset(runs) => total_symbols(runs.pairs) * width <= MAX_STREAM_BITS,
        EncodedView::Huffman(codes) => true,
    }
}

/// Appends rows as symbols of one width.
fn append_plain(out: &mut Vec<u8>, rows: &DeviationData, width: usize)
    requires
        rows@.num_samples * width <= MAX_STREAM_BITS,
    ensures
        final(out)@ == old(out)@ + plain_bytes(rows@, width as nat),
{
    let ghost start = out@;
    out.push(ENCODING_TAG_NORMAL);
    append_packed(out, &rows.encoded_bit_stream, rows.num_samples * width);
    assert(out@ =~= start + plain_bytes(rows@, width as nat));
}

/// The number of symbols that pairs use.
fn count_symbols(pairs: &Vec<(u8, u8)>) -> (count: Option<usize>)
    ensures
        match count {
            Some(symbols) => symbols == total_symbols(pairs@),
            None => total_symbols(pairs@) > usize::MAX,
        },
{
    let mut count: usize = 0;
    let mut i: usize = 0;
    proof {
        assert(pairs@.take(0) =~= Seq::empty());
    }
    while i < pairs.len()
        invariant
            i <= pairs@.len(),
            count == total_symbols(pairs@.take(i as int)),
        decreases pairs@.len() - i,
    {
        let (repeats, literals) = pairs[i];
        let more: usize = if repeats > 0 {
            1 + literals as usize
        } else {
            literals as usize
        };
        proof {
            assert(pairs@.take(i as int + 1).drop_last() =~= pairs@.take(i as int));
            symbols_grow(pairs@, i as int + 1);
        }
        match count.checked_add(more) {
            Some(sum) => {
                count = sum;
            },
            None => {
                return None;
            },
        }
        i += 1;
    }
    assert(pairs@.take(i as int) =~= pairs@);
    Some(count)
}

/// The beginning of a list of pairs uses no more symbols than the list.
proof fn symbols_grow(pairs: Seq<(u8, u8)>, n: int)
    requires
        0 <= n <= pairs.len(),
    ensures
        total_symbols(pairs.take(n)) <= total_symbols(pairs),
    decreases pairs.len() - n,
{
    if n < pairs.len() {
        symbols_grow(pairs, n + 1);
        assert(pairs.take(n + 1).drop_last() =~= pairs.take(n));
    } else {
        assert(pairs.take(n) =~= pairs);
    }
}

/// Appends group starts.
fn append_starts(out: &mut Vec<u8>, starts: &Vec<(u32, u32)>)
    ensures
        final(out)@ == old(out)@ + concat(start_parts(starts@)),
{
    let ghost start = out@;
    let ghost parts = start_parts(starts@);
    let mut i: usize = 0;
    proof {
        assert(parts.take(0) =~= Seq::empty());
    }
    while i < starts.len()
        invariant
            i <= starts@.len(),
            parts == start_parts(starts@),
            out@ == start + concat(parts.take(i as int)),
        decreases starts@.len() - i,
    {
        let (pair_index, bit_index) = starts[i];
        append_le(out, pair_index as u64, 4);
        append_le(out, bit_index as u64, 4);
        proof {
            assert(parts.take(i as int + 1) =~= parts.take(i as int).push(parts[i as int]));
            concat_push(parts.take(i as int), parts[i as int]);
            assert(out@ =~= start + concat(parts.take(i as int + 1)));
        }
        i += 1;
    }
    assert(parts.take(i as int) =~= parts);
}

/// Appends pairs.
fn append_pairs(out: &mut Vec<u8>, pairs: &Vec<(u8, u8)>)
    ensures
        final(out)@ == old(out)@ + concat(pair_parts(pairs@)),
{
    let ghost start = out@;
    let ghost parts = pair_parts(pairs@);
    let mut i: usize = 0;
    proof {
        assert(parts.take(0) =~= Seq::empty());
    }
    while i < pairs.len()
        invariant
            i <= pairs@.len(),
            parts == pair_parts(pairs@),
            out@ == start + concat(parts.take(i as int)),
        decreases pairs@.len() - i,
    {
        let (repeats, literals) = pairs[i];
        out.push(repeats);
        out.push(literals);
        proof {
            assert(parts.take(i as int + 1) =~= parts.take(i as int).push(parts[i as int]));
            concat_push(parts.take(i as int), parts[i as int]);
            assert(out@ =~= start + concat(parts.take(i as int + 1)));
        }
        i += 1;
    }
    assert(parts.take(i as int) =~= parts);
}

/// Appends a code table.
fn append_codes(out: &mut Vec<u8>, symbols: &Vec<u64>, lengths: &Vec<u8>, size: usize)
    requires
        symbols@.len() == lengths@.len(),
    ensures
        final(out)@ == old(out)@ + concat(code_parts(symbols@, lengths@, size as nat)),
{
    let ghost start = out@;
    let ghost parts = code_parts(symbols@, lengths@, size as nat);
    let mut i: usize = 0;
    proof {
        assert(parts.take(0) =~= Seq::empty());
    }
    while i < symbols.len()
        invariant
            i <= symbols@.len() == lengths@.len(),
            parts == code_parts(symbols@, lengths@, size as nat),
            out@ == start + concat(parts.take(i as int)),
        decreases symbols@.len() - i,
    {
        append_le(out, symbols[i], size);
        out.push(lengths[i]);
        proof {
            assert(parts.take(i as int + 1) =~= parts.take(i as int).push(parts[i as int]));
            concat_push(parts.take(i as int), parts[i as int]);
            assert(out@ =~= start + concat(parts.take(i as int + 1)));
        }
        i += 1;
    }
    assert(parts.take(i as int) =~= parts);
}

/// Appends offsets.
fn append_offsets(out: &mut Vec<u8>, offsets: &Vec<u32>)
    ensures
        final(out)@ == old(out)@ + concat(offset_parts(offsets@)),
{
    let ghost start = out@;
    let ghost parts = offset_parts(offsets@);
    let mut i: usize = 0;
    proof {
        assert(parts.take(0) =~= Seq::empty());
    }
    while i < offsets.len()
        invariant
            i <= offsets@.len(),
            parts == offset_parts(offsets@),
            out@ == start + concat(parts.take(i as int)),
        decreases offsets@.len() - i,
    {
        append_le(out, offsets[i] as u64, 4);
        proof {
            assert(parts.take(i as int + 1) =~= parts.take(i as int).push(parts[i as int]));
            concat_push(parts.take(i as int), parts[i as int]);
            assert(out@ =~= start + concat(parts.take(i as int + 1)));
        }
        i += 1;
    }
    assert(parts.take(i as int) =~= parts);
}

/// Whether a number can be written in four bytes.
fn fits_word(value: usize) -> (fits: bool)
    ensures
        fits == (value <= u32::MAX),
{
    value as u64 <= u32::MAX as u64
}

/// Appends rows as runs with group starts.
fn append_runs(out: &mut Vec<u8>, rows: &RleDeviationOffsetData, width: usize) -> (result: Result<
    (),
    EntroGdError,
>)
    requires
        total_symbols(rows@.pairs) * width <= MAX_STREAM_BITS,
    ensures
        result is Ok <==> rows_writable(EncodedView::RleOffset(rows@)),
        result is Ok ==> final(out)@ == old(out)@ + runs_bytes(rows@, width as nat),
        result matches Err(error) ==> error is InvalidMetadata,
{
    let ghost start = out@;
    let symbol_count: usize = match count_symbols(&rows.rm_values) {
        Some(count) => count,
        None => {
            return Err(bad_metadata("rm symbol count overflow"));
        },
    };
    if !fits_word(rows.row_offsets.len()) || !fits_word(rows.row_width) || !fits_word(
        rows.rm_values.len(),
    ) {
        return Err(bad_metadata("too many runs for an EGD file"));
    }
    out.push(ENCODING_TAG_RLE_OFFSET);
    append_le(out, rows.row_offsets.len() as u64, 4);
    append_le(out, rows.row_width as u64, 4);
    append_starts(out, &rows.row_offsets);
    append_le(out, rows.rm_values.len() as u64, 4);
    append_pairs(out, &rows.rm_values);
    append_packed(out, &rows.symbol_bit_stream, symbol_count * width);
    assert(out@ =~= start + runs_bytes(rows@, width as nat));
    Ok(())
}

/// Appends rows with prefix codes.
#[verifier::spinoff_prover]
fn append_coded(out: &mut Vec<u8>, rows: &HuffmanDeviationData) -> (result: Result<
    (),
    EntroGdError,
>)
    requires
        rows@.symbols.len() == rows@.lengths.len(),
        rows@.num_id_bits <= 64,
        rows@.deviations.len() == rows@.num_samples * rows@.num_deviation_bits,
    ensures
        result is Ok <==> rows_writable(EncodedView::Huffman(rows@)),
        result is Ok ==> final(out)@ == old(out)@ + codes_bytes(rows@),
        result matches Err(error) ==> error is InvalidMetadata,
{
    if !fits_word(rows.canonical_symbols.len()) || !fits_word(rows.row_offsets.len()) {
        return Err(bad_metadata("too many codes for an EGD file"));
    }
    let ghost start = out@;
    let deviation_len: usize = rows.raw_deviation_bit_stream.bit_len();
    let pixel_len: usize = rows.pixel_bit_stream.bit_len();
    out.push(ENCODING_TAG_HUFFMAN_BASE_ID_ONLY);
    append_le(out, rows.canonical_symbols.len() as u64, 4);
    append_le(out, rows.num_id_bits as u64, 1);
    append_le(out, rows.num_deviation_bits as u64, 1);
    append_le(out, rows.row_offsets.len() as u64, 4);
    let ghost sizes = seq![ENCODING_TAG_HUFFMAN_BASE_ID_ONLY] + le_bytes(rows@.symbols.len(), 4)
        + le_bytes(rows@.num_id_bits, 1) + le_bytes(rows@.num_deviation_bits, 1) + le_bytes(
        rows@.row_offsets.len(),
        4,
    );
    assert(out@ =~= start + sizes);
    append_codes(
        out,
        &rows.canonical_symbols,
        &rows.canonical_code_lengths,
        (rows.num_id_bits + 7) / 8,
    );
    append_offsets(out, &rows.row_offsets);
    let ghost tables = concat(
        code_parts(rows@.symbols, rows@.lengths, byte_len(rows@.num_id_bits)),
    ) + concat(offset_parts(rows@.row_offsets));
    assert(out@ =~= start + sizes + tables);
    append_packed(out, &rows.raw_deviation_bit_stream, deviation_len);
    append_packed(out, &rows.pixel_bit_stream, pixel_len);
    proof {
        let deviations = fitted(rows@.deviations, deviation_len as nat);
        assert(fitted(rows@.pixels, pixel_len as nat) =~= rows@.pixels);
        assert(out@ =~= start + sizes + tables + packed(deviations) + packed(rows@.pixels));
        assert(start + sizes + tables + packed(deviations) + packed(rows@.pixels) =~= start
            + codes_bytes(rows@));
    }
    Ok(())
}

/// Appends encoded rows, where a row has `width` bits.
pub fn append_encoded(out: &mut Vec<u8>, rows: &EncodedData, width: usize) -> (result: Result<
    (),
    EntroGdError,
>)
    requires
        rows.valid(),
        encoded_fits(rows@, width as nat),
    ensures
        result is Ok <==> rows_writable(rows@),
        result is Ok ==> final(out)@ == old(out)@ + encoded_bytes(rows@, width as nat),
        result matches Err(error) ==> error is InvalidMetadata,
{
    match rows {
        EncodedData::Normal(plain) => {
            append_plain(out, plain, width);
            Ok(())
        },
        EncodedData::Rle(runs) => match runs.to_deviation_data() {
            Ok(plain) => {
                proof {
                    expansion_is_unique(runs@, plain@.bits);
                    assert(plain@ =~= written_out(runs@));
                }
                append_plain(out, &plain, width);
                Ok(())
            },
            Err(error) => Err(error),
        },
        EncodedData::RleOffset(runs) => append_runs(out, runs, width),
        EncodedData::Huffman(codes) => append_coded(out, codes),
    }
}

/// Reads bits of a number that is a product.
fn read_product_bits_at(bytes: &Vec<u8>, position: usize, count: usize, width: usize) -> (result:
    Result<(BitStream, usize), EntroGdError>)
    requires
        position <= bytes@.len(),
        8 * bytes@.len() <= MAX_STREAM_BITS,
    ensures
        match read_bits(bytes@, position as int, (count * width) as nat) {
            Some((bits, end)) => result is Ok && (result->Ok_0).0@ == bits && (result->Ok_0).1
                == end && position <= end <= bytes@.len(),
            None => result matches Err(error) && error is InvalidMetadata,
        },
{
    match list_len(count, width) {
        Some(bit_len) => read_bits_at(bytes, position, bit_len),
        None => Err(bad_metadata("unexpected end of EGD while reading an encoded stream")),
    }
}

/// Reads the number of four bytes at a position.
fn read_word_at(bytes: &Vec<u8>, position: usize) -> (result: Result<(u32, usize), EntroGdError>)
    requires
        position <= bytes@.len(),
    ensures
        match read_number(bytes@, position as int, 4) {
            Some((value, end)) => result is Ok && (result->Ok_0).0 == value && (result->Ok_0).1
                == end && end <= bytes@.len(),
            None => result matches Err(error) && error is InvalidMetadata,
        },
{
    if bytes.len() - position < 4 {
        return Err(bad_metadata("unexpected end of EGD while reading a count"));
    }
    proof {
        lemma2_to64();
        le_value_bound(bytes@.subrange(position as int, position + 4));
    }
    Ok((read_le(bytes, position, 4) as u32, position + 4))
}

/// Reads group starts at a position.
fn read_starts_at(bytes: &Vec<u8>, position: usize, count: usize) -> (result: Result<
    (Vec<(u32, u32)>, usize),
    EntroGdError,
>)
    requires
        position <= bytes@.len(),
    ensures
        match read_starts(bytes@, position as int, count as nat) {
            Some((starts, end)) => result is Ok && (result->Ok_0).0@ == starts && (result->Ok_0).1
                == end && position <= end <= bytes@.len(),
            None => result matches Err(error) && error is InvalidMetadata,
        },
{
    let total: usize = bytes.len();
    let needed: usize = match list_len(count, 8) {
        Some(needed) => needed,
        None => {
            return Err(bad_metadata("unexpected end of EGD while reading RLE row offsets"));
        },
    };
    if total - position < needed {
        return Err(bad_metadata("unexpected end of EGD while reading RLE row offsets"));
    }
    let ghost expected = (read_starts(bytes@, position as int, count as nat)->0).0;
    let mut starts: Vec<(u32, u32)> = Vec::new();
    let mut i: usize = 0;
    while i < count
        invariant
            i <= count,
            position + count * 8 <= bytes@.len() == total,
            expected == (read_starts(bytes@, position as int, count as nat)->0).0,
            starts@ == expected.take(i as int),
        decreases count - i,
    {
        let at: usize = position + 8 * i;
        proof {
            lemma2_to64();
            let part = record(bytes@, position as int, 8, i as int);
            assert(part.take(4) =~= bytes@.subrange(at as int, at + 4));
            assert(part.skip(4) =~= bytes@.subrange(at + 4, at + 8));
            le_value_bound(part.take(4));
            le_value_bound(part.skip(4));
        }
        starts.push((read_le(bytes, at, 4) as u32, read_le(bytes, at + 4, 4) as u32));
        assert(expected.take(i as int + 1) =~= expected.take(i as int).push(expected[i as int]));
        i += 1;
    }
    assert(expected.take(i as int) =~= expected);
    Ok((starts, position + needed))
}

/// Reads pairs at a position.
fn read_pairs_at(bytes: &Vec<u8>, position: usize, count: usize) -> (result: Result<
    (Vec<(u8, u8)>, usize),
    EntroGdError,
>)
    requires
        position <= bytes@.len(),
    ensures
        match read_pairs(bytes@, position as int, count as nat) {
            Some((pairs, end)) => result is Ok && (result->Ok_0).0@ == pairs && (result->Ok_0).1
                == end && position <= end <= bytes@.len(),
            None => result matches Err(error) && error is InvalidMetadata,
        },
{
    let total: usize = bytes.len();
    let needed: usize = match list_len(count, 2) {
        Some(needed) => needed,
        None => {
            return Err(bad_metadata("unexpected end of EGD while reading RLE rm values"));
        },
    };
    if total - position < needed {
        return Err(bad_metadata("unexpected end of EGD while reading RLE rm values"));
    }
    let ghost expected = Seq::new(
        count as nat,
        |k: int|
            (
                record(bytes@, position as int, 2, k)[0],
                record(bytes@, position as int, 2, k)[1],
            ),
    );
    let mut pairs: Vec<(u8, u8)> = Vec::new();
    let mut i: usize = 0;
    while i < count
        invariant
            i <= count,
            position + count * 2 <= bytes@.len() == total,
            expected == Seq::new(
                count as nat,
                |k: int|
                    (
                        record(bytes@, position as int, 2, k)[0],
                        record(bytes@, position as int, 2, k)[1],
                    ),
            ),
            pairs@ == expected.take(i as int),
            writable(pairs@),
        decreases count - i,
    {
        let at: usize = position + 2 * i;
        let repeats: u8 = bytes[at];
        let literals: u8 = bytes[at + 1];
        assert(expected[i as int] == (repeats, literals));
        if repeats > RLE_LONG_MAX {
            assert(!writable(expected));
            return Err(bad_metadata("invalid RLE r value"));
        }
        if literals > RLE_LONG_MAX {
            assert(!writable(expected));
            return Err(bad_metadata("invalid RLE m_val value"));
        }
        pairs.push((repeats, literals));
        assert(expected.take(i as int + 1) =~= expected.take(i as int).push(expected[i as int]));
        i += 1;
    }
    assert(expected.take(i as int) =~= expected);
    Ok((pairs, position + needed))
}

/// Reads rows as runs with group starts.
fn read_runs_at(
    bytes: &Vec<u8>,
    position: usize,
    original: usize,
    total: usize,
    num_deviation_bits: usize,
    num_id_bits: usize,
) -> (result: Result<(RleDeviationOffsetData, usize), EntroGdError>)
    requires
        position <= bytes@.len(),
        8 * bytes@.len() <= MAX_STREAM_BITS,
        1 <= num_deviation_bits + num_id_bits <= usize::MAX,
    ensures
        match read_runs(
            bytes@,
            position as int,
            (RowShape {
                original: original as nat,
                total: total as nat,
                num_deviation_bits: num_deviation_bits as nat,
                num_id_bits: num_id_bits as nat,
            }),
        ) {
            Some((rows, end)) => result is Ok && (result->Ok_0).0@ == rows && (
            result->Ok_0).0.valid() && (result->Ok_0).1 == end && position <= end <= bytes@.len(),
            None => result matches Err(error) && error is InvalidMetadata,
        },
{
    let (row_count, a) = match read_word_at(bytes, position) {
        Ok(found) => found,
        Err(error) => {
            return Err(error);
        },
    };
    let (row_width, b) = match read_word_at(bytes, a) {
        Ok(found) => found,
        Err(error) => {
            return Err(error);
        },
    };
    let (row_offsets, c) = match read_starts_at(bytes, b, row_count as usize) {
        Ok(found) => found,
        Err(error) => {
            return Err(error);
        },
    };
    let (pair_count, d) = match read_word_at(bytes, c) {
        Ok(found) => found,
        Err(error) => {
            return Err(error);
        },
    };
    let (pairs, e) = match read_pairs_at(bytes, d, pair_count as usize) {
        Ok(found) => found,
        Err(error) => {
            return Err(error);
        },
    };
    let width: usize = num_deviation_bits + num_id_bits;
    let symbol_count: usize = match count_symbols(&pairs) {
        Some(count) => count,
        None => {
            proof {
                let many = total_symbols(pairs@) as int;
                let w = width as int;
                assert(many * w >= many) by (nonlinear_arith)
                    requires
                        w >= 1,
                        many >= 0,
                ;
            }
            return Err(bad_metadata("rm symbol count overflow"));
        },
    };
    let (symbols, end) = match read_product_bits_at(bytes, e, symbol_count, width) {
        Ok(found) => found,
        Err(error) => {
            return Err(error);
        },
    };
    match RleDeviationOffsetData::new(
        symbols,
        pairs,
        row_offsets,
        original,
        row_width as usize,
        total,
        num_deviation_bits,
        num_id_bits,
    ) {
        Ok(rows) => Ok((rows, end)),
        Err(error) => Err(error),
    }
}

/// Reads a code table at a position.
fn read_codes_at(bytes: &Vec<u8>, position: usize, count: usize, size: usize) -> (result: Result<
    (Vec<u64>, Vec<u8>, usize),
    EntroGdError,
>)
    requires
        position <= bytes@.len(),
        size <= 8,
    ensures
        match read_codes(bytes@, position as int, count as nat, size as nat) {
            Some(((symbols, lengths), end)) => result matches Ok(found) && found.0@ == symbols
                && found.1@ == lengths && found.2 == end && position <= end <= bytes@.len(),
            None => result matches Err(error) && error is InvalidMetadata,
        },
{
    let total: usize = bytes.len();
    let step: usize = size + 1;
    let needed: usize = match list_len(count, step) {
        Some(needed) => needed,
        None => {
            return Err(bad_metadata("unexpected end of EGD while reading Huffman canonical table"));
        },
    };
    if total - position < needed {
        return Err(bad_metadata("unexpected end of EGD while reading Huffman canonical table"));
    }
    let ghost expected = (read_codes(bytes@, position as int, count as nat, size as nat)->0).0;
    let mut symbols: Vec<u64> = Vec::new();
    let mut lengths: Vec<u8> = Vec::new();
    let mut at: usize = position;
    let mut i: usize = 0;
    while i < count
        invariant
            i <= count,
            size <= 8,
            step == size + 1,
            position + count * step <= bytes@.len() == total,
            at == position + i * step,
            expected == (read_codes(bytes@, position as int, count as nat, size as nat)->0).0,
            symbols@ == expected.0.take(i as int),
            lengths@ == expected.1.take(i as int),
        decreases count - i,
    {
        proof {
            record_in_bounds(count as int, step as nat, i as int);
            assert((i + 1) * step == i * step + step) by (nonlinear_arith);
            let part = record(bytes@, position as int, step as nat, i as int);
            assert(part.take(size as int) =~= bytes@.subrange(at as int, at + size));
            assert(part[size as int] == bytes@[at + size]);
        }
        symbols.push(read_le(bytes, at, size));
        lengths.push(bytes[at + size]);
        proof {
            assert(expected.0.take(i as int + 1) =~= expected.0.take(i as int).push(
                expected.0[i as int],
            ));
            assert(expected.1.take(i as int + 1) =~= expected.1.take(i as int).push(
                expected.1[i as int],
            ));
        }
        at = at + step;
        i += 1;
    }
    assert(expected.0.take(i as int) =~= expected.0);
    assert(expected.1.take(i as int) =~= expected.1);
    Ok((symbols, lengths, at))
}

/// Reads offsets at a position.
fn read_offsets_at(bytes: &Vec<u8>, position: usize, count: usize) -> (result: Result<
    (Vec<u32>, usize),
    EntroGdError,
>)
    requires
        position <= bytes@.len(),
    ensures
        match read_offsets(bytes@, position as int, count as nat) {
            Some((offsets, end)) => result is Ok && (result->Ok_0).0@ == offsets && (
            result->Ok_0).1 == end && position <= end <= bytes@.len(),
            None => result matches Err(error) && error is InvalidMetadata,
        },
{
    let total: usize = bytes.len();
    let needed: usize = match list_len(count, 4) {
        Some(needed) => needed,
        None => {
            return Err(bad_metadata("unexpected end of EGD while reading Huffman row offsets"));
        },
    };
    if total - position < needed {
        return Err(bad_metadata("unexpected end of EGD while reading Huffman row offsets"));
    }
    let ghost expected = (read_offsets(bytes@, position as int, count as nat)->0).0;
    let mut offsets: Vec<u32> = Vec::new();
    let mut i: usize = 0;
    while i < count
        invariant
            i <= count,
            position + count * 4 <= bytes@.len() == total,
            expected == (read_offsets(bytes@, position as int, count as nat)->0).0,
            offsets@ == expected.take(i as int),
        decreases count - i,
    {
        let at: usize = position + 4 * i;
        proof {
            lemma2_to64();
            le_value_bound(record(bytes@, position as int, 4, i as int));
        }
        offsets.push(read_le(bytes, at, 4) as u32);
        assert(expected.take(i as int + 1) =~= expected.take(i as int).push(expected[i as int]));
        i += 1;
    }
    assert(expected.take(i as int) =~= expected);
    Ok((offsets, position + needed))
}

/// Reads rows with prefix codes, which take all bytes to the end.
#[verifier::spinoff_prover]
#[verifier::rlimit(40)]
fn read_coded_at(
    bytes: &Vec<u8>,
    position: usize,
    original: usize,
    total: usize,
    num_deviation_bits: usize,
    num_id_bits: usize,
) -> (result: Result<HuffmanDeviationData, EntroGdError>)
    requires
        position <= bytes@.len(),
        8 * bytes@.len() <= MAX_STREAM_BITS,
        num_id_bits <= 64,
    ensures
        match read_coded(
            bytes@,
            position as int,
            (RowShape {
                original: original as nat,
                total: total as nat,
                num_deviation_bits: num_deviation_bits as nat,
                num_id_bits: num_id_bits as nat,
            }),
        ) {
            Some(rows) => result matches Ok(found) && found@ == rows && found.valid(),
            None => result matches Err(error) && error is InvalidMetadata,
        },
{
    let len: usize = bytes.len();
    if len - position < 10 {
        return Err(bad_metadata("unexpected end of EGD while reading Huffman sizes"));
    }
    proof {
        lemma2_to64();
        le_value_bound(bytes@.subrange(position as int, position + 4));
        le_value_bound(bytes@.subrange(position + 6, position + 10));
    }
    let count: usize = read_le(bytes, position, 4) as usize;
    let id_bits: usize = bytes[position + 4] as usize;
    let deviation_bits: usize = bytes[position + 5] as usize;
    let groups: usize = read_le(bytes, position + 6, 4) as usize;
    if id_bits != num_id_bits {
        return Err(
            EntroGdError::InvalidMetadata {
                message: two_numbers(
                    "Huffman l_id mismatch: header=",
                    id_bits,
                    ", expected=",
                    num_id_bits,
                ),
            },
        );
    }
    if deviation_bits != num_deviation_bits % 256 {
        return Err(
            EntroGdError::InvalidMetadata {
                message: two_numbers(
                    "Huffman l_d mismatch: header=",
                    deviation_bits,
                    ", expected=",
                    num_deviation_bits % 256,
                ),
            },
        );
    }
    let row_width: usize = if groups == 0 {
        0
    } else {
        if original % groups != 0 {
            return Err(
                EntroGdError::InvalidMetadata {
                    message: two_numbers(
                        "original sample count ",
                        original,
                        " is not divisible by Huffman row count ",
                        groups,
                    ),
                },
            );
        }
        original / groups
    };
    let (symbols, lengths, a) = match read_codes_at(bytes, position + 10, count, (id_bits + 7) / 8) {
        Ok(found) => found,
        Err(error) => {
            return Err(error);
        },
    };
    let (row_offsets, b) = match read_offsets_at(bytes, a, groups) {
        Ok(found) => found,
        Err(error) => {
            return Err(error);
        },
    };
    let (deviations, c) = match read_product_bits_at(bytes, b, total, num_deviation_bits) {
        Ok(found) => found,
        Err(error) => {
            return Err(error);
        },
    };
    let pixels = crate::bytes::read_packed(bytes, c, 8 * (len - c));
    proof {
        assert(bytes@.subrange(c as int, len as int) =~= bytes@.skip(c as int));
    }
    HuffmanDeviationData::new(
        pixels,
        deviations,
        symbols,
        lengths,
        row_offsets,
        total,
        original,
        num_deviation_bits,
        id_bits,
        row_width,
    )
}

/// Whether all bytes from a position on are zero.
fn only_zeros_from(bytes: &Vec<u8>, position: usize) -> (zeros: bool)
    requires
        position <= bytes@.len(),
    ensures
        zeros == zero_from(bytes@, position as int),
{
    let mut i: usize = position;
    while i < bytes.len()
        invariant
            position <= i <= bytes@.len(),
            forall|k: int| position <= k < i ==> #[trigger] bytes@[k] == 0,
        decreases bytes@.len() - i,
    {
        if bytes[i] != 0 {
            return false;
        }
        i += 1;
    }
    true
}

/// Reads the encoded rows at a position.
pub fn read_encoded_at(
    bytes: &Vec<u8>,
    position: usize,
    original: usize,
    total: usize,
    num_deviation_bits: usize,
    num_id_bits: usize,
) -> (result: Result<EncodedData, EntroGdError>)
    requires
        8 * bytes@.len() <= MAX_STREAM_BITS,
        num_deviation_bits + num_id_bits <= usize::MAX,
        1 <= num_id_bits <= 64,
    ensures
        match read_encoded(
            bytes@,
            position as int,
            (RowShape {
                original: original as nat,
                total: total as nat,
                num_deviation_bits: num_deviation_bits as nat,
                num_id_bits: num_id_bits as nat,
            }),
        ) {
            Some(rows) => result matches Ok(found) && found@ == rows && found.valid(),
            None => result matches Err(error) && error is InvalidMetadata,
        },
{
    if position >= bytes.len() {
        return Err(bad_metadata("unexpected end of EGD before encoded data"));
    }
    let tag: u8 = bytes[position];
    if tag == ENCODING_TAG_NORMAL {
        match read_product_bits_at(bytes, position + 1, total, num_deviation_bits + num_id_bits) {
            Ok((stream, end)) => {
                if !only_zeros_from(bytes, end) {
                    return Err(bad_metadata("non-zero trailing bytes after encoded stream"));
                }
                Ok(
                    EncodedData::Normal(
                        DeviationData::new(stream, total, num_deviation_bits, num_id_bits),
                    ),
                )
            },
            Err(error) => Err(error),
        }
    } else if tag == ENCODING_TAG_RLE_OFFSET {
        match read_runs_at(
            bytes,
            position + 1,
            original,
            total,
            num_deviation_bits,
            num_id_bits,
        ) {
            Ok((rows, end)) => {
                if !only_zeros_from(bytes, end) {
                    return Err(bad_metadata("non-zero trailing bytes after encoded stream"));
                }
                Ok(EncodedData::RleOffset(rows))
            },
            Err(error) => Err(error),
        }
    } else if tag == ENCODING_TAG_HUFFMAN_BASE_ID_ONLY {
        match read_coded_at(
            bytes,
            position + 1,
            original,
            total,
            num_deviation_bits,
            num_id_bits,
        ) {
            Ok(rows) => Ok(EncodedData::Huffman(rows)),
            Err(error) => Err(error),
        }
    } else {
        Err(
            EntroGdError::InvalidMetadata {
                message: numbered("unsupported encoded-data tag ", tag as usize),
            },
        )
    }
}

} // verus!
