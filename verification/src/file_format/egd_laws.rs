//! What is read of a file is what was written to it.
use vstd::arithmetic::power2::{lemma2_to64, lemma_pow2_strictly_increases, pow2};
use vstd::prelude::*;

use crate::bits::join_uniform;
use crate::bytes::{
    byte_len, concat, le_bytes, le_bytes_len, le_round_trip, number_parts, numbers_are_found,
    numbers_at, packed, record, records_are_found, unpack_packed, unpacked,
};
use crate::data::features_width;
use crate::encoding::compressed::{CompressedView, EncodedView};
use crate::encoding::deviation::{slot, slot_in_bounds, DeviationView};
use crate::encoding::huffman::{canonical, codes_are_prefix_free, spelled};
use crate::encoding::huffman_data::{decoded, decoded_prefix, entry_at, HuffmanView};
use crate::encoding::rle::{source, source_in_bounds, total_samples, total_symbols, writable};
use crate::encoding::rle_data::{expands_to, RleOffsetView, RleView};
use crate::file_format::egd::{
    assembled, counted, file_bytes, header_bytes, read_file, read_header, read_rest, read_weights,
    shape_of, table_width, weight_list, weight_size, weights_fit, FORMAT_VERSION, MAGIC_BYTES,
};
use crate::file_format::egd_features::{features_are_found_again, features_bytes};
use crate::file_format::egd_rows::{
    code_parts, codes_bytes, encoded_bytes, offset_parts, pair_parts, plain_bytes, read_code_parts,
    read_code_sizes, read_coded, read_codes, read_encoded, read_number, read_offsets, read_pairs,
    read_run_parts, read_runs, read_starts, runs_bytes, start_parts, written_out, RowShape,
};
use crate::file_format::egd_table::{
    bits_are_found, index_fits, size_is_found, stored_table, table_bytes, table_is_found_again,
    table_storable,
};
use crate::file_format::tags::{
    ENCODING_TAG_HUFFMAN_BASE_ID_ONLY, ENCODING_TAG_NORMAL, ENCODING_TAG_RLE_OFFSET,
};
use crate::numbers::fitted;

verus! {

/// Whether encoded rows have the given shape and the counts that are written fit their fields.
pub open spec fn rows_storable(rows: EncodedView, shape: RowShape) -> bool {
    &&& rows.num_samples() == shape.total
    &&& rows.num_deviation_bits() == shape.num_deviation_bits
    &&& rows.num_id_bits() == shape.num_id_bits
    &&& match rows {
        EncodedView::Normal(plain) => true,
        EncodedView::Rle(runs) => rows.has_plain_rows(),
        EncodedView::RleOffset(runs) => {
            &&& runs.original_num_samples == shape.original
            &&& runs.well_formed()
            &&& writable(runs.pairs)
            &&& runs.symbols.len() == total_symbols(runs.pairs) * shape.width()
            &&& runs.row_offsets.len() <= u32::MAX
            &&& runs.row_width <= u32::MAX
            &&& runs.pairs.len() <= u32::MAX
        },
        EncodedView::Huffman(codes) => {
            &&& codes.original_num_samples == shape.original
            &&& codes.well_formed()
            &&& codes.symbols.len() <= u32::MAX
            &&& codes.row_offsets.len() <= u32::MAX
        },
    }
}

/// What is found again of encoded rows: runs without group starts are written out, bits behind
/// the last row are dropped, and codes are filled up with zeros to whole bytes.
pub open spec fn stored_rows(rows: EncodedView, shape: RowShape) -> EncodedView {
    match rows {
        EncodedView::Normal(plain) => EncodedView::Normal(
            DeviationView { bits: fitted(plain.bits, shape.total * shape.width()), ..plain },
        ),
        EncodedView::Rle(runs) => EncodedView::Normal(written_out(runs)),
        EncodedView::RleOffset(runs) => rows,
        EncodedView::Huffman(codes) => EncodedView::Huffman(
            HuffmanView {
                pixels: fitted(codes.pixels, 8 * byte_len(codes.pixels.len())),
                row_width: if codes.row_offsets.len() == 0 {
                    0
                } else {
                    codes.row_width
                },
                ..codes
            },
        ),
    }
}

/// A number is found again from its bytes.
proof fn number_is_found(before: Seq<u8>, value: nat, size: nat, after: Seq<u8>)
    requires
        value < pow2(8 * size),
    ensures
        read_number(before + le_bytes(value, size) + after, before.len() as int, size) == Some(
            (value, (before.len() + size) as int),
        ),
        le_bytes(value, size).len() == size,
{
    let bytes = before + le_bytes(value, size) + after;
    le_round_trip(value, size);
    assert(bytes.subrange(before.len() as int, (before.len() + size) as int) =~= le_bytes(
        value,
        size,
    ));
}

/// Plain rows are found again from their bytes.
proof fn plain_is_found(before: Seq<u8>, plain: DeviationView, shape: RowShape)
    requires
        rows_storable(EncodedView::Normal(plain), shape),
    ensures
        read_encoded(
            before + plain_bytes(plain, shape.width()),
            before.len() as int,
            shape,
        ) == Some(stored_rows(EncodedView::Normal(plain), shape)),
{
    let tag = seq![ENCODING_TAG_NORMAL];
    let bits = fitted(plain.bits, plain.num_samples * shape.width());
    let bytes = before + plain_bytes(plain, shape.width());
    assert(bytes =~= (before + tag) + packed(bits) + Seq::<u8>::empty());
    bits_are_found(before + tag, bits, Seq::empty());
    assert(bytes[before.len() as int] == ENCODING_TAG_NORMAL);
}

/// Runs that are complete take up all their room when they are written out.
proof fn written_out_expands(runs: RleView)
    requires
        EncodedView::Rle(runs).has_plain_rows(),
    ensures
        written_out(runs).bits.len() == runs.num_samples * runs.symbol_width(),
        expands_to(runs.pairs, runs.symbols, runs.symbol_width(), written_out(runs).bits),
{
    let width = runs.symbol_width();
    let parts = Seq::new(
        total_samples(runs.pairs),
        |s: int| slot(runs.symbols, width, source(runs.pairs, s)),
    );
    assert forall|s: int| 0 <= s < parts.len() implies (#[trigger] parts[s]).len() == width by {
        source_in_bounds(runs.pairs, s);
        slot_in_bounds(source(runs.pairs, s), total_symbols(runs.pairs) as int, width as int);
    }
    join_uniform(parts, width);
    assert forall|s: int| 0 <= s < total_samples(runs.pairs) implies #[trigger] slot(
        written_out(runs).bits,
        width,
        s,
    ) == slot(runs.symbols, width, source(runs.pairs, s)) by {
        assert(parts[s] == slot(runs.symbols, width, source(runs.pairs, s)));
    }
}

/// Group starts are found again from their bytes.
proof fn starts_are_found(before: Seq<u8>, starts: Seq<(u32, u32)>, after: Seq<u8>)
    ensures
        read_starts(
            before + concat(start_parts(starts)) + after,
            before.len() as int,
            starts.len(),
        ) == Some((starts, (before.len() + concat(start_parts(starts)).len()) as int)),
{
    let parts = start_parts(starts);
    let bytes = before + concat(parts) + after;
    lemma2_to64();
    assert forall|i: int| 0 <= i < parts.len() implies (#[trigger] parts[i]).len() == 8 by {
        le_bytes_len(starts[i].0 as nat, 4);
        le_bytes_len(starts[i].1 as nat, 4);
    }
    records_are_found(before, parts, 8, after);
    let found = (read_starts(bytes, before.len() as int, starts.len())->0).0;
    assert forall|i: int| 0 <= i < starts.len() implies #[trigger] found[i] == starts[i] by {
        let part = record(bytes, before.len() as int, 8, i);
        assert(part == parts[i]);
        le_round_trip(starts[i].0 as nat, 4);
        le_round_trip(starts[i].1 as nat, 4);
        assert(part.take(4) =~= le_bytes(starts[i].0 as nat, 4));
        assert(part.skip(4) =~= le_bytes(starts[i].1 as nat, 4));
    }
    assert(found =~= starts);
}

/// Pairs are found again from their bytes.
proof fn pairs_are_found(before: Seq<u8>, pairs: Seq<(u8, u8)>, after: Seq<u8>)
    requires
        writable(pairs),
    ensures
        read_pairs(
            before + concat(pair_parts(pairs)) + after,
            before.len() as int,
            pairs.len(),
        ) == Some((pairs, (before.len() + concat(pair_parts(pairs)).len()) as int)),
{
    let parts = pair_parts(pairs);
    let bytes = before + concat(parts) + after;
    records_are_found(before, parts, 2, after);
    let found = Seq::new(
        pairs.len(),
        |i: int|
            (
                record(bytes, before.len() as int, 2, i)[0],
                record(bytes, before.len() as int, 2, i)[1],
            ),
    );
    assert forall|i: int| 0 <= i < pairs.len() implies #[trigger] found[i] == pairs[i] by {
        assert(record(bytes, before.len() as int, 2, i) == parts[i]);
    }
    assert(found =~= pairs);
}

/// The parts of runs are found again from their bytes.
proof fn run_parts_are_found(before: Seq<u8>, runs: RleOffsetView, width: nat)
    requires
        writable(runs.pairs),
        runs.symbols.len() == total_symbols(runs.pairs) * width,
        runs.row_offsets.len() <= u32::MAX,
        runs.row_width <= u32::MAX,
        runs.pairs.len() <= u32::MAX,
    ensures
        ({
            let written = le_bytes(runs.row_offsets.len(), 4) + le_bytes(runs.row_width, 4) + concat(
                start_parts(runs.row_offsets),
            ) + le_bytes(runs.pairs.len(), 4) + concat(pair_parts(runs.pairs)) + packed(
                runs.symbols,
            );
            read_run_parts(before + written, before.len() as int, width) == Some(
                (
                    (runs.row_width, runs.row_offsets, runs.pairs, runs.symbols),
                    (before.len() + written.len()) as int,
                ),
            )
        }),
{
    lemma2_to64();
    let count = le_bytes(runs.row_offsets.len(), 4);
    let row_width = le_bytes(runs.row_width, 4);
    let starts = concat(start_parts(runs.row_offsets));
    let pair_count = le_bytes(runs.pairs.len(), 4);
    let pairs = concat(pair_parts(runs.pairs));
    let symbols = packed(runs.symbols);
    let bytes = before + (count + row_width + starts + pair_count + pairs + symbols);
    let e = before + count + row_width + starts + pair_count + pairs;
    let d = before + count + row_width + starts + pair_count;
    let c = before + count + row_width + starts;
    let b = before + count + row_width;
    let a = before + count;
    assert(bytes =~= before + count + (row_width + starts + pair_count + pairs + symbols));
    number_is_found(
        before,
        runs.row_offsets.len(),
        4,
        row_width + starts + pair_count + pairs + symbols,
    );
    assert(bytes =~= a + row_width + (starts + pair_count + pairs + symbols));
    number_is_found(a, runs.row_width, 4, starts + pair_count + pairs + symbols);
    assert(bytes =~= b + starts + (pair_count + pairs + symbols));
    starts_are_found(b, runs.row_offsets, pair_count + pairs + symbols);
    assert(bytes =~= c + pair_count + (pairs + symbols));
    number_is_found(c, runs.pairs.len(), 4, pairs + symbols);
    assert(bytes =~= d + pairs + symbols);
    pairs_are_found(d, runs.pairs, symbols);
    assert(bytes =~= e + symbols + Seq::<u8>::empty());
    bits_are_found(e, runs.symbols, Seq::empty());
}

/// Runs are found again from their bytes.
proof fn runs_are_found(before: Seq<u8>, runs: RleOffsetView, shape: RowShape)
    requires
        rows_storable(EncodedView::RleOffset(runs), shape),
    ensures
        read_encoded(before + runs_bytes(runs, shape.width()), before.len() as int, shape) == Some(
            EncodedView::RleOffset(runs),
        ),
{
    let tag = seq![ENCODING_TAG_RLE_OFFSET];
    let written = le_bytes(runs.row_offsets.len(), 4) + le_bytes(runs.row_width, 4) + concat(
        start_parts(runs.row_offsets),
    ) + le_bytes(runs.pairs.len(), 4) + concat(pair_parts(runs.pairs)) + packed(runs.symbols);
    let bytes = before + runs_bytes(runs, shape.width());
    assert(fitted(runs.symbols, total_symbols(runs.pairs) * shape.width()) =~= runs.symbols);
    assert(bytes =~= (before + tag) + written);
    run_parts_are_found(before + tag, runs, shape.width());
    assert(bytes[before.len() as int] == ENCODING_TAG_RLE_OFFSET);
    let found = (read_runs(bytes, before.len() as int + 1, shape)->0).0;
    assert(found =~= runs);
}

/// What codes spell does not change with what stands behind them.
proof fn spelled_before_more(bits: Seq<bool>, more: Seq<bool>, start: int, len: nat)
    requires
        0 <= start,
        start + len <= bits.len(),
    ensures
        spelled(bits + more, start, len) == spelled(bits, start, len),
    decreases len,
{
    if len > 0 {
        spelled_before_more(bits, more, start, (len - 1) as nat);
    }
}

/// Codes are decoded alike with more bits behind them.
pub proof fn decoded_before_more(
    symbols: Seq<u64>,
    lengths: Seq<u8>,
    bits: Seq<bool>,
    more: Seq<bool>,
    position: int,
    count: nat,
)
    requires
        canonical(symbols, lengths),
        0 <= position <= bits.len(),
        decoded(symbols, lengths, bits, position, count) is Some,
    ensures
        decoded(symbols, lengths, bits + more, position, count) == decoded(
            symbols,
            lengths,
            bits,
            position,
            count,
        ),
    decreases count,
{
    if count > 0 {
        let before = (count - 1) as nat;
        decoded_prefix(symbols, lengths, bits, position, before, count);
        decoded_before_more(symbols, lengths, bits, more, position, before);
        let at = (decoded(symbols, lengths, bits, position, before)->0).1;
        let k = entry_at(lengths, bits, at)->0;
        assert(crate::encoding::huffman::code_stands_at(lengths, bits, at, k));
        spelled_before_more(bits, more, at, lengths[k] as nat);
        assert(crate::encoding::huffman::code_stands_at(lengths, bits + more, at, k));
        let found = entry_at(lengths, bits + more, at)->0;
        codes_are_prefix_free(symbols, lengths, bits + more, at, found, k);
    }
}

/// Whole bytes hold the bits and zeros behind them.
proof fn unpack_all(bits: Seq<bool>)
    ensures
        unpacked(packed(bits), 8 * packed(bits).len()) == fitted(bits, 8 * byte_len(bits.len())),
{
    let full = fitted(bits, 8 * byte_len(bits.len()));
    assert(packed(full) =~= packed(bits)) by {
        assert forall|i: int| 0 <= i < packed(bits).len() implies #[trigger] packed(full)[i]
            == packed(bits)[i] by {
            assert(fitted(full.skip(8 * i), 8) =~= fitted(bits.skip(8 * i), 8));
        }
    }
    unpack_packed(full);
}

/// A code table is found again from its bytes.
proof fn codes_are_found(
    before: Seq<u8>,
    symbols: Seq<u64>,
    lengths: Seq<u8>,
    size: nat,
    after: Seq<u8>,
)
    requires
        symbols.len() == lengths.len(),
        forall|i: int| 0 <= i < symbols.len() ==> #[trigger] symbols[i] < pow2(8 * size),
    ensures
        read_codes(
            before + concat(code_parts(symbols, lengths, size)) + after,
            before.len() as int,
            symbols.len(),
            size,
        ) == Some(
            (
                (symbols, lengths),
                (before.len() + concat(code_parts(symbols, lengths, size)).len()) as int,
            ),
        ),
{
    let parts = code_parts(symbols, lengths, size);
    let bytes = before + concat(parts) + after;
    assert forall|i: int| 0 <= i < parts.len() implies (#[trigger] parts[i]).len() == size + 1 by {
        le_bytes_len(symbols[i] as nat, size);
    }
    records_are_found(before, parts, size + 1, after);
    let found = (read_codes(bytes, before.len() as int, symbols.len(), size)->0).0;
    assert forall|i: int| 0 <= i < symbols.len() implies #[trigger] found.0[i] == symbols[i]
        && found.1[i] == lengths[i] by {
        let part = record(bytes, before.len() as int, size + 1, i);
        assert(part == parts[i]);
        le_round_trip(symbols[i] as nat, size);
        assert(part.take(size as int) =~= le_bytes(symbols[i] as nat, size));
    }
    assert(found.0 =~= symbols);
    assert(found.1 =~= lengths) by {
        assert forall|i: int| 0 <= i < lengths.len() implies found.1[i] == lengths[i] by {
            assert(found.0[i] == symbols[i]);
        }
    }
}

/// Offsets are found again from their bytes.
proof fn offsets_are_found(before: Seq<u8>, offsets: Seq<u32>, after: Seq<u8>)
    ensures
        read_offsets(
            before + concat(offset_parts(offsets)) + after,
            before.len() as int,
            offsets.len(),
        ) == Some((offsets, (before.len() + concat(offset_parts(offsets)).len()) as int)),
{
    let parts = offset_parts(offsets);
    let bytes = before + concat(parts) + after;
    lemma2_to64();
    assert forall|i: int| 0 <= i < parts.len() implies (#[trigger] parts[i]).len() == 4 by {
        le_bytes_len(offsets[i] as nat, 4);
    }
    records_are_found(before, parts, 4, after);
    let found = (read_offsets(bytes, before.len() as int, offsets.len())->0).0;
    assert forall|i: int| 0 <= i < offsets.len() implies #[trigger] found[i] == offsets[i] by {
        assert(record(bytes, before.len() as int, 4, i) == parts[i]);
        le_round_trip(offsets[i] as nat, 4);
    }
    assert(found =~= offsets);
}

/// The sizes of rows with prefix codes are found again from their bytes.
proof fn code_sizes_are_found(
    before: Seq<u8>,
    count: nat,
    num_id_bits: nat,
    num_deviation_bits: nat,
    groups: nat,
    after: Seq<u8>,
)
    requires
        count <= u32::MAX,
        num_id_bits <= 255,
        groups <= u32::MAX,
    ensures
        ({
            let written = le_bytes(count, 4) + le_bytes(num_id_bits, 1) + le_bytes(
                num_deviation_bits,
                1,
            ) + le_bytes(groups, 4);
            &&& written.len() == 10
            &&& read_code_sizes(before + written + after, before.len() as int) == Some(
                (
                    (count, num_id_bits, num_deviation_bits % 256, groups),
                    (before.len() + 10) as int,
                ),
            )
        }),
{
    lemma2_to64();
    let written = le_bytes(count, 4) + le_bytes(num_id_bits, 1) + le_bytes(num_deviation_bits, 1)
        + le_bytes(groups, 4);
    let bytes = before + written + after;
    let at = before.len() as int;
    le_round_trip(count, 4);
    le_round_trip(groups, 4);
    le_bytes_len(num_id_bits, 1);
    le_bytes_len(num_deviation_bits, 1);
    assert(le_bytes(num_id_bits, 1)[0] == num_id_bits);
    assert(le_bytes(num_deviation_bits, 1)[0] == num_deviation_bits % 256);
    assert(bytes.subrange(at, at + 4) =~= le_bytes(count, 4));
    assert(bytes.subrange(at + 6, at + 10) =~= le_bytes(groups, 4));
    assert(bytes[at + 4] == le_bytes(num_id_bits, 1)[0]);
    assert(bytes[at + 5] == le_bytes(num_deviation_bits, 1)[0]);
}

/// Code table, offsets and deviations are found again from their bytes.
proof fn code_parts_are_found(before: Seq<u8>, codes: HuffmanView, shape: RowShape, after: Seq<u8>)
    requires
        rows_storable(EncodedView::Huffman(codes), shape),
    ensures
        ({
            let written = concat(
                code_parts(codes.symbols, codes.lengths, byte_len(codes.num_id_bits)),
            ) + concat(offset_parts(codes.row_offsets)) + packed(codes.deviations);
            read_code_parts(
                before + written + after,
                before.len() as int,
                codes.symbols.len(),
                codes.row_offsets.len(),
                shape,
            ) == Some(
                (
                    (codes.symbols, codes.lengths, codes.row_offsets, codes.deviations),
                    (before.len() + written.len()) as int,
                ),
            )
        }),
{
    let size = byte_len(codes.num_id_bits);
    let table = concat(code_parts(codes.symbols, codes.lengths, size));
    let offsets = concat(offset_parts(codes.row_offsets));
    let deviations = packed(codes.deviations);
    let bytes = before + (table + offsets + deviations) + after;
    assert forall|i: int| 0 <= i < codes.symbols.len() implies #[trigger] codes.symbols[i] < pow2(
        8 * size,
    ) by {
        assert(codes.symbols[i] < pow2(codes.num_id_bits));
        if codes.num_id_bits < 8 * size {
            lemma_pow2_strictly_increases(codes.num_id_bits, 8 * size);
        }
    }
    assert(bytes =~= before + table + (offsets + deviations + after));
    codes_are_found(before, codes.symbols, codes.lengths, size, offsets + deviations + after);
    assert(bytes =~= (before + table) + offsets + (deviations + after));
    offsets_are_found(before + table, codes.row_offsets, deviations + after);
    assert(bytes =~= (before + table + offsets) + deviations + after);
    bits_are_found(before + table + offsets, codes.deviations, after);
}

/// Rows with prefix codes stay well formed when zeros fill up the last byte.
proof fn stored_codes_are_well_formed(codes: HuffmanView, shape: RowShape)
    requires
        rows_storable(EncodedView::Huffman(codes), shape),
    ensures
        stored_rows(EncodedView::Huffman(codes), shape) matches EncodedView::Huffman(stored)
            && stored.well_formed(),
        codes.row_offsets.len() > 0 ==> shape.original % codes.row_offsets.len() == 0
            && shape.original / codes.row_offsets.len() == codes.row_width,
{
    let stored = stored_rows(EncodedView::Huffman(codes), shape)->Huffman_0;
    let extra = (8 * byte_len(codes.pixels.len()) - codes.pixels.len()) as nat;
    let zeros = Seq::new(extra, |i: int| false);
    assert(stored.pixels =~= codes.pixels + zeros);
    if codes.original_num_samples > 0 {
        let n = codes.original_num_samples as int;
        let w = codes.row_width as int;
        let g = n / w;
        assert(n == g * w && g > 0) by (nonlinear_arith)
            requires
                n > 0,
                w > 0,
                n % w == 0,
                g == n / w,
        ;
        assert(n % g == 0 && n / g == w) by (nonlinear_arith)
            requires
                n == g * w,
                g > 0,
        ;
        decoded_before_more(
            codes.symbols,
            codes.lengths,
            codes.pixels,
            zeros,
            codes.row_offsets.last() as int,
            codes.row_width,
        );
    }
}

/// Rows with prefix codes are put together from parts that are found.
proof fn coded_parts_make_rows(
    bytes: Seq<u8>,
    position: int,
    end: int,
    codes: HuffmanView,
    shape: RowShape,
)
    requires
        rows_storable(EncodedView::Huffman(codes), shape),
        read_code_sizes(bytes, position) == Some(
            (
                (
                    codes.symbols.len(),
                    codes.num_id_bits,
                    codes.num_deviation_bits % 256,
                    codes.row_offsets.len(),
                ),
                position + 10,
            ),
        ),
        read_code_parts(
            bytes,
            position + 10,
            codes.symbols.len(),
            codes.row_offsets.len(),
            shape,
        ) == Some(((codes.symbols, codes.lengths, codes.row_offsets, codes.deviations), end)),
        bytes.skip(end) == packed(codes.pixels),
    ensures
        read_coded(bytes, position, shape) == Some(
            stored_rows(EncodedView::Huffman(codes), shape)->Huffman_0,
        ),
{
    unpack_all(codes.pixels);
    stored_codes_are_well_formed(codes, shape);
}

/// Rows with prefix codes are found again from their bytes.
#[verifier::spinoff_prover]
proof fn coded_is_found(before: Seq<u8>, codes: HuffmanView, shape: RowShape)
    requires
        rows_storable(EncodedView::Huffman(codes), shape),
    ensures
        read_encoded(before + codes_bytes(codes), before.len() as int, shape) == Some(
            stored_rows(EncodedView::Huffman(codes), shape),
        ),
{
    let tag = seq![ENCODING_TAG_HUFFMAN_BASE_ID_ONLY];
    let sizes = le_bytes(codes.symbols.len(), 4) + le_bytes(codes.num_id_bits, 1) + le_bytes(
        codes.num_deviation_bits,
        1,
    ) + le_bytes(codes.row_offsets.len(), 4);
    let parts = concat(code_parts(codes.symbols, codes.lengths, byte_len(codes.num_id_bits)))
        + concat(offset_parts(codes.row_offsets)) + packed(codes.deviations);
    let pixels = packed(codes.pixels);
    let bytes = before + codes_bytes(codes);
    let at = before.len() as int;
    assert(fitted(codes.deviations, codes.num_samples * codes.num_deviation_bits)
        =~= codes.deviations);
    assert(bytes =~= (before + tag) + sizes + (parts + pixels));
    code_sizes_are_found(
        before + tag,
        codes.symbols.len(),
        codes.num_id_bits,
        codes.num_deviation_bits,
        codes.row_offsets.len(),
        parts + pixels,
    );
    assert(bytes =~= (before + tag + sizes) + parts + pixels);
    code_parts_are_found(before + tag + sizes, codes, shape, pixels);
    let end = (before + tag + sizes).len() + parts.len();
    assert((before + tag + sizes).len() == at + 11) by {
        le_bytes_len(codes.symbols.len(), 4);
        le_bytes_len(codes.num_id_bits, 1);
        le_bytes_len(codes.num_deviation_bits, 1);
        le_bytes_len(codes.row_offsets.len(), 4);
    }
    assert(bytes.skip(end as int) =~= pixels);
    coded_parts_make_rows(bytes, at + 1, end as int, codes, shape);
    assert(bytes[at] == ENCODING_TAG_HUFFMAN_BASE_ID_ONLY);
}

/// Encoded rows are found again from their bytes.
pub proof fn encoded_rows_are_found_again(before: Seq<u8>, rows: EncodedView, shape: RowShape)
    requires
        rows_storable(rows, shape),
    ensures
        read_encoded(
            before + encoded_bytes(rows, shape.width()),
            before.len() as int,
            shape,
        ) == Some(stored_rows(rows, shape)),
{
    match rows {
        EncodedView::Normal(plain) => {
            plain_is_found(before, plain, shape);
        },
        EncodedView::Rle(runs) => {
            let plain = written_out(runs);
            written_out_expands(runs);
            plain_is_found(before, plain, shape);
            assert(fitted(plain.bits, shape.total * shape.width()) =~= plain.bits);
        },
        EncodedView::RleOffset(runs) => {
            runs_are_found(before, runs, shape);
        },
        EncodedView::Huffman(codes) => {
            coded_is_found(before, codes, shape);
        },
    }
}

/// Whether compressed data is found again from its file: its parts fit together, every count
/// fits its field, and every row has a base of the table.
pub open spec fn storable(data: CompressedView) -> bool {
    let shape = shape_of(data);
    let features = data.metadata.features;
    &&& 0 < features.len() <= usize::MAX
    &&& data.layout.len() == features_width(features)
    &&& forall|i: int| 0 <= i < features.len() ==> (#[trigger] features[i]).data_type.width() > 0
    &&& shape.total <= usize::MAX
    &&& shape.original * features_width(features) <= usize::MAX
    &&& weights_fit(weight_list(data), shape.original)
    &&& table_storable(data.base_table, table_width(data.layout))
    &&& rows_storable(data.encoded, shape)
    &&& counted(
        stored_table(data.base_table, table_width(data.layout)),
        stored_rows(data.encoded, shape),
    ) is Some
}

/// What is found again of compressed data: the base table counts the rows anew, rows are stored
/// as `stored_rows` says, and the columns of a table have no names.
pub open spec fn stored(data: CompressedView) -> CompressedView {
    let shape = shape_of(data);
    assembled(
        data.metadata.features,
        data.layout,
        weight_list(data),
        counted(
            stored_table(data.base_table, table_width(data.layout)),
            stored_rows(data.encoded, shape),
        )->0,
        stored_rows(data.encoded, shape),
        shape.original,
    )
}

/// The header is found again from its bytes.
proof fn header_is_found(original: nat, condensed: nat, features: nat, after: Seq<u8>)
    requires
        original <= usize::MAX,
        condensed <= usize::MAX,
        0 < features <= usize::MAX,
    ensures
        header_bytes(original, condensed, features).len() == 28,
        read_header(header_bytes(original, condensed, features) + after) == Some(
            (original, condensed, features),
        ),
{
    let head = MAGIC_BYTES@ + seq![FORMAT_VERSION];
    let a = le_bytes(original, 8);
    let b = le_bytes(condensed, 8);
    let c = le_bytes(features, 8);
    let bytes = header_bytes(original, condensed, features) + after;
    assert(bytes =~= head + a + (b + c + after));
    size_is_found(head, original, b + c + after);
    assert(bytes =~= (head + a) + b + (c + after));
    size_is_found(head + a, condensed, c + after);
    assert(bytes =~= (head + a + b) + c + after);
    size_is_found(head + a + b, features, after);
    assert(bytes.take(3) =~= MAGIC_BYTES@);
    assert(bytes[3] == FORMAT_VERSION);
}

/// The weights are found again from their bytes.
proof fn weights_are_found(before: Seq<u8>, weights: Seq<usize>, size: nat, after: Seq<u8>)
    requires
        forall|i: int| 0 <= i < weights.len() ==> #[trigger] weights[i] < pow2(8 * size),
    ensures
        read_weights(
            before + concat(number_parts(weights, size)) + after,
            before.len() as int,
            weights.len(),
            size,
        ) == Some((weights, (before.len() + concat(number_parts(weights, size)).len()) as int)),
{
    numbers_are_found(before, weights, size, after);
    let bytes = before + concat(number_parts(weights, size)) + after;
    let numbers = numbers_at(bytes, before.len() as int, weights.len(), size);
    assert(Seq::new(weights.len(), |i: int| numbers[i] as usize) =~= weights);
}

/// What is read of a file is what was written to it.
pub proof fn file_is_read_back(data: CompressedView)
    requires
        storable(data),
    ensures
        read_file(file_bytes(data)) == Some(stored(data)),
{
    let shape = shape_of(data);
    let features = data.metadata.features;
    let weights = weight_list(data);
    let size = weight_size(shape.original);
    let width = table_width(data.layout);
    let table = stored_table(data.base_table, width);
    let h = header_bytes(shape.original, weights.len(), features.len());
    let f = features_bytes(features, data.layout);
    let w = concat(number_parts(weights, size));
    let t = table_bytes(data.base_table, width);
    let e = encoded_bytes(data.encoded, shape.width());
    let bytes = file_bytes(data);
    assert(bytes =~= h + (f + w + t + e));
    header_is_found(shape.original, weights.len(), features.len(), f + w + t + e);
    assert(bytes =~= h + f + (w + t + e));
    features_are_found_again(h, features, data.layout, w + t + e);
    assert(bytes =~= (h + f) + w + (t + e));
    weights_are_found(h + f, weights, size, t + e);
    assert(bytes =~= (h + f + w) + t + e);
    table_is_found_again(h + f + w, data.base_table, width, e);
    assert(bytes =~= (h + f + w + t) + e);
    encoded_rows_are_found_again(h + f + w + t, data.encoded, shape);
    assert(table.num_bases() == data.base_table.num_bases());
    assert(read_rest(
        bytes,
        (h + f + w + t).len() as int,
        features,
        data.layout,
        weights,
        table,
        shape.original,
    ) == Some(stored(data)));
}

/// Whatever else a file that is read holds, its features, the roles of their bits and the number of
/// original rows are those that were written.
pub proof fn file_keeps_description(data: CompressedView)
    requires
        0 < data.metadata.features.len() <= usize::MAX,
        data.layout.len() == features_width(data.metadata.features),
        forall|i: int|
            0 <= i < data.metadata.features.len() ==> (
            #[trigger] data.metadata.features[i]).data_type.width() > 0,
        shape_of(data).total <= usize::MAX,
        read_file(file_bytes(data)) is Some,
    ensures
        ({
            let read = read_file(file_bytes(data))->0;
            &&& read.metadata.features == data.metadata.features
            &&& read.layout == data.layout
            &&& read.metadata.original_size_bits == shape_of(data).original * features_width(
                data.metadata.features,
            )
            &&& data.metadata.original_size_bits % features_width(data.metadata.features) == 0
                ==> read.metadata.original_size_bits == data.metadata.original_size_bits
            &&& weights_fit(weight_list(data), shape_of(data).original) ==> weight_list(read)
                == weight_list(data)
        }),
{
    let shape = shape_of(data);
    let features = data.metadata.features;
    let weights = weight_list(data);
    let h = header_bytes(shape.original, weights.len(), features.len());
    let f = features_bytes(features, data.layout);
    let rest = concat(number_parts(weights, weight_size(shape.original))) + table_bytes(
        data.base_table,
        table_width(data.layout),
    ) + encoded_bytes(data.encoded, shape.width());
    let bytes = file_bytes(data);
    assert(bytes =~= h + (f + rest));
    header_is_found(shape.original, weights.len(), features.len(), f + rest);
    assert(bytes =~= h + f + rest);
    features_are_found_again(h, features, data.layout, rest);
    let w = concat(number_parts(weights, weight_size(shape.original)));
    let after = table_bytes(data.base_table, table_width(data.layout)) + encoded_bytes(
        data.encoded,
        shape.width(),
    );
    if weights_fit(weights, shape.original) {
        assert(bytes =~= (h + f) + w + after);
        weights_are_found(h + f, weights, weight_size(shape.original), after);
    }
    assert(features[0].data_type.width() > 0);
    widths_add_up(features);
    let bits = data.metadata.original_size_bits as int;
    let width = features_width(features) as int;
    assert(bits % width == 0 ==> (bits / width) * width == bits) by (nonlinear_arith)
        requires
            width > 0,
    ;
}

/// Whatever is read of a file, its weights are those that were written, where each condensed row
/// stands for at most as many rows as there are original ones.
pub proof fn file_keeps_weights(data: CompressedView, weights: Seq<usize>)
    requires
        0 < data.metadata.features.len() <= usize::MAX,
        data.layout.len() == features_width(data.metadata.features),
        forall|i: int|
            0 <= i < data.metadata.features.len() ==> (
            #[trigger] data.metadata.features[i]).data_type.width() > 0,
        shape_of(data).total <= usize::MAX,
        read_file(file_bytes(data)) is Some,
        data.weights == Some(weights),
        weights.len() > 0,
        forall|i: int|
            0 <= i < weights.len() ==> (#[trigger] weights[i]) <= shape_of(data).original,
    ensures
        weights_fit(weights, shape_of(data).original),
        (read_file(file_bytes(data))->0).weights == Some(weights),
{
    let original = shape_of(data).original;
    assert forall|i: int| 0 <= i < weights.len() implies #[trigger] weights[i] < pow2(
        8 * weight_size(original),
    ) by {
        index_fits(original + 1, weights[i] as nat);
    }
    file_keeps_description(data);
}

/// Data without names whose rows, weights and counts are just those that are stored is found
/// again as it was.
pub proof fn file_keeps_all(data: CompressedView)
    requires
        storable(data),
        stored_rows(data.encoded, shape_of(data)) == data.encoded,
        counted(
            stored_table(data.base_table, table_width(data.layout)),
            data.encoded,
        ) == Some(data.base_table),
        data.order == crate::file_format::egd::order_of(data.base_table),
        data.weights matches Some(weights) ==> weights.len() > 0,
        data.metadata.weights == data.weights,
        data.metadata.row_stride == features_width(data.metadata.features),
        data.metadata.original_size_bits % features_width(data.metadata.features) == 0,
        data.metadata.reconstruction == (crate::data::ReconstructionView::Tabular {
            names: Seq::empty(),
            types: Seq::empty(),
        }),
    ensures
        read_file(file_bytes(data)) == Some(data),
{
    file_is_read_back(data);
    let chunk = features_width(data.metadata.features) as int;
    let bits = data.metadata.original_size_bits as int;
    assert(data.metadata.features[0].data_type.width() > 0);
    widths_add_up(data.metadata.features);
    assert((bits / chunk) * chunk == bits) by (nonlinear_arith)
        requires
            bits % chunk == 0,
            chunk > 0,
    ;
    assert(stored(data) =~= data);
}

/// Whether rows are what runs are written out to.
pub open spec fn written_from(rows: EncodedView, plain: DeviationView) -> bool {
    &&& plain.num_samples == rows.num_samples()
    &&& plain.num_deviation_bits == rows.num_deviation_bits()
    &&& plain.num_id_bits == rows.num_id_bits()
    &&& match rows {
        EncodedView::Rle(runs) => expands_to(
            runs.pairs,
            runs.symbols,
            runs.symbol_width(),
            plain.bits,
        ),
        EncodedView::RleOffset(runs) => expands_to(
            runs.pairs,
            runs.symbols,
            runs.symbol_width(),
            plain.bits,
        ),
        _ => true,
    }
}

/// Runs stand for one stream of symbols.
proof fn expansion_is_unique(
    pairs: Seq<(u8, u8)>,
    symbols: Seq<bool>,
    width: nat,
    one: Seq<bool>,
    other: Seq<bool>,
)
    requires
        expands_to(pairs, symbols, width, one),
        expands_to(pairs, symbols, width, other),
    ensures
        one == other,
{
    let count = total_samples(pairs) as int;
    let w = width as int;
    assert forall|i: int| 0 <= i < one.len() implies one[i] == other[i] by {
        assert(w > 0) by (nonlinear_arith)
            requires
                0 <= i < count * w,
                w >= 0,
        ;
        let s = i / w;
        let at = i % w;
        assert(0 <= s < count && i == s * w + at && 0 <= at < w && 0 <= s * w && s * w + w <= count
            * w) by (nonlinear_arith)
            requires
                0 <= i < count * w,
                w > 0,
                s == i / w,
                at == i % w,
        ;
        assert(slot(one, width, s) == slot(other, width, s));
        assert(slot(one, width, s)[at] == one[i]);
        assert(slot(other, width, s)[at] == other[i]);
    }
    assert(one =~= other);
}

/// A stored file keeps runs with group starts: what is read are runs, and written out they are the
/// same rows as before.
pub proof fn file_keeps_runs(data: CompressedView, before: DeviationView, after: DeviationView)
    requires
        storable(data),
        data.encoded is RleOffset,
        written_from(data.encoded, before),
        read_file(file_bytes(data)) matches Some(read) ==> written_from(read.encoded, after),
    ensures
        read_file(file_bytes(data)) is Some,
        (read_file(file_bytes(data))->0).encoded == data.encoded,
        before == after,
{
    file_is_read_back(data);
    if let EncodedView::RleOffset(runs) = data.encoded {
        expansion_is_unique(
            runs.pairs,
            runs.symbols,
            runs.symbol_width(),
            before.bits,
            after.bits,
        );
    }
}

/// A stored file keeps the rows of runs without group starts: what is read are the rows that they
/// are written out to.
pub proof fn file_writes_runs_out(data: CompressedView, before: DeviationView)
    requires
        storable(data),
        data.encoded is Rle,
        written_from(data.encoded, before),
    ensures
        read_file(file_bytes(data)) is Some,
        (read_file(file_bytes(data))->0).encoded == EncodedView::Normal(before),
{
    file_is_read_back(data);
    if let EncodedView::Rle(runs) = data.encoded {
        written_out_expands(runs);
        expansion_is_unique(
            runs.pairs,
            runs.symbols,
            runs.symbol_width(),
            before.bits,
            written_out(runs).bits,
        );
    }
}

/// Features are together at least as wide as the first one.
pub proof fn widths_add_up(features: Seq<crate::data::FeatureSpec>)
    requires
        features.len() > 0,
    ensures
        features_width(features) >= features[0].data_type.width(),
    decreases features.len(),
{
    if features.len() > 1 {
        widths_add_up(features.drop_last());
    }
}

} // verus!
