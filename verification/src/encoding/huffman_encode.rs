//! Writing the base numbers of rows as prefix codes.
use fxhash::FxHashMap;
use vstd::arithmetic::power2::{lemma2_to64, pow2};
use vstd::prelude::*;
use vstd::seq_lib::{to_multiset_contains, to_multiset_len};

use crate::base_table::PreEncodeContext;
use crate::bits::{
    high_digits_first, join, join_concat, join_push, join_uniform, low_digits, BitStream,
    MAX_STREAM_BITS,
};
use crate::data::InfoView;
use crate::encoding::deviation::{
    encoded_rows, encoded_rows_random_access, slot, slot_in_bounds, split_symbol, DeviationView,
};
use crate::encoding::huffman::{
    appended_code_stands, canonical, code_at, codes_are_prefix_free, rebuild_huffman_codes,
    table_order,
};
use crate::encoding::huffman_data::{decoded, entry_at, HuffmanDeviationData, HuffmanView};
use crate::encoding::huffman_tree::{
    ascending_symbols_stay, build_canonical_huffman_table, is_table_of, side_by_side, table_entries,
    table_is_unique, total_frequency, SymbolFrequency,
};
use crate::encoding::layout::{
    append_deviation_bits, are_clear_runs, base_mask, derive_symbol_layout, deviation_width,
    id_width, row_symbol, row_symbols, unmasked, unmasked_len,
};
use crate::encoding::rle_encode::{huffman_row_layout, row_layout};
use crate::error::{bad_metadata, EntroGdError};
use crate::maps::{get_code, no_codes, put_code};
use crate::text::numbered;
use crate::utils::{bits_needed_bound, bits_needed_is_least};

verus! {

/// Whether a symbol has an entry in a code table.
pub open spec fn has_entry(symbols: Seq<u64>, symbol: u64) -> bool {
    exists|k: int| 0 <= k < symbols.len() && symbols[k] == symbol
}

/// The entry of a symbol in a code table.
pub open spec fn entry_of(symbols: Seq<u64>, symbol: u64) -> int {
    choose|k: int| 0 <= k < symbols.len() && symbols[k] == symbol
}

/// The code of a symbol, the most significant bit first.
pub open spec fn code_of(symbols: Seq<u64>, lengths: Seq<u8>, symbol: u64) -> Seq<bool> {
    let k = entry_of(symbols, symbol);
    high_digits_first(code_at(lengths, k), lengths[k] as nat)
}

/// The codes of some symbols.
pub open spec fn codes_of(symbols: Seq<u64>, lengths: Seq<u8>, ids: Seq<u64>) -> Seq<Seq<bool>> {
    Seq::new(ids.len(), |i: int| code_of(symbols, lengths, ids[i]))
}

/// Codes written one behind the other are read back from where the first of them stands.
pub proof fn codes_are_read_back(
    symbols: Seq<u64>,
    lengths: Seq<u8>,
    ids: Seq<u64>,
    first: int,
    count: nat,
)
    requires
        canonical(symbols, lengths),
        forall|i: int| 0 <= i < ids.len() ==> has_entry(symbols, #[trigger] ids[i]),
        0 <= first,
        first + count <= ids.len(),
    ensures
        ({
            let codes = codes_of(symbols, lengths, ids);
            decoded(symbols, lengths, join(codes), join(codes.take(first)).len() as int, count)
                == Some(
                (
                    ids.subrange(first, first + count),
                    join(codes.take(first + count)).len() as int,
                ),
            )
        }),
    decreases count,
{
    let codes = codes_of(symbols, lengths, ids);
    let bits = join(codes);
    if count == 0 {
        assert(ids.subrange(first, first) =~= Seq::empty());
    } else {
        codes_are_read_back(symbols, lengths, ids, first, (count - 1) as nat);
        let last = first + count - 1;
        let before = codes.take(last);
        let after = codes.skip(last + 1);
        let k = entry_of(symbols, ids[last]);
        assert(has_entry(symbols, ids[last]));
        assert(codes[last] == high_digits_first(code_at(lengths, k), lengths[k] as nat));
        assert(codes =~= before.push(codes[last]) + after);
        join_concat(before.push(codes[last]), after);
        join_push(before, codes[last]);
        assert(codes.take(last + 1) =~= before.push(codes[last]));
        assert(bits =~= join(before) + codes[last] + join(after));
        appended_code_stands(symbols, lengths, join(before), join(after), k);
        let at = join(before).len() as int;
        let found = entry_at(lengths, bits, at)->0;
        codes_are_prefix_free(symbols, lengths, bits, at, found, k);
        assert(ids.subrange(first, first + count) =~= ids.subrange(first, last).push(ids[last]));
    }
}

/// The bases of a context and how often they occur.
pub open spec fn base_frequencies(context: PreEncodeContext) -> Seq<SymbolFrequency> {
    Seq::new(
        context.variable_base_table@.len(),
        |id: int|
            SymbolFrequency { symbol: id as u64, frequency: context.variable_base_table@[id].1 },
    )
}

/// The code table of the bases of a context: symbols and lengths.
pub open spec fn base_code_table(context: PreEncodeContext) -> (Seq<u64>, Seq<u8>) {
    choose|table: (Seq<u64>, Seq<u8>)|
        #[trigger] is_table_of(table.0, table.1, base_frequencies(context))
}

/// Every base has an entry in the code table.
pub proof fn every_base_has_entry(symbols: Seq<u64>, lengths: Seq<u8>, context: PreEncodeContext, id: int)
    requires
        is_table_of(symbols, lengths, base_frequencies(context)),
        0 <= id < context.variable_base_table@.len() <= u64::MAX,
    ensures
        has_entry(symbols, id as u64),
{
    let entries = side_by_side(symbols, lengths);
    let unsorted = table_entries(base_frequencies(context));
    to_multiset_contains(unsorted, unsorted[id]);
    to_multiset_contains(entries, unsorted[id]);
    assert(unsorted.contains(unsorted[id]));
    let k = choose|k: int| 0 <= k < entries.len() && entries[k] == unsorted[id];
    assert(symbols[k] == id as u64);
}

/// Every entry of the code table is a base.
proof fn every_entry_is_base(symbols: Seq<u64>, lengths: Seq<u8>, context: PreEncodeContext, k: int)
    requires
        is_table_of(symbols, lengths, base_frequencies(context)),
        0 <= k < symbols.len(),
        context.variable_base_table@.len() <= u64::MAX,
    ensures
        symbols[k] < context.variable_base_table@.len(),
{
    let entries = side_by_side(symbols, lengths);
    let unsorted = table_entries(base_frequencies(context));
    to_multiset_contains(unsorted, entries[k]);
    to_multiset_contains(entries, entries[k]);
    assert(entries.contains(entries[k]));
    let id = choose|id: int| 0 <= id < unsorted.len() && unsorted[id] == entries[k];
    assert(base_frequencies(context)[id].symbol == id as u64);
}

/// No base has two entries in the code table.
proof fn entries_are_distinct(symbols: Seq<u64>, lengths: Seq<u8>, context: PreEncodeContext)
    requires
        is_table_of(symbols, lengths, base_frequencies(context)),
        context.variable_base_table@.len() <= u64::MAX,
    ensures
        forall|j: int, k: int|
            0 <= j < k < symbols.len() ==> #[trigger] symbols[j] != #[trigger] symbols[k],
{
    let entries = side_by_side(symbols, lengths);
    let bases = base_frequencies(context);
    let unsorted = table_entries(bases);
    assert forall|i: int, j: int| 0 <= i < unsorted.len() && 0 <= j < unsorted.len() && i
        != j implies unsorted[i] != unsorted[j] by {
        assert(bases[i].symbol == i && bases[j].symbol == j);
    }
    unsorted.lemma_multiset_has_no_duplicates();
    entries.lemma_multiset_has_no_duplicates_conv();
    assert forall|j: int, k: int| 0 <= j < k < symbols.len() implies #[trigger] symbols[j]
        != #[trigger] symbols[k] by {
        if symbols[j] == symbols[k] {
            to_multiset_contains(entries, entries[j]);
            to_multiset_contains(entries, entries[k]);
            to_multiset_contains(unsorted, entries[j]);
            to_multiset_contains(unsorted, entries[k]);
            assert(entries.contains(entries[j]) && entries.contains(entries[k]));
            let a = choose|a: int| 0 <= a < unsorted.len() && unsorted[a] == entries[j];
            let b = choose|b: int| 0 <= b < unsorted.len() && unsorted[b] == entries[k];
            assert(bases[a].symbol == a && bases[b].symbol == b);
            assert(entries[j] == entries[k]);
        }
    }
}

/// The base numbers of the rows.
pub open spec fn row_ids(context: PreEncodeContext) -> Seq<u64> {
    Seq::new(
        context.bit_data.data.num_rows as nat,
        |row: int| context.row_to_base_id@[row] as u64,
    )
}

/// The codes of the base numbers of the rows.
pub open spec fn row_codes(context: PreEncodeContext) -> Seq<Seq<bool>> {
    codes_of(base_code_table(context).0, base_code_table(context).1, row_ids(context))
}

/// The deviation bits of the rows.
pub open spec fn row_deviations(context: PreEncodeContext) -> Seq<Seq<bool>> {
    Seq::new(
        context.bit_data.data.num_rows as nat,
        |row: int| unmasked(context.bit_data.data.row(row), base_mask(context.layout@)),
    )
}

/// Where the code of a row begins.
pub open spec fn code_offset(context: PreEncodeContext, row: int) -> nat {
    join(row_codes(context).take(row)).len()
}

/// What the encoding of a context with prefix codes holds.
pub open spec fn huffman_rows(context: PreEncodeContext) -> HuffmanView {
    let (samples, count, width) = row_layout(context.bit_data.info@)->0;
    HuffmanView {
        pixels: join(row_codes(context)),
        deviations: join(row_deviations(context)),
        symbols: base_code_table(context).0,
        lengths: base_code_table(context).1,
        row_offsets: Seq::new(count, |group: int| code_offset(context, group * width) as u32),
        num_samples: context.bit_data.data.num_rows as nat,
        original_num_samples: samples,
        num_deviation_bits: deviation_width(context),
        num_id_bits: id_width(context),
        row_width: width,
    }
}

/// Whether the bases of a context have a code table, the original rows are arranged in whole
/// groups, and the group starts can be stored.
pub open spec fn huffman_encodes(context: PreEncodeContext) -> bool {
    let bases = base_frequencies(context);
    &&& bases.len() <= u32::MAX
    &&& bases.len() <= 1 || total_frequency(bases) <= usize::MAX
    &&& canonical(base_code_table(context).0, base_code_table(context).1)
    &&& row_layout(context.bit_data.info@) matches Some((samples, count, width))
        && samples <= context.bit_data.data.num_rows && (forall|group: int|
        0 <= group < count ==> #[trigger] code_offset(context, group * width) <= u32::MAX)
}

/// Whether deviation bits and codes each fit into one stream.
pub open spec fn huffman_fits(context: PreEncodeContext) -> bool {
    &&& context.layout@.len() <= MAX_STREAM_BITS
    &&& 2 * context.variable_base_table@.len() <= usize::MAX
    &&& context.bit_data.data.num_rows * deviation_width(context) <= MAX_STREAM_BITS
    &&& join(row_codes(context)).len() <= MAX_STREAM_BITS
}

/// The beginning of a list of parts is no longer than all of them.
proof fn join_take_bound(parts: Seq<Seq<bool>>, n: int, m: int)
    requires
        0 <= n <= m <= parts.len(),
    ensures
        join(parts.take(n)).len() <= join(parts.take(m)).len() <= join(parts).len(),
{
    assert(parts.take(m) =~= parts.take(n) + parts.subrange(n, m));
    join_concat(parts.take(n), parts.subrange(n, m));
    assert(parts =~= parts.take(m) + parts.skip(m));
    join_concat(parts.take(m), parts.skip(m));
}

/// Where the groups of some rows begin.
proof fn group_starts(group: int, later: int, count: int, width: int)
    requires
        0 <= group <= later <= count,
        0 <= width,
    ensures
        0 <= group * width <= later * width <= count * width,
{
    assert(0 <= group * width <= later * width <= count * width) by (nonlinear_arith)
        requires
            0 <= group <= later <= count,
            0 <= width,
    ;
}

/// What a context is encoded to is well formed, and the codes of the original rows end where
/// those of the other rows begin.
proof fn huffman_rows_are_sound(context: PreEncodeContext)
    requires
        context.valid(),
        huffman_fits(context),
        huffman_encodes(context),
    ensures
        huffman_rows(context).well_formed(),
        huffman_rows(context).original_end() == Some(
            code_offset(context, huffman_rows(context).original_num_samples as int) as int,
        ),
        forall|row: int|
            0 <= row < row_ids(context).len() ==> has_entry(
                base_code_table(context).0,
                #[trigger] row_ids(context)[row],
            ),
{
    let content = huffman_rows(context);
    let (symbols, lengths) = base_code_table(context);
    let (samples, count, width) = row_layout(context.bit_data.info@)->0;
    let codes = row_codes(context);
    let deviations = row_deviations(context);
    let ids = row_ids(context);
    table_exists(context);
    assert forall|row: int| 0 <= row < deviations.len() implies (#[trigger] deviations[row]).len()
        == deviation_width(context) by {
        unmasked_len(context.bit_data.data.row(row), base_mask(context.layout@));
    }
    join_uniform(deviations, deviation_width(context));
    bits_needed_is_least(context.variable_base_table@.len());
    lemma2_to64();
    bits_needed_bound(context.variable_base_table@.len(), 64);
    assert forall|k: int| 0 <= k < symbols.len() implies (#[trigger] symbols[k]) < pow2(
        content.num_id_bits,
    ) by {
        every_entry_is_base(symbols, lengths, context, k);
    }
    assert forall|row: int| 0 <= row < ids.len() implies has_entry(
        symbols,
        #[trigger] ids[row],
    ) by {
        every_base_has_entry(symbols, lengths, context, context.row_to_base_id@[row] as int);
    }
    if ids.len() > 0 {
        assert(has_entry(symbols, ids[0]));
    }
    layout_is_whole(context.bit_data.info@);
    assert forall|g: int| 0 <= g < count implies #[trigger] content.row_offsets[g]
        <= content.pixels.len() && content.row_offsets[g] == code_offset(context, g * width) by {
        group_starts(g, count as int, count as int, width as int);
        join_take_bound(codes, g * width, g * width);
    }
    assert forall|j: int, k: int| 0 <= j < k < count implies #[trigger] content.row_offsets[j]
        <= #[trigger] content.row_offsets[k] by {
        group_starts(j, k, count as int, width as int);
        join_take_bound(codes, j * width, k * width);
    }
    if samples > 0 {
        let last = (count - 1) * width;
        assert(last + width == samples) by (nonlinear_arith)
            requires
                last == (count - 1) * width,
                samples == count * width,
        ;
        group_starts(count - 1, count as int, count as int, width as int);
        codes_are_read_back(symbols, lengths, ids, last, width);
        assert(content.row_offsets.last() == content.row_offsets[count - 1]);
    } else {
        assert(codes.take(0) =~= Seq::empty());
    }
}

/// The original rows make up whole groups.
proof fn layout_is_whole(info: InfoView)
    requires
        row_layout(info) is Some,
    ensures
        row_layout(info) matches Some((samples, count, width)) && samples == count * width && (
        samples > 0 ==> width > 0 && samples % width == 0 && samples / width == count) && (samples
            == 0 ==> count == 0),
{
    let (samples, count, width) = row_layout(info)->0;
    if samples > 0 {
        assert(samples as int % width as int == 0 && samples as int / width as int == count)
            by (nonlinear_arith)
            requires
                samples == count * width,
                width > 0,
        ;
    } else {
        assert(count > 0 && width > 0 ==> count * width > 0) by (nonlinear_arith);
        assert(count == 0 ==> count * width == 0) by (nonlinear_arith);
    }
}

/// There is a code table of the bases.
pub proof fn table_exists(context: PreEncodeContext)
    ensures
        is_table_of(
            base_code_table(context).0,
            base_code_table(context).1,
            base_frequencies(context),
        ),
{
    let unsorted = table_entries(base_frequencies(context));
    let leq = |a: (u8, u64), b: (u8, u64)| !table_order(b, a);
    let sorted = unsorted.sort_by(leq);
    unsorted.lemma_sort_by_ensures(leq);
    let table = (
        Seq::new(sorted.len(), |k: int| sorted[k].1),
        Seq::new(sorted.len(), |k: int| sorted[k].0),
    );
    to_multiset_len(sorted);
    to_multiset_len(unsorted);
    assert(side_by_side(table.0, table.1) =~= sorted);
    assert forall|j: int, k: int| 0 <= j < k < sorted.len() implies !table_order(
        #[trigger] sorted[k],
        #[trigger] sorted[j],
    ) by {
        assert(leq(sorted[j], sorted[k]));
    }
    assert(is_table_of(table.0, table.1, base_frequencies(context)));
}

/// The base numbers of all rows, decoded from the beginning.
proof fn all_ids(context: PreEncodeContext)
    requires
        context.valid(),
        huffman_fits(context),
        huffman_encodes(context),
    ensures
        huffman_rows(context).ids(0, huffman_rows(context).num_samples) matches Some((ids, at))
            && ids == row_ids(context),
{
    let content = huffman_rows(context);
    let (symbols, lengths) = base_code_table(context);
    let ids = row_ids(context);
    huffman_rows_are_sound(context);
    codes_are_read_back(symbols, lengths, ids, 0, ids.len());
    assert(row_codes(context).take(0) =~= Seq::empty());
    assert(ids.subrange(0, ids.len() as int) =~= ids);
}

/// The deviation bits of a row stand in the slot of that row.
proof fn deviation_slot(context: PreEncodeContext, row: int)
    requires
        0 <= row < context.bit_data.data.num_rows,
    ensures
        slot(join(row_deviations(context)), deviation_width(context), row) == row_deviations(
            context,
        )[row],
        row_deviations(context)[row].len() == deviation_width(context),
{
    let deviations = row_deviations(context);
    assert forall|r: int| 0 <= r < deviations.len() implies (#[trigger] deviations[r]).len()
        == deviation_width(context) by {
        unmasked_len(context.bit_data.data.row(r), base_mask(context.layout@));
    }
    join_uniform(deviations, deviation_width(context));
    assert(deviations[row].len() == deviation_width(context));
}

/// The base number of a row is decoded from the start of its group.
proof fn id_is_kept(context: PreEncodeContext, row: int)
    requires
        context.valid(),
        huffman_fits(context),
        huffman_encodes(context),
        0 <= row < context.bit_data.data.num_rows,
    ensures
        huffman_rows(context).id_of(row) == Some(row_ids(context)[row]),
{
    let content = huffman_rows(context);
    let (symbols, lengths) = base_code_table(context);
    let (samples, count, width) = row_layout(context.bit_data.info@)->0;
    let ids = row_ids(context);
    huffman_rows_are_sound(context);
    layout_is_whole(context.bit_data.info@);
    if row < samples {
        let w = width as int;
        let group = row / w;
        let c = count as int;
        assert(0 <= group < c && group * w + row % w == row && 0 <= row % w) by (nonlinear_arith)
            requires
                group == row / w,
                0 <= row < c * w,
                w > 0,
        ;
        group_starts(group, c, c, w);
        assert(content.row_offsets[group] == code_offset(context, group * width));
        codes_are_read_back(symbols, lengths, ids, group * w, (row % w + 1) as nat);
        assert(ids.subrange(group * w, row + 1).last() == ids[row]);
    } else {
        codes_are_read_back(symbols, lengths, ids, samples as int, (row - samples + 1) as nat);
        assert(ids.subrange(samples as int, row + 1).last() == ids[row]);
    }
}

/// Rows with prefix codes hold what the plain encoding holds: all symbols in order, decoded from
/// the beginning.
pub proof fn huffman_is_lossless(context: PreEncodeContext)
    requires
        context.valid(),
        huffman_fits(context),
        huffman_encodes(context),
    ensures
        ({
            let content = huffman_rows(context);
            content.ids(0, content.num_samples) matches Some((ids, at)) && ids == row_ids(context)
                && (DeviationView {
                bits: join(content.rows(ids)),
                num_samples: content.num_samples,
                num_deviation_bits: content.num_deviation_bits,
                num_id_bits: content.num_id_bits,
            }) == encoded_rows(context)
        }),
{
    let content = huffman_rows(context);
    let ids = row_ids(context);
    all_ids(context);
    assert forall|row: int| 0 <= row < ids.len() implies #[trigger] content.rows(ids)[row]
        == row_symbols(context)[row] by {
        deviation_slot(context, row);
    }
    assert(content.rows(ids) =~= row_symbols(context));
}

/// The deviation bits of a row and the number of its base are what the plain encoding holds.
pub proof fn huffman_row(context: PreEncodeContext, row: int)
    requires
        context.valid(),
        huffman_fits(context),
        huffman_encodes(context),
        0 <= row < context.bit_data.data.num_rows,
    ensures
        huffman_rows(context).row_with(row, row_ids(context)[row]) == encoded_rows(context).sample(
            row,
        ),
{
    let content = huffman_rows(context);
    let ids = row_ids(context);
    let dw = deviation_width(context);
    deviation_slot(context, row);
    encoded_rows_random_access(context, row);
    let symbol = row_symbol(context, row);
    let kept = content.row_with(row, ids[row]);
    assert(symbol == row_deviations(context)[row] + low_digits(
        ids[row] as nat,
        id_width(context),
    ));
    assert(kept.deviation =~= split_symbol(symbol, dw).deviation);
    assert(kept.id =~= split_symbol(symbol, dw).id);
}

/// Every row with a prefix code can be read back by itself, as from the plain encoding.
pub proof fn huffman_random_access(context: PreEncodeContext, row: int)
    requires
        context.valid(),
        huffman_fits(context),
        huffman_encodes(context),
        0 <= row < context.bit_data.data.num_rows,
    ensures
        huffman_rows(context).sample(row) == Some(encoded_rows(context).sample(row)),
{
    id_is_kept(context, row);
    huffman_row(context, row);
}

/// The codes of a table by symbol.
fn build_huffman_code_map(
    canonical_symbols: &Vec<u64>,
    canonical_code_lengths: &Vec<u8>,
) -> (result: Result<FxHashMap<u64, (u32, u8)>, EntroGdError>)
    requires
        canonical_symbols@.len() == canonical_code_lengths@.len(),
        forall|j: int, k: int|
            0 <= j < k < canonical_symbols@.len() ==> #[trigger] canonical_symbols@[j]
                != #[trigger] canonical_symbols@[k],
    ensures
        result is Ok <==> canonical(canonical_symbols@, canonical_code_lengths@),
        result matches Ok(codes) ==> (forall|k: int|
            0 <= k < canonical_symbols@.len() ==> codes@.contains_key(
                #[trigger] canonical_symbols@[k],
            ) && codes@[canonical_symbols@[k]].0 == code_at(canonical_code_lengths@, k)
                && codes@[canonical_symbols@[k]].1 == canonical_code_lengths@[k]),
        result matches Err(error) ==> error is InvalidMetadata,
{
    let codes = match rebuild_huffman_codes(canonical_symbols, canonical_code_lengths) {
        Ok(codes) => codes,
        Err(error) => {
            return Err(error);
        },
    };
    let ghost symbols = canonical_symbols@;
    let ghost lengths = canonical_code_lengths@;
    let mut codes_by_symbol = no_codes();
    let mut i: usize = 0;
    while i < codes.len()
        invariant
            i <= codes@.len() == symbols.len(),
            forall|j: int, k: int|
                0 <= j < k < symbols.len() ==> #[trigger] symbols[j] != #[trigger] symbols[k],
            forall|k: int|
                0 <= k < codes@.len() ==> (#[trigger] codes@[k]).symbol == symbols[k]
                    && codes@[k].len == lengths[k] && codes@[k].code == code_at(lengths, k),
            forall|k: int|
                0 <= k < i ==> codes_by_symbol@.contains_key(#[trigger] symbols[k])
                    && codes_by_symbol@[symbols[k]].0 == code_at(lengths, k)
                    && codes_by_symbol@[symbols[k]].1 == lengths[k],
        decreases codes@.len() - i,
    {
        let code = codes[i];
        put_code(&mut codes_by_symbol, code.symbol, (code.code, code.len));
        i += 1;
    }
    Ok(codes_by_symbol)
}

/// Appends a code, the most significant bit first.
pub fn append_code_bits(out: &mut BitStream, code: u32, code_len: u8)
    requires
        code_len <= 32,
        old(out)@.len() + code_len <= MAX_STREAM_BITS,
    ensures
        final(out)@ == old(out)@ + high_digits_first(code as nat, code_len as nat),
{
    out.append_high_first(code as u64, code_len as usize);
}

/// The rows of a context with their base numbers in prefix codes.
pub fn encode_data_huffman(input: &PreEncodeContext) -> (result: Result<
    HuffmanDeviationData,
    EntroGdError,
>)
    requires
        input.valid(),
        huffman_fits(*input),
    ensures
        result is Ok <==> huffman_encodes(*input),
        result matches Ok(data) ==> data@ == huffman_rows(*input) && data.valid(),
        result matches Err(error) ==> error is InvalidMetadata,
{
    let (num_deviation_bits, l_id, deviation_ranges) = derive_symbol_layout(input);
    let ghost bases = base_frequencies(*input);
    let mut frequencies: Vec<SymbolFrequency> = Vec::new();
    let mut id: usize = 0;
    while id < input.variable_base_table.len()
        invariant
            id <= input.variable_base_table@.len() == bases.len(),
            bases == base_frequencies(*input),
            frequencies@ == bases.take(id as int),
        decreases input.variable_base_table@.len() - id,
    {
        let frequency: usize = input.variable_base_table[id].1;
        frequencies.push(SymbolFrequency { symbol: id as u64, frequency });
        assert(bases.take(id as int + 1) =~= bases.take(id as int).push(bases[id as int]));
        id += 1;
    }
    proof {
        assert(frequencies@ =~= bases);
        ascending_symbols_stay(bases);
    }
    let (canonical_symbols, canonical_code_lengths) = match build_canonical_huffman_table(
        &frequencies,
    ) {
        Ok(table) => table,
        Err(error) => {
            return Err(error);
        },
    };
    let ghost symbols = canonical_symbols@;
    let ghost lengths = canonical_code_lengths@;
    proof {
        assert(is_table_of(symbols, lengths, bases));
        table_is_unique((symbols, lengths), base_code_table(*input), bases);
        entries_are_distinct(symbols, lengths, *input);
    }
    let codes_by_symbol = match build_huffman_code_map(
        &canonical_symbols,
        &canonical_code_lengths,
    ) {
        Ok(codes) => codes,
        Err(error) => {
            return Err(error);
        },
    };
    let (original_num_samples, row_count, row_width) = match huffman_row_layout(
        &input.bit_data.info,
    ) {
        Ok(layout) => layout,
        Err(error) => {
            return Err(error);
        },
    };
    let num_rows: usize = input.bit_data.num_rows();
    let ghost codes = row_codes(*input);
    let ghost deviations = row_deviations(*input);
    let mut pixel_bit_stream = BitStream::empty();
    let mut raw_deviation_bit_stream = BitStream::empty();
    let mut row_offsets: Vec<u32> = Vec::new();
    let mut next_start: usize = 0;
    proof {
        assert(codes.take(0) =~= Seq::empty());
        assert(deviations.take(0) =~= Seq::empty());
        assert forall|row: int| 0 <= row < deviations.len() implies (#[trigger] deviations[row]).len()
            == num_deviation_bits by {
            unmasked_len(input.bit_data.data.row(row), base_mask(input.layout@));
        }
        assert(0 * row_width == 0);
    }
    let mut sample_idx: usize = 0;
    while sample_idx < num_rows
        invariant
            input.valid(),
            huffman_fits(*input),
            num_rows == input.bit_data.data.num_rows,
            sample_idx <= num_rows,
            num_deviation_bits == deviation_width(*input),
            are_clear_runs(deviation_ranges@, base_mask(input.layout@), input.layout@.len() as int),
            symbols == canonical_symbols@,
            lengths == canonical_code_lengths@,
            (symbols, lengths) == base_code_table(*input),
            is_table_of(symbols, lengths, base_frequencies(*input)),
            canonical(symbols, lengths),
            forall|k: int|
                0 <= k < symbols.len() ==> codes_by_symbol@.contains_key(#[trigger] symbols[k])
                    && codes_by_symbol@[symbols[k]].0 == code_at(lengths, k)
                    && codes_by_symbol@[symbols[k]].1 == lengths[k],
            codes == row_codes(*input),
            deviations == row_deviations(*input),
            forall|row: int|
                0 <= row < deviations.len() ==> (#[trigger] deviations[row]).len()
                    == num_deviation_bits,
            pixel_bit_stream@ == join(codes.take(sample_idx as int)),
            raw_deviation_bit_stream@ == join(deviations.take(sample_idx as int)),
            row_layout(input.bit_data.info@) == Some(
                (original_num_samples as nat, row_count as nat, row_width as nat),
            ),
            original_num_samples == row_count * row_width,
            row_offsets@.len() <= row_count,
            next_start == row_offsets@.len() * row_width <= original_num_samples,
            row_offsets@.len() < row_count ==> sample_idx <= next_start,
            row_offsets@.len() > 0 ==> (row_offsets@.len() - 1) * row_width < sample_idx,
            forall|g: int|
                0 <= g < row_offsets@.len() ==> #[trigger] row_offsets@[g] == code_offset(
                    *input,
                    g * row_width,
                ),
        decreases num_rows - sample_idx,
    {
        let ghost row = sample_idx as int;
        proof {
            let g = row_offsets@.len() as int;
            let w = row_width as int;
            let c = row_count as int;
            if g < c {
                assert(g * w < c * w) by (nonlinear_arith)
                    requires
                        g < c,
                        w > 0,
                ;
            }
        }
        if sample_idx < original_num_samples && sample_idx == next_start {
            let offset: usize = pixel_bit_stream.bit_len();
            let ghost group = row_offsets@.len() as int;
            proof {
                let w = row_width as int;
                let c = row_count as int;
                assert(group < c && (group + 1) * w == group * w + w && (group + 1) * w <= c * w)
                    by (nonlinear_arith)
                    requires
                        0 <= group,
                        0 <= w,
                        group * w < c * w,
                ;
                assert(w > 0) by (nonlinear_arith)
                    requires
                        group * w < c * w,
                        0 <= w,
                ;
            }
            if offset > u32::MAX as usize {
                proof {
                    let (samples, count, width) = row_layout(input.bit_data.info@)->0;
                    assert(code_offset(*input, group * width) > u32::MAX);
                    assert(0 <= group < count);
                    assert(!huffman_encodes(*input));
                }
                return Err(
                    bad_metadata("Huffman row offset does not fit into u32; the input is too large"),
                );
            }
            row_offsets.push(offset as u32);
            next_start = next_start + row_width;
        }
        proof {
            assert(deviations.take(row + 1) =~= deviations.take(row).push(deviations[row]));
            join_push(deviations.take(row), deviations[row]);
            assert forall|t: int| 0 <= t < row implies (#[trigger] deviations.take(row)[t]).len()
                == num_deviation_bits by {
                assert(deviations[t].len() == num_deviation_bits);
            }
            join_uniform(deviations.take(row), num_deviation_bits as nat);
            slot_in_bounds(row, num_rows as int, num_deviation_bits as int);
        }
        append_deviation_bits(
            &mut raw_deviation_bit_stream,
            input,
            sample_idx,
            &deviation_ranges,
        );
        let symbol: u64 = input.row_to_base_id[sample_idx] as u64;
        proof {
            every_base_has_entry(symbols, lengths, *input, symbol as int);
            let k = entry_of(symbols, symbol);
            assert(symbols[k] == symbol);
            assert(1 <= lengths[k] <= 24);
            assert(row_ids(*input)[row] == symbol);
            assert(codes[row] == high_digits_first(code_at(lengths, k), lengths[k] as nat));
            assert(codes.take(row + 1) =~= codes.take(row).push(codes[row]));
            join_push(codes.take(row), codes[row]);
            join_take_bound(codes, row + 1, row + 1);
        }
        match get_code(&codes_by_symbol, symbol) {
            Some((code, code_len)) => {
                append_code_bits(&mut pixel_bit_stream, code, code_len);
            },
            None => {
                return Err(
                    EntroGdError::InvalidMetadata {
                        message: numbered("missing Huffman code for base-id symbol ", symbol as usize),
                    },
                );
            },
        }
        sample_idx += 1;
    }
    proof {
        assert(codes.take(num_rows as int) =~= codes);
        assert(deviations.take(num_rows as int) =~= deviations);
        join_uniform(deviations, num_deviation_bits as nat);
        if original_num_samples <= num_rows {
            let g = row_offsets@.len() as int;
            let w = row_width as int;
            let c = row_count as int;
            if g < c {
                assert(g * w < c * w) by (nonlinear_arith)
                    requires
                        g < c,
                        w > 0,
                ;
            }
            assert forall|group: int| 0 <= group < row_count implies #[trigger] code_offset(
                *input,
                group * row_width,
            ) <= u32::MAX by {
                assert(row_offsets@[group] == code_offset(*input, group * row_width));
            }
            assert(huffman_encodes(*input));
            huffman_rows_are_sound(*input);
            assert(row_offsets@ =~= huffman_rows(*input).row_offsets);
        }
    }
    HuffmanDeviationData::new(
        pixel_bit_stream,
        raw_deviation_bit_stream,
        canonical_symbols,
        canonical_code_lengths,
        row_offsets,
        num_rows,
        original_num_samples,
        num_deviation_bits,
        l_id,
        row_width,
    )
}

} // verus!
