//! How a base table is written.
use vstd::arithmetic::power2::{lemma2_to64, lemma_pow2_strictly_increases, pow2};
use vstd::prelude::*;

use crate::base_table::table_view;
use crate::bits::{BitStream, MAX_STREAM_BITS};
use crate::bytes::{
    append_le, append_numbers, append_packed, byte_len, concat, concat_push, le_bytes,
    le_round_trip, le_value, list_len, number_parts, numbers_are_found, numbers_at, packed, read_le,
    read_numbers, read_packed, record, record_in_bounds, records_are_found, unpack_packed, unpacked,
};
use crate::encoding::compressed::{BaseTable, TableView};
use crate::encoding::delta_table::{order_in_range, DeltaBaseTableData, DeltaView};
use crate::error::{bad_metadata, EntroGdError};
use crate::file_format::tags::{
    BASE_TABLE_TAG_DELTA_FIXED, BASE_TABLE_TAG_DELTA_UNARY, BASE_TABLE_TAG_RAW,
};
use crate::numbers::fitted;
use crate::text::{numbered, two_numbers};
use crate::utils::{bits_needed, bits_needed_is_least, bits_needed_nonzero};

verus! {

/// The bytes that the number of one of `count` things takes.
pub open spec fn index_size(count: nat) -> nat {
    byte_len(bits_needed(count))
}

/// Base rows as bytes, each one for itself.
pub open spec fn row_parts(rows: Seq<(Seq<bool>, usize)>, width: nat) -> Seq<Seq<u8>> {
    Seq::new(rows.len(), |i: int| packed(fitted(rows[i].0, width)))
}

/// The key of the first base, if there is one.
pub open spec fn key_bytes(delta: DeltaView, width: nat) -> Seq<u8> {
    if delta.num_bases > 0 {
        packed(fitted(delta.first_sort_key, width))
    } else {
        Seq::empty()
    }
}

/// A base table of rows of one width as bytes.
pub open spec fn table_bytes(table: TableView, width: nat) -> Seq<u8> {
    match table {
        TableView::Raw(rows) => seq![BASE_TABLE_TAG_RAW] + le_bytes(rows.len(), 8) + concat(
            row_parts(rows, width),
        ),
        TableView::Delta(delta) => seq![delta.codec_id] + le_bytes(delta.num_bases, 8) + le_bytes(
            delta.order.len(),
            8,
        ) + concat(number_parts(delta.order, index_size(width))) + key_bytes(delta, width)
            + le_bytes(delta.delta_count, 8) + le_bytes(delta.steps.len(), 8) + packed(delta.steps),
    }
}

/// The number of eight bytes at a position that fits a machine word, and where it ends.
pub open spec fn read_size(bytes: Seq<u8>, position: int) -> Option<(nat, int)> {
    if position + 8 <= bytes.len() && le_value(bytes.subrange(position, position + 8))
        <= usize::MAX {
        Some((le_value(bytes.subrange(position, position + 8)), position + 8))
    } else {
        None
    }
}

/// Bits of a known number at a position, and where they end.
pub open spec fn read_bits(bytes: Seq<u8>, position: int, bit_len: nat) -> Option<(Seq<bool>, int)> {
    let end = position + byte_len(bit_len);
    if end <= bytes.len() {
        Some((unpacked(bytes.subrange(position, end), bit_len), end))
    } else {
        None
    }
}

/// The base rows at a position, and where they end.
pub open spec fn read_rows(bytes: Seq<u8>, position: int, count: nat, width: nat) -> Option<
    (Seq<(Seq<bool>, usize)>, int),
> {
    let size = byte_len(width);
    let end = position + count * size;
    if end <= bytes.len() {
        Some(
            (
                Seq::new(
                    count,
                    |i: int| (unpacked(record(bytes, position, size, i), width), 0usize),
                ),
                end,
            ),
        )
    } else {
        None
    }
}

/// The order of columns at a position, and where it ends.
pub open spec fn read_order(bytes: Seq<u8>, position: int, width: nat) -> Option<(Seq<usize>, int)> {
    match read_size(bytes, position) {
        Some((count, at)) => {
            let size = index_size(width);
            let numbers = numbers_at(bytes, at, count, size);
            let end = at + count * size;
            if end <= bytes.len() && (forall|i: int|
                0 <= i < count ==> #[trigger] numbers[i] < width) {
                Some((Seq::new(count, |i: int| numbers[i] as usize), end))
            } else {
                None
            }
        },
        None => None,
    }
}

/// The differences at a position, and where they end.
pub open spec fn read_steps(bytes: Seq<u8>, position: int) -> Option<((nat, Seq<bool>), int)> {
    match read_size(bytes, position) {
        Some((delta_count, at)) => match read_size(bytes, at) {
            Some((bit_len, next)) => match read_bits(bytes, next, bit_len) {
                Some((steps, end)) => Some(((delta_count, steps), end)),
                None => None,
            },
            None => None,
        },
        None => None,
    }
}

/// The base table at a position as differences, where its tag and number are known.
pub open spec fn read_delta_table(
    bytes: Seq<u8>,
    position: int,
    codec_id: u8,
    num_bases: nat,
    width: nat,
) -> Option<(DeltaView, int)> {
    match read_order(bytes, position, width) {
        Some((order, at)) => match read_bits(
            bytes,
            at,
            if num_bases > 0 {
                width
            } else {
                0
            },
        ) {
            Some((first_sort_key, next)) => match read_steps(bytes, next) {
                Some(((delta_count, steps), end)) => Some(
                    (
                        DeltaView { num_bases, first_sort_key, steps, delta_count, order, codec_id },
                        end,
                    ),
                ),
                None => None,
            },
            None => None,
        },
        None => None,
    }
}

/// The base table at a position, and where it ends. How often a base occurs is not written.
pub open spec fn read_table(bytes: Seq<u8>, position: int, width: nat) -> Option<(TableView, int)> {
    if position >= bytes.len() {
        None
    } else {
        let tag = bytes[position];
        match read_size(bytes, position + 1) {
            Some((num_bases, at)) => if tag == BASE_TABLE_TAG_RAW {
                match read_rows(bytes, at, num_bases, width) {
                    Some((rows, end)) => Some((TableView::Raw(rows), end)),
                    None => None,
                }
            } else if tag == BASE_TABLE_TAG_DELTA_UNARY || tag == BASE_TABLE_TAG_DELTA_FIXED {
                match read_delta_table(bytes, at, tag, num_bases, width) {
                    Some((delta, end)) => Some((TableView::Delta(delta), end)),
                    None => None,
                }
            } else {
                None
            },
            None => None,
        }
    }
}

/// Whether a base table can be written and found again: the order names columns that exist, and
/// sizes are machine words.
pub open spec fn table_storable(table: TableView, width: nat) -> bool {
    match table {
        TableView::Raw(rows) => rows.len() <= usize::MAX,
        TableView::Delta(delta) => {
            &&& delta.codec_id == BASE_TABLE_TAG_DELTA_UNARY || delta.codec_id
                == BASE_TABLE_TAG_DELTA_FIXED
            &&& delta.num_bases <= usize::MAX
            &&& delta.order.len() <= usize::MAX
            &&& order_in_range(delta.order, width)
            &&& delta.num_bases > 0 ==> delta.first_sort_key.len() == width
            &&& delta.num_bases == 0 ==> delta.first_sort_key.len() == 0
            &&& delta.delta_count <= usize::MAX
            &&& delta.steps.len() <= usize::MAX
        },
    }
}

/// What is found again of a base table: all but how often the bases occur.
pub open spec fn stored_table(table: TableView, width: nat) -> TableView {
    match table {
        TableView::Raw(rows) => TableView::Raw(
            Seq::new(rows.len(), |i: int| (fitted(rows[i].0, width), 0usize)),
        ),
        TableView::Delta(delta) => table,
    }
}

/// A machine word is found again from its bytes.
pub proof fn size_is_found(before: Seq<u8>, value: nat, after: Seq<u8>)
    requires
        value <= usize::MAX,
    ensures
        read_size(before + le_bytes(value, 8) + after, before.len() as int) == Some(
            (value, (before.len() + 8) as int),
        ),
        le_bytes(value, 8).len() == 8,
{
    let bytes = before + le_bytes(value, 8) + after;
    lemma2_to64();
    le_round_trip(value, 8);
    assert(bytes.subrange(before.len() as int, before.len() as int + 8) =~= le_bytes(value, 8));
}

/// Bits are found again from their bytes.
pub proof fn bits_are_found(before: Seq<u8>, bits: Seq<bool>, after: Seq<u8>)
    ensures
        read_bits(before + packed(bits) + after, before.len() as int, bits.len()) == Some(
            (bits, (before.len() + packed(bits).len()) as int),
        ),
{
    let bytes = before + packed(bits) + after;
    let end = before.len() + byte_len(bits.len());
    assert(bytes.subrange(before.len() as int, end as int) =~= packed(bits));
    unpack_packed(bits);
}

/// Base rows are found again from their bytes.
proof fn rows_are_found(before: Seq<u8>, rows: Seq<(Seq<bool>, usize)>, width: nat, after: Seq<u8>)
    ensures
        read_rows(
            before + concat(row_parts(rows, width)) + after,
            before.len() as int,
            rows.len(),
            width,
        ) == Some(
            (
                Seq::new(rows.len(), |i: int| (fitted(rows[i].0, width), 0usize)),
                (before.len() + concat(row_parts(rows, width)).len()) as int,
            ),
        ),
{
    let parts = row_parts(rows, width);
    let bytes = before + concat(parts) + after;
    let size = byte_len(width);
    records_are_found(before, parts, size, after);
    let expected = Seq::new(rows.len(), |i: int| (fitted(rows[i].0, width), 0usize));
    let found = (read_rows(bytes, before.len() as int, rows.len(), width)->0).0;
    assert forall|i: int| 0 <= i < rows.len() implies #[trigger] found[i] == expected[i] by {
        assert(record(bytes, before.len() as int, size, i) == parts[i]);
        unpack_packed(fitted(rows[i].0, width));
    }
    assert(found =~= expected);
}

/// The number of one of `count` things can be written in the bytes it is given.
pub proof fn index_fits(count: nat, value: nat)
    requires
        value < count,
    ensures
        value < pow2(8 * index_size(count)),
{
    bits_needed_is_least(count);
    let bits = bits_needed(count);
    if bits < 8 * index_size(count) {
        lemma_pow2_strictly_increases(bits, 8 * index_size(count));
    }
}

/// The order of columns is found again from its bytes.
proof fn order_is_found(before: Seq<u8>, order: Seq<usize>, width: nat, after: Seq<u8>)
    requires
        order.len() <= usize::MAX,
        order_in_range(order, width),
    ensures
        ({
            let written = le_bytes(order.len(), 8) + concat(number_parts(order, index_size(width)));
            read_order(before + written + after, before.len() as int, width) == Some(
                (order, (before.len() + written.len()) as int),
            )
        }),
{
    let size = index_size(width);
    let head = le_bytes(order.len(), 8);
    let list = concat(number_parts(order, size));
    let bytes = before + (head + list) + after;
    assert(bytes =~= before + head + (list + after));
    size_is_found(before, order.len(), list + after);
    assert forall|i: int| 0 <= i < order.len() implies #[trigger] order[i] < pow2(8 * size) by {
        index_fits(width, order[i] as nat);
    }
    numbers_are_found(before + head, order, size, after);
    assert(bytes =~= (before + head) + list + after);
    let numbers = numbers_at(bytes, (before.len() + 8) as int, order.len(), size);
    assert forall|i: int| 0 <= i < order.len() implies #[trigger] numbers[i] < width by {
        assert(order[i] < width);
    }
    assert(Seq::new(order.len(), |i: int| numbers[i] as usize) =~= order);
}

/// The differences are found again from their bytes.
proof fn steps_are_found(before: Seq<u8>, delta_count: nat, steps: Seq<bool>, after: Seq<u8>)
    requires
        delta_count <= usize::MAX,
        steps.len() <= usize::MAX,
    ensures
        ({
            let written = le_bytes(delta_count, 8) + le_bytes(steps.len(), 8) + packed(steps);
            read_steps(before + written + after, before.len() as int) == Some(
                ((delta_count, steps), (before.len() + written.len()) as int),
            )
        }),
{
    let count = le_bytes(delta_count, 8);
    let len = le_bytes(steps.len(), 8);
    let body = packed(steps);
    let bytes = before + (count + len + body) + after;
    assert(bytes =~= before + count + (len + body + after));
    size_is_found(before, delta_count, len + body + after);
    assert(bytes =~= (before + count) + len + (body + after));
    size_is_found(before + count, steps.len(), body + after);
    assert(bytes =~= (before + count + len) + body + after);
    bits_are_found(before + count + len, steps, after);
}

/// A base table as differences is found again from its bytes.
proof fn delta_table_is_found(before: Seq<u8>, delta: DeltaView, width: nat, after: Seq<u8>)
    requires
        table_storable(TableView::Delta(delta), width),
    ensures
        ({
            let written = le_bytes(delta.order.len(), 8) + concat(
                number_parts(delta.order, index_size(width)),
            ) + key_bytes(delta, width) + le_bytes(delta.delta_count, 8) + le_bytes(
                delta.steps.len(),
                8,
            ) + packed(delta.steps);
            read_delta_table(
                before + written + after,
                before.len() as int,
                delta.codec_id,
                delta.num_bases,
                width,
            ) == Some((delta, (before.len() + written.len()) as int))
        }),
{
    let order = le_bytes(delta.order.len(), 8) + concat(
        number_parts(delta.order, index_size(width)),
    );
    let key = key_bytes(delta, width);
    let steps = le_bytes(delta.delta_count, 8) + le_bytes(delta.steps.len(), 8) + packed(
        delta.steps,
    );
    let written = le_bytes(delta.order.len(), 8) + concat(
        number_parts(delta.order, index_size(width)),
    ) + key + le_bytes(delta.delta_count, 8) + le_bytes(delta.steps.len(), 8) + packed(delta.steps);
    let bytes = before + written + after;
    assert(bytes =~= before + order + (key + steps + after));
    order_is_found(before, delta.order, width, key + steps + after);
    assert(bytes =~= (before + order) + key + (steps + after));
    let bits = if delta.num_bases > 0 {
        fitted(delta.first_sort_key, width)
    } else {
        Seq::empty()
    };
    assert(bits =~= delta.first_sort_key);
    assert(key =~= packed(bits));
    bits_are_found(before + order, bits, steps + after);
    assert(bytes =~= (before + order + key) + steps + after);
    steps_are_found(before + order + key, delta.delta_count, delta.steps, after);
}

/// A base table row by row is found again from its bytes.
proof fn raw_table_is_found(
    before: Seq<u8>,
    rows: Seq<(Seq<bool>, usize)>,
    width: nat,
    after: Seq<u8>,
)
    requires
        rows.len() <= usize::MAX,
    ensures
        ({
            let table = TableView::Raw(rows);
            read_table(before + table_bytes(table, width) + after, before.len() as int, width)
                == Some(
                (
                    stored_table(table, width),
                    (before.len() + table_bytes(table, width).len()) as int,
                ),
            )
        }),
{
    let tag = seq![BASE_TABLE_TAG_RAW];
    let count = le_bytes(rows.len(), 8);
    let list = concat(row_parts(rows, width));
    let bytes = before + (tag + count + list) + after;
    assert(bytes =~= (before + tag) + count + (list + after));
    size_is_found(before + tag, rows.len(), list + after);
    assert(bytes =~= (before + tag + count) + list + after);
    rows_are_found(before + tag + count, rows, width, after);
    assert(bytes[before.len() as int] == BASE_TABLE_TAG_RAW);
}

/// A tagged base table as differences is found again from its bytes.
#[verifier::spinoff_prover]
proof fn tagged_delta_table_is_found(
    before: Seq<u8>,
    delta: DeltaView,
    width: nat,
    after: Seq<u8>,
)
    requires
        table_storable(TableView::Delta(delta), width),
    ensures
        ({
            let table = TableView::Delta(delta);
            read_table(before + table_bytes(table, width) + after, before.len() as int, width)
                == Some((table, (before.len() + table_bytes(table, width).len()) as int))
        }),
{
    let tag = seq![delta.codec_id];
    let count = le_bytes(delta.num_bases, 8);
    let rest = le_bytes(delta.order.len(), 8) + concat(
        number_parts(delta.order, index_size(width)),
    ) + key_bytes(delta, width) + le_bytes(delta.delta_count, 8) + le_bytes(delta.steps.len(), 8)
        + packed(delta.steps);
    let written = table_bytes(TableView::Delta(delta), width);
    assert(written =~= tag + count + rest);
    let bytes = before + written + after;
    assert(bytes =~= (before + tag) + count + (rest + after));
    size_is_found(before + tag, delta.num_bases, rest + after);
    let all = (before + tag + count) + rest + after;
    assert(bytes =~= all);
    delta_table_is_found(before + tag + count, delta, width, after);
    assert(bytes[before.len() as int] == delta.codec_id);
    tagged_read(bytes, before.len() as int, delta, width, (before.len() + written.len()) as int);
}

/// What is read of a base table as differences, once its tag and number are read.
proof fn tagged_read(bytes: Seq<u8>, position: int, delta: DeltaView, width: nat, end: int)
    requires
        0 <= position < bytes.len(),
        bytes[position] == delta.codec_id,
        delta.codec_id == BASE_TABLE_TAG_DELTA_UNARY || delta.codec_id == BASE_TABLE_TAG_DELTA_FIXED,
        read_size(bytes, position + 1) == Some((delta.num_bases, position + 9)),
        read_delta_table(bytes, position + 9, delta.codec_id, delta.num_bases, width) == Some(
            (delta, end),
        ),
    ensures
        read_table(bytes, position, width) == Some((TableView::Delta(delta), end)),
{
}

/// A base table is found again from its bytes, but for how often its bases occur.
pub proof fn table_is_found_again(before: Seq<u8>, table: TableView, width: nat, after: Seq<u8>)
    requires
        table_storable(table, width),
    ensures
        read_table(before + table_bytes(table, width) + after, before.len() as int, width) == Some(
            (stored_table(table, width), (before.len() + table_bytes(table, width).len()) as int),
        ),
{
    match table {
        TableView::Raw(rows) => {
            raw_table_is_found(before, rows, width, after);
        },
        TableView::Delta(delta) => {
            tagged_delta_table_is_found(before, delta, width, after);
        },
    }
}

/// Appends base rows.
fn append_rows(out: &mut Vec<u8>, rows: &Vec<(BitStream, usize)>, width: usize)
    requires
        width <= MAX_STREAM_BITS,
    ensures
        final(out)@ == old(out)@ + concat(row_parts(table_view(rows@), width as nat)),
{
    let ghost start = out@;
    let ghost parts = row_parts(table_view(rows@), width as nat);
    let mut i: usize = 0;
    proof {
        assert(parts.take(0) =~= Seq::empty());
    }
    while i < rows.len()
        invariant
            i <= rows@.len(),
            width <= MAX_STREAM_BITS,
            parts == row_parts(table_view(rows@), width as nat),
            out@ == start + concat(parts.take(i as int)),
        decreases rows@.len() - i,
    {
        append_packed(out, &rows[i].0, width);
        proof {
            assert(parts[i as int] == packed(fitted(rows@[i as int].0@, width as nat)));
            assert(parts.take(i as int + 1) =~= parts.take(i as int).push(parts[i as int]));
            concat_push(parts.take(i as int), parts[i as int]);
            assert(out@ =~= start + concat(parts.take(i as int + 1)));
        }
        i += 1;
    }
    assert(parts.take(i as int) =~= parts);
}

/// The bytes that the number of one of `count` things takes.
pub fn index_bytes(count: usize) -> (size: usize)
    ensures
        size == index_size(count as nat),
        1 <= size <= 8,
{
    (bits_needed_nonzero(count) + 7) / 8
}

/// Appends a base table of rows of one width, unless its order names a column that is not there.
pub fn append_table(out: &mut Vec<u8>, table: &BaseTable, width: usize) -> (result: Result<
    (),
    EntroGdError,
>)
    requires
        width <= MAX_STREAM_BITS,
    ensures
        result is Ok <==> (table@ matches TableView::Delta(delta) ==> order_in_range(
            delta.order,
            width as nat,
        )),
        result is Ok ==> final(out)@ == old(out)@ + table_bytes(table@, width as nat),
        result matches Err(error) ==> error is InvalidMetadata,
{
    let ghost start = out@;
    match table {
        BaseTable::Raw(rows) => {
            out.push(BASE_TABLE_TAG_RAW);
            append_le(out, rows.len() as u64, 8);
            append_rows(out, rows, width);
            assert(table_view(rows@).len() == rows@.len());
            assert(out@ =~= start + table_bytes(table@, width as nat));
            Ok(())
        },
        BaseTable::Delta(delta) => {
            let mut i: usize = 0;
            while i < delta.sort_column_order.len()
                invariant
                    i <= delta.sort_column_order@.len(),
                    table@ == TableView::Delta(delta@),
                    forall|k: int| 0 <= k < i ==> #[trigger] delta.sort_column_order@[k] < width,
                decreases delta.sort_column_order@.len() - i,
            {
                if delta.sort_column_order[i] >= width {
                    assert(!(delta@.order[i as int] < width));
                    return Err(
                        EntroGdError::InvalidMetadata {
                            message: two_numbers(
                                "delta sort column index ",
                                delta.sort_column_order[i],
                                " out of range ",
                                width,
                            ),
                        },
                    );
                }
                i += 1;
            }
            out.push(delta.codec_id);
            append_le(out, delta.num_bases as u64, 8);
            append_le(out, delta.sort_column_order.len() as u64, 8);
            append_numbers(out, &delta.sort_column_order, index_bytes(width));
            if delta.num_bases > 0 {
                append_packed(out, &delta.first_sort_key, width);
            }
            append_le(out, delta.delta_count as u64, 8);
            let bit_len: usize = delta.delta_bit_stream.bit_len();
            append_le(out, bit_len as u64, 8);
            append_packed(out, &delta.delta_bit_stream, bit_len);
            proof {
                assert(fitted(delta@.steps, bit_len as nat) =~= delta@.steps);
                assert(out@ =~= start + table_bytes(table@, width as nat));
            }
            Ok(())
        },
    }
}

/// Reads the machine word at a position.
pub fn read_size_at(bytes: &Vec<u8>, position: usize) -> (result: Result<
    (usize, usize),
    EntroGdError,
>)
    requires
        position <= bytes@.len(),
    ensures
        match read_size(bytes@, position as int) {
            Some((value, end)) => result is Ok && (result->Ok_0).0 == value && (result->Ok_0).1
                == end && end <= bytes@.len(),
            None => result matches Err(error) && error is InvalidMetadata,
        },
{
    if bytes.len() - position < 8 {
        return Err(bad_metadata("unexpected end of EGD while reading a size"));
    }
    let value: u64 = read_le(bytes, position, 8);
    if value > usize::MAX as u64 {
        return Err(bad_metadata("a size in the EGD does not fit into usize"));
    }
    Ok((value as usize, position + 8))
}

/// Reads bits of a known number at a position.
pub fn read_bits_at(bytes: &Vec<u8>, position: usize, bit_len: usize) -> (result: Result<
    (BitStream, usize),
    EntroGdError,
>)
    requires
        position <= bytes@.len(),
        8 * bytes@.len() <= MAX_STREAM_BITS,
    ensures
        match read_bits(bytes@, position as int, bit_len as nat) {
            Some((bits, end)) => result is Ok && (result->Ok_0).0@ == bits && (result->Ok_0).1
                == end && position <= end <= bytes@.len(),
            None => result matches Err(error) && error is InvalidMetadata,
        },
{
    let size: usize = if bit_len % 8 == 0 {
        bit_len / 8
    } else {
        bit_len / 8 + 1
    };
    if bytes.len() - position < size {
        return Err(bad_metadata("unexpected end of EGD while reading a bitstream"));
    }
    Ok((read_packed(bytes, position, bit_len), position + size))
}

/// Reads base rows at a position.
fn read_rows_at(bytes: &Vec<u8>, position: usize, count: usize, width: usize) -> (result: Result<
    (Vec<(BitStream, usize)>, usize),
    EntroGdError,
>)
    requires
        position <= bytes@.len(),
        8 * bytes@.len() <= MAX_STREAM_BITS,
        width <= MAX_STREAM_BITS,
    ensures
        match read_rows(bytes@, position as int, count as nat, width as nat) {
            Some((rows, end)) => result is Ok && table_view((result->Ok_0).0@) == rows && (
            result->Ok_0).1 == end && position <= end <= bytes@.len(),
            None => result matches Err(error) && error is InvalidMetadata,
        },
{
    let total: usize = bytes.len();
    let size: usize = (width + 7) / 8;
    let needed: usize = match list_len(count, size) {
        Some(needed) => needed,
        None => {
            return Err(bad_metadata("unexpected end of EGD while reading base table"));
        },
    };
    if total - position < needed {
        return Err(bad_metadata("unexpected end of EGD while reading base table"));
    }
    let ghost expected = (read_rows(bytes@, position as int, count as nat, width as nat)->0).0;
    let mut rows: Vec<(BitStream, usize)> = Vec::new();
    let mut at: usize = position;
    let mut i: usize = 0;
    proof {
        assert(table_view(rows@) =~= expected.take(0));
    }
    while i < count
        invariant
            i <= count,
            size == byte_len(width as nat),
            width <= MAX_STREAM_BITS,
            position + count * size <= bytes@.len() == total,
            at == position + i * size,
            expected == (read_rows(bytes@, position as int, count as nat, width as nat)->0).0,
            rows@.len() == i,
            table_view(rows@) == expected.take(i as int),
        decreases count - i,
    {
        proof {
            record_in_bounds(count as int, size as nat, i as int);
            assert((i + 1) * size == i * size + size) by (nonlinear_arith);
        }
        let ghost before = rows@;
        rows.push((read_packed(bytes, at, width), 0));
        proof {
            assert(record(bytes@, position as int, size as nat, i as int) == bytes@.subrange(
                at as int,
                at + size,
            ));
            assert(expected[i as int] == (rows@[i as int].0@, 0usize));
            assert(table_view(rows@) =~= table_view(before).push(expected[i as int]));
            assert(expected.take(i as int + 1) =~= expected.take(i as int).push(
                expected[i as int],
            ));
        }
        at = at + size;
        i += 1;
    }
    assert(expected.take(i as int) =~= expected);
    Ok((rows, at))
}

/// Reads the order of columns at a position.
fn read_order_at(bytes: &Vec<u8>, position: usize, width: usize) -> (result: Result<
    (Vec<usize>, usize),
    EntroGdError,
>)
    requires
        position <= bytes@.len(),
    ensures
        match read_order(bytes@, position as int, width as nat) {
            Some((order, end)) => result is Ok && (result->Ok_0).0@ == order && (result->Ok_0).1
                == end && position <= end <= bytes@.len(),
            None => result matches Err(error) && error is InvalidMetadata,
        },
{
    let total: usize = bytes.len();
    let (count, at) = match read_size_at(bytes, position) {
        Ok(found) => found,
        Err(error) => {
            return Err(error);
        },
    };
    let size: usize = index_bytes(width);
    let needed: usize = match list_len(count, size) {
        Some(needed) => needed,
        None => {
            return Err(bad_metadata("unexpected end of EGD while reading delta order"));
        },
    };
    if total - at < needed {
        return Err(bad_metadata("unexpected end of EGD while reading delta order"));
    }
    let ghost numbers = numbers_at(bytes@, at as int, count as nat, size as nat);
    let values = read_numbers(bytes, at, count, size);
    let mut order: Vec<usize> = Vec::new();
    let mut i: usize = 0;
    while i < count
        invariant
            i <= count == values@.len() == numbers.len(),
            numbers == numbers_at(bytes@, at as int, count as nat, size as nat),
            read_size(bytes@, position as int) == Some((count as nat, at as int)),
            size == index_size(width as nat),
            forall|k: int| 0 <= k < count ==> #[trigger] values@[k] == numbers[k],
            order@.len() == i,
            forall|k: int|
                0 <= k < i ==> #[trigger] numbers[k] < width && order@[k] == numbers[k] as usize,
        decreases count - i,
    {
        let value: u64 = values[i];
        if value >= width as u64 {
            assert(!(numbers[i as int] < width));
            return Err(
                EntroGdError::InvalidMetadata {
                    message: numbered("delta sort column index out of range ", width),
                },
            );
        }
        order.push(value as usize);
        i += 1;
    }
    assert(order@ =~= Seq::new(count as nat, |k: int| numbers[k] as usize));
    Ok((order, at + needed))
}

/// Reads a base table as differences, where its tag and number are known.
fn read_delta_table_at(
    bytes: &Vec<u8>,
    position: usize,
    codec_id: u8,
    num_bases: usize,
    width: usize,
) -> (result: Result<(DeltaBaseTableData, usize), EntroGdError>)
    requires
        position <= bytes@.len(),
        8 * bytes@.len() <= MAX_STREAM_BITS,
        width <= MAX_STREAM_BITS,
    ensures
        match read_delta_table(bytes@, position as int, codec_id, num_bases as nat, width as nat) {
            Some((delta, end)) => result is Ok && (result->Ok_0).0@ == delta && (result->Ok_0).1
                == end && position <= end <= bytes@.len(),
            None => result matches Err(error) && error is InvalidMetadata,
        },
{
    let (sort_column_order, at) = match read_order_at(bytes, position, width) {
        Ok(found) => found,
        Err(error) => {
            return Err(error);
        },
    };
    let key_width: usize = if num_bases > 0 {
        width
    } else {
        0
    };
    let (first_sort_key, next) = match read_bits_at(bytes, at, key_width) {
        Ok(found) => found,
        Err(error) => {
            return Err(error);
        },
    };
    let (delta_count, after_count) = match read_size_at(bytes, next) {
        Ok(found) => found,
        Err(error) => {
            return Err(error);
        },
    };
    let (bit_len, after_len) = match read_size_at(bytes, after_count) {
        Ok(found) => found,
        Err(error) => {
            return Err(error);
        },
    };
    let (delta_bit_stream, end) = match read_bits_at(bytes, after_len, bit_len) {
        Ok(found) => found,
        Err(error) => {
            return Err(error);
        },
    };
    Ok(
        (
            DeltaBaseTableData {
                num_bases,
                first_sort_key,
                delta_bit_stream,
                delta_count,
                sort_column_order,
                codec_id,
            },
            end,
        ),
    )
}

/// Reads the base table at a position.
pub fn read_table_at(bytes: &Vec<u8>, position: usize, width: usize) -> (result: Result<
    (BaseTable, usize),
    EntroGdError,
>)
    requires
        8 * bytes@.len() <= MAX_STREAM_BITS,
        width <= MAX_STREAM_BITS,
    ensures
        match read_table(bytes@, position as int, width as nat) {
            Some((table, end)) => result is Ok && (result->Ok_0).0@ == table && (result->Ok_0).1
                == end && position <= end <= bytes@.len() && table.num_bases() <= usize::MAX,
            None => result matches Err(error) && error is InvalidMetadata,
        },
{
    if position >= bytes.len() {
        return Err(bad_metadata("unexpected end of EGD before base table"));
    }
    let tag: u8 = bytes[position];
    let (num_bases, at) = match read_size_at(bytes, position + 1) {
        Ok(found) => found,
        Err(error) => {
            return Err(error);
        },
    };
    if tag == BASE_TABLE_TAG_RAW {
        match read_rows_at(bytes, at, num_bases, width) {
            Ok((rows, end)) => Ok((BaseTable::Raw(rows), end)),
            Err(error) => Err(error),
        }
    } else if tag == BASE_TABLE_TAG_DELTA_UNARY || tag == BASE_TABLE_TAG_DELTA_FIXED {
        match read_delta_table_at(bytes, at, tag, num_bases, width) {
            Ok((delta, end)) => Ok((BaseTable::Delta(delta), end)),
            Err(error) => Err(error),
        }
    } else {
        Err(
            EntroGdError::InvalidMetadata {
                message: numbered("unsupported base-table tag ", tag as usize),
            },
        )
    }
}

} // verus!
