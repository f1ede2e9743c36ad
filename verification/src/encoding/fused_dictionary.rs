//! The plain encoding, with the rows handed out to several threads.
use rayon::iter::{IndexedParallelIterator, IntoParallelIterator, ParallelIterator};
use vstd::prelude::*;

use crate::base_table::PreEncodeContext;
use crate::bits::{
    join, join_concat, join_push, join_uniform, low_digits, BitStream, MAX_STREAM_BITS,
};
use crate::encoding::compressed::{
    build_compressed_data, compressed_content, CompressedData, CompressedView, EncodedData,
    EncodedView,
};
use crate::encoding::deviation::{encoded_rows, symbols_fit, DeviationData};
use crate::encoding::layout::{
    append_deviation_bits, are_clear_runs, base_mask, build_id_bits_per_base, derive_symbol_layout,
    deviation_width, id_width, row_symbol, row_symbols, row_symbols_uniform, unmasked_len,
};
use crate::error::EntroGdError;
use crate::filter_pipeline::Filter;

verus! {

/// The rows that a thread takes at a time: at least 256, at most 4096, and otherwise so many that
/// each thread takes four times.
pub open spec fn rows_at_a_time(num_rows: nat, threads: nat) -> nat {
    let share = num_rows / (threads * 4);
    if share < 256 {
        256
    } else if share > 4096 {
        4096
    } else {
        share
    }
}

/// A thread takes 256 to 4096 rows at a time: within that so many that all threads take all rows in four
/// turns each, but for a rest of fewer rows than there are turns.
pub proof fn threads_take_four_turns(num_rows: nat, threads: nat)
    requires
        threads > 0,
    ensures
        256 <= rows_at_a_time(num_rows, threads) <= 4096,
        rows_at_a_time(num_rows, threads) > 256 ==> rows_at_a_time(num_rows, threads) * (4 * threads)
            <= num_rows,
        rows_at_a_time(num_rows, threads) < 4096 ==> num_rows < (rows_at_a_time(num_rows, threads) + 1)
            * (4 * threads),
{
    let turns = (4 * threads) as int;
    let rows = num_rows as int;
    let share = rows / turns;
    assert(threads * 4 == turns);
    assert(share * turns <= rows < (share + 1) * turns) by (nonlinear_arith)
        requires
            share == rows / turns,
            turns > 0,
            rows >= 0,
    ;
    let taken = rows_at_a_time(num_rows, threads) as int;
    assert(taken <= share ==> taken * turns <= share * turns) by (nonlinear_arith)
        requires
            turns > 0,
    ;
    assert(share <= taken ==> (share + 1) * turns <= (taken + 1) * turns) by (nonlinear_arith)
        requires
            turns > 0,
    ;
}

/// The rows that a thread takes at a time.
pub fn fused_chunk_rows(num_rows: usize, threads: usize) -> (rows: usize)
    requires
        1 <= threads <= usize::MAX / 4,
    ensures
        rows == rows_at_a_time(num_rows as nat, threads as nat),
{
    let share: usize = num_rows / (threads * 4);
    if share < 256 {
        256
    } else if share > 4096 {
        4096
    } else {
        share
    }
}

/// The symbols of some rows, one behind the other.
pub open spec fn symbols_of(context: PreEncodeContext, rows: Seq<usize>) -> Seq<bool> {
    join(Seq::new(rows.len(), |k: int| row_symbol(context, rows[k] as int)))
}

/// Some rows that follow each other.
pub open spec fn consecutive(first: int, count: nat) -> Seq<usize> {
    Seq::new(count, |k: int| (first + k) as usize)
}

/// The rows of chunk `i` of all rows: as many as a chunk has, the last chunk perhaps fewer.
pub open spec fn chunk_of(num_rows: nat, chunk_rows: nat, i: int) -> Seq<usize> {
    let first = i * chunk_rows;
    consecutive(
        first,
        if num_rows - first < chunk_rows {
            (num_rows - first) as nat
        } else {
            chunk_rows
        },
    )
}

/// The number of chunks of all rows.
pub open spec fn chunk_count(num_rows: nat, chunk_rows: nat) -> nat {
    (num_rows + chunk_rows - 1) as nat / chunk_rows
}

/// Whether runs of deviation bits and base numbers as bits are those of a context.
pub open spec fn prepared(
    input: PreEncodeContext,
    l_id: nat,
    deviation_ranges: Seq<(usize, usize)>,
    id_bits_per_base: Seq<BitStream>,
) -> bool {
    &&& input.valid()
    &&& l_id == id_width(input)
    &&& are_clear_runs(deviation_ranges, base_mask(input.layout@), input.layout@.len() as int)
    &&& id_bits_per_base.len() == input.variable_base_table@.len()
    &&& forall|id: int|
        0 <= id < id_bits_per_base.len() ==> (#[trigger] id_bits_per_base[id])@ == low_digits(
            id as nat,
            l_id,
        )
}

/// The symbols of the rows that one thread has taken.
pub fn encode_fused_chunk(
    input: &PreEncodeContext,
    l_id: usize,
    deviation_ranges: &Vec<(usize, usize)>,
    id_bits_per_base: &Vec<BitStream>,
    rows: &Vec<usize>,
) -> (stream: BitStream)
    requires
        prepared(*input, l_id as nat, deviation_ranges@, id_bits_per_base@),
        forall|k: int|
            0 <= k < rows@.len() ==> #[trigger] rows@[k] < input.bit_data.data.num_rows,
        rows@.len() * (deviation_width(*input) + id_width(*input)) <= MAX_STREAM_BITS,
    ensures
        stream@ == symbols_of(*input, rows@),
{
    let ghost symbols = Seq::new(rows@.len(), |k: int| row_symbol(*input, rows@[k] as int));
    let ghost width = deviation_width(*input) + id_width(*input);
    let mut stream = BitStream::empty();
    let mut k: usize = 0;
    proof {
        assert forall|i: int| 0 <= i < symbols.len() implies (#[trigger] symbols[i]).len()
            == width by {
            unmasked_len(input.bit_data.data.row(rows@[i] as int), base_mask(input.layout@));
        }
        assert(symbols.take(0) =~= Seq::empty());
    }
    while k < rows.len()
        invariant
            prepared(*input, l_id as nat, deviation_ranges@, id_bits_per_base@),
            forall|i: int|
                0 <= i < rows@.len() ==> #[trigger] rows@[i] < input.bit_data.data.num_rows,
            k <= rows@.len() == symbols.len(),
            symbols == Seq::new(rows@.len(), |i: int| row_symbol(*input, rows@[i] as int)),
            width == deviation_width(*input) + id_width(*input),
            rows@.len() * width <= MAX_STREAM_BITS,
            forall|i: int| 0 <= i < symbols.len() ==> (#[trigger] symbols[i]).len() == width,
            stream@ == join(symbols.take(k as int)),
        decreases rows@.len() - k,
    {
        let row: usize = rows[k];
        proof {
            join_uniform(symbols.take(k as int), width);
            let total = rows@.len();
            assert(k * width + width <= total * width) by (nonlinear_arith)
                requires
                    k < total,
            ;
            unmasked_len(input.bit_data.data.row(row as int), base_mask(input.layout@));
        }
        append_deviation_bits(&mut stream, input, row, deviation_ranges);
        let id: usize = input.row_to_base_id[row];
        stream.append_range(&id_bits_per_base[id], 0, l_id);
        proof {
            let id_bits = id_bits_per_base@[id as int]@;
            assert(id_bits.subrange(0, l_id as int) =~= id_bits);
            assert(symbols.take(k as int + 1) =~= symbols.take(k as int).push(symbols[k as int]));
            join_push(symbols.take(k as int), symbols[k as int]);
            assert(stream@ =~= join(symbols.take(k as int + 1)));
        }
        k += 1;
    }
    assert(symbols.take(k as int) =~= symbols);
    stream
}

/// `rayon::current_num_threads`: there is at least one thread, and there are no more than the
/// thread counters of `rayon` can count.
#[verifier::external_body]
fn thread_count() -> (threads: usize)
    ensures
        1 <= threads <= 0xffff,
{
    rayon::current_num_threads()
}

/// `chunks`, `map` and `collect` of a `rayon` iterator over all row numbers: the rows are cut
/// into chunks of consecutive rows, the chunks are encoded each by itself, on any thread, and the
/// results are collected in the order of the chunks.
#[verifier::external_body]
fn encode_chunks(
    input: &PreEncodeContext,
    l_id: usize,
    deviation_ranges: &Vec<(usize, usize)>,
    id_bits_per_base: &Vec<BitStream>,
    num_rows: usize,
    chunk_rows: usize,
) -> (chunks: Vec<BitStream>)
    requires
        prepared(*input, l_id as nat, deviation_ranges@, id_bits_per_base@),
        num_rows == input.bit_data.data.num_rows,
        num_rows * (deviation_width(*input) + id_width(*input)) <= MAX_STREAM_BITS,
        chunk_rows > 0,
    ensures
        chunks@.len() == chunk_count(num_rows as nat, chunk_rows as nat),
        forall|i: int|
            0 <= i < chunks@.len() ==> (#[trigger] chunks@[i])@ == symbols_of(
                *input,
                chunk_of(num_rows as nat, chunk_rows as nat, i),
            ),
{
    (0..num_rows)
        .into_par_iter()
        .chunks(chunk_rows)
        .map(|rows| encode_fused_chunk(input, l_id, deviation_ranges, id_bits_per_base, &rows))
        .collect()
}

/// Where a chunk starts and ends.
proof fn chunk_bounds(num_rows: int, chunk_rows: int, i: int)
    requires
        0 <= i < chunk_count(num_rows as nat, chunk_rows as nat),
        chunk_rows > 0,
        num_rows >= 0,
    ensures
        0 <= i * chunk_rows < num_rows,
        (i + 1) * chunk_rows == i * chunk_rows + chunk_rows,
        i == chunk_count(num_rows as nat, chunk_rows as nat) - 1 <==> i * chunk_rows + chunk_rows
            >= num_rows,
{
    let count = (num_rows + chunk_rows - 1) / chunk_rows;
    let last = (num_rows + chunk_rows - 1) % chunk_rows;
    assert(num_rows + chunk_rows - 1 == count * chunk_rows + last && 0 <= last < chunk_rows)
        by (nonlinear_arith)
        requires
            chunk_rows > 0,
            count == (num_rows + chunk_rows - 1) / chunk_rows,
            last == (num_rows + chunk_rows - 1) % chunk_rows,
    ;
    assert((i + 1) * chunk_rows == i * chunk_rows + chunk_rows) by (nonlinear_arith);
    assert(0 <= i * chunk_rows) by (nonlinear_arith)
        requires
            0 <= i,
            chunk_rows > 0,
    ;
    assert((i + 1) * chunk_rows <= count * chunk_rows) by (nonlinear_arith)
        requires
            i + 1 <= count,
            chunk_rows > 0,
    ;
    if i + 2 <= count {
        assert((i + 2) * chunk_rows <= count * chunk_rows) by (nonlinear_arith)
            requires
                i + 2 <= count,
                chunk_rows > 0,
        ;
        assert((i + 2) * chunk_rows == i * chunk_rows + 2 * chunk_rows) by (nonlinear_arith);
    }
}

/// How many rows the first `i` chunks have.
spec fn rows_before(num_rows: int, chunk_rows: int, i: int) -> int {
    if i * chunk_rows < num_rows {
        i * chunk_rows
    } else {
        num_rows
    }
}

/// The symbols of the rows up to the end of a chunk are those up to its start and its own.
proof fn chunk_step(context: PreEncodeContext, chunk_rows: int, i: int)
    requires
        0 <= i < chunk_count(context.bit_data.data.num_rows as nat, chunk_rows as nat),
        chunk_rows > 0,
    ensures
        ({
            let n = context.bit_data.data.num_rows as int;
            &&& 0 <= rows_before(n, chunk_rows, i) <= rows_before(n, chunk_rows, i + 1) <= n
            &&& join(row_symbols(context).take(rows_before(n, chunk_rows, i + 1))) == join(
                row_symbols(context).take(rows_before(n, chunk_rows, i)),
            ) + symbols_of(context, chunk_of(n as nat, chunk_rows as nat, i))
        }),
{
    let n = context.bit_data.data.num_rows as int;
    let symbols = row_symbols(context);
    chunk_bounds(n, chunk_rows, i);
    let from = rows_before(n, chunk_rows, i);
    let to = rows_before(n, chunk_rows, i + 1);
    let rows = chunk_of(n as nat, chunk_rows as nat, i);
    let own = Seq::new(rows.len(), |k: int| row_symbol(context, rows[k] as int));
    assert(symbols.take(to) =~= symbols.take(from) + own);
    join_concat(symbols.take(from), own);
}

/// The rows of a context as symbols of one width, encoded by several threads.
pub fn encode_data_fused_dictionary(input: &PreEncodeContext) -> (data: DeviationData)
    requires
        input.valid(),
        symbols_fit(*input),
    ensures
        data@ == encoded_rows(*input),
{
    let (num_deviation_bits, l_id, deviation_ranges) = derive_symbol_layout(input);
    let id_bits = build_id_bits_per_base(l_id, input.variable_base_table.len());
    let num_rows: usize = input.bit_data.num_rows();
    let chunk_rows: usize = fused_chunk_rows(num_rows, thread_count());
    let chunks = encode_chunks(input, l_id, &deviation_ranges, &id_bits, num_rows, chunk_rows);
    let ghost symbols = row_symbols(*input);
    let ghost width = deviation_width(*input) + id_width(*input);
    let mut stream = BitStream::empty();
    let mut i: usize = 0;
    proof {
        row_symbols_uniform(*input);
        join_uniform(symbols, width);
        assert(0 * chunk_rows == 0);
        assert(symbols.take(0) =~= Seq::empty());
    }
    while i < chunks.len()
        invariant
            i <= chunks@.len() == chunk_count(num_rows as nat, chunk_rows as nat),
            num_rows == input.bit_data.data.num_rows,
            symbols == row_symbols(*input),
            join(symbols).len() <= MAX_STREAM_BITS,
            chunk_rows > 0,
            forall|k: int|
                0 <= k < chunks@.len() ==> (#[trigger] chunks@[k])@ == symbols_of(
                    *input,
                    chunk_of(num_rows as nat, chunk_rows as nat, k),
                ),
            stream@ == join(
                symbols.take(rows_before(num_rows as int, chunk_rows as int, i as int)),
            ),
        decreases chunks@.len() - i,
    {
        let len: usize = chunks[i].bit_len();
        proof {
            chunk_step(*input, chunk_rows as int, i as int);
            let to = rows_before(num_rows as int, chunk_rows as int, i + 1);
            assert(symbols =~= symbols.take(to) + symbols.skip(to));
            join_concat(symbols.take(to), symbols.skip(to));
            assert(chunks@[i as int]@.subrange(0, len as int) =~= chunks@[i as int]@);
        }
        stream.append_range(&chunks[i], 0, len);
        i += 1;
    }
    proof {
        if num_rows > 0 {
            let count = chunk_count(num_rows as nat, chunk_rows as nat) as int;
            assert(count > 0) by (nonlinear_arith)
                requires
                    count == (num_rows + chunk_rows - 1) as int / chunk_rows as int,
                    num_rows > 0,
                    chunk_rows > 0,
            ;
            chunk_bounds(num_rows as int, chunk_rows as int, count - 1);
        }
        assert(symbols.take(num_rows as int) =~= symbols);
    }
    DeviationData::new(stream, num_rows, num_deviation_bits, l_id)
}

/// Encodes rows as symbols of one width, by several threads. The order of the columns is not
/// kept.
pub struct EncodeDataFusedDictionary {}

impl Filter for EncodeDataFusedDictionary {
    type Input = PreEncodeContext;

    type Output = CompressedData;

    open spec fn admits(&self, input: PreEncodeContext) -> bool {
        input.valid() && symbols_fit(input)
    }

    open spec fn yields(
        &self,
        input: PreEncodeContext,
        result: Result<CompressedData, EntroGdError>,
    ) -> bool {
        result matches Ok(data) && data.valid() && data@ == (CompressedView {
            order: None,
            ..compressed_content(input, EncodedView::Normal(encoded_rows(input)))
        })
    }

    fn process(&self, input: PreEncodeContext) -> (result: Result<CompressedData, EntroGdError>) {
        let encoded = EncodedData::Normal(encode_data_fused_dictionary(&input));
        proof {
            row_symbols_uniform(input);
            join_uniform(row_symbols(input), encoded_rows(input).symbol_width());
        }
        let mut compressed = build_compressed_data(input, encoded);
        compressed.entropy_sorted_column_order = None;
        Ok(compressed)
    }
}

} // verus!
