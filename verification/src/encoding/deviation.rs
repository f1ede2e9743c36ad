//! Fixed-width symbols, one behind the other.
use vstd::prelude::*;

use crate::base_table::PreEncodeContext;
use crate::bits::{join, join_uniform, BitStream, MAX_STREAM_BITS};
use crate::encoding::layout::{
    build_id_bits_per_base, derive_symbol_layout, deviation_width, encode_rows_as_symbol_stream,
    id_width, row_symbol, row_symbols, row_symbols_uniform,
};
use crate::error::EntroGdError;

verus! {

/// One decoded row: its deviation bits and the number of its base as bits.
#[derive(Debug, PartialEq, Eq)]
pub struct DeviationSample {
    pub deviation: BitStream,
    pub id: BitStream,
}

/// The content of a decoded row.
pub struct SampleView {
    pub deviation: Seq<bool>,
    pub id: Seq<bool>,
}

impl View for DeviationSample {
    type V = SampleView;

    open spec fn view(&self) -> SampleView {
        SampleView { deviation: self.deviation@, id: self.id@ }
    }
}

/// The bits of symbol `k` in a stream of symbols of one width.
pub open spec fn slot(stream: Seq<bool>, width: nat, k: int) -> Seq<bool> {
    stream.subrange(k * width, k * width + width)
}

/// A symbol split into its deviation part and its base number.
pub open spec fn split_symbol(symbol: Seq<bool>, num_deviation_bits: nat) -> SampleView {
    SampleView {
        deviation: symbol.take(num_deviation_bits as int),
        id: symbol.skip(num_deviation_bits as int),
    }
}

/// A symbol number below `count` lies inside a stream of `count` symbols.
pub proof fn slot_in_bounds(k: int, count: int, width: int)
    requires
        0 <= k < count,
        0 <= width,
    ensures
        0 <= k * width,
        k * width + width <= count * width,
{
    assert(k * width + width <= count * width) by (nonlinear_arith)
        requires
            0 <= k < count,
            0 <= width,
    ;
    assert(0 <= k * width) by (nonlinear_arith)
        requires
            0 <= k,
            0 <= width,
    ;
}

/// The symbol that starts at bit `start` of a stream, split into its parts.
pub(crate) fn sample_at(
    stream: &BitStream,
    start: usize,
    num_deviation_bits: usize,
    num_id_bits: usize,
) -> (sample: DeviationSample)
    requires
        start + num_deviation_bits + num_id_bits <= stream@.len(),
    ensures
        sample@ == split_symbol(
            stream@.subrange(start as int, start + num_deviation_bits + num_id_bits),
            num_deviation_bits as nat,
        ),
{
    let total: usize = stream.bit_len();
    let middle: usize = start + num_deviation_bits;
    let end: usize = middle + num_id_bits;
    let deviation = stream.copy_range(start, middle);
    let id = stream.copy_range(middle, end);
    proof {
        let symbol = stream@.subrange(start as int, end as int);
        assert(deviation@ =~= symbol.take(num_deviation_bits as int));
        assert(id@ =~= symbol.skip(num_deviation_bits as int));
    }
    DeviationSample { deviation, id }
}

/// Rows as symbols of one width, one behind the other.
#[derive(Debug, PartialEq, Eq)]
pub struct DeviationData {
    pub encoded_bit_stream: BitStream,
    pub num_samples: usize,
    pub num_deviation_bits: usize,
    pub num_id_bits: usize,
}

/// The content of rows as symbols of one width.
#[verifier::ext_equal]
pub struct DeviationView {
    pub bits: Seq<bool>,
    pub num_samples: nat,
    pub num_deviation_bits: nat,
    pub num_id_bits: nat,
}

impl View for DeviationData {
    type V = DeviationView;

    open spec fn view(&self) -> DeviationView {
        DeviationView {
            bits: self.encoded_bit_stream@,
            num_samples: self.num_samples as nat,
            num_deviation_bits: self.num_deviation_bits as nat,
            num_id_bits: self.num_id_bits as nat,
        }
    }
}

impl DeviationView {
    /// The bits of a symbol.
    pub open spec fn symbol_width(self) -> nat {
        self.num_deviation_bits + self.num_id_bits
    }

    /// Whether the stream holds at least the symbols of all rows.
    pub open spec fn holds_samples(self) -> bool {
        self.num_samples * self.symbol_width() <= self.bits.len()
    }

    /// The row at an index.
    pub open spec fn sample(self, index: int) -> SampleView {
        split_symbol(slot(self.bits, self.symbol_width(), index), self.num_deviation_bits)
    }
}

impl Clone for DeviationData {
    fn clone(&self) -> (copy: DeviationData)
        ensures
            copy@ == self@,
    {
        DeviationData {
            encoded_bit_stream: self.encoded_bit_stream.clone(),
            num_samples: self.num_samples,
            num_deviation_bits: self.num_deviation_bits,
            num_id_bits: self.num_id_bits,
        }
    }
}

impl DeviationData {
    /// Rows from a stream of symbols.
    pub fn new(
        encoded_bit_stream: BitStream,
        num_samples: usize,
        num_deviation_bits: usize,
        num_id_bits: usize,
    ) -> (data: DeviationData)
        ensures
            data@ == (DeviationView {
                bits: encoded_bit_stream@,
                num_samples: num_samples as nat,
                num_deviation_bits: num_deviation_bits as nat,
                num_id_bits: num_id_bits as nat,
            }),
    {
        DeviationData { encoded_bit_stream, num_samples, num_deviation_bits, num_id_bits }
    }

    /// The row at an index, without touching any other row.
    pub fn get_sample(&self, sample_idx: usize) -> (sample: Option<DeviationSample>)
        requires
            self@.holds_samples(),
        ensures
            sample is Some <==> sample_idx < self@.num_samples,
            sample matches Some(found) ==> found@ == self@.sample(sample_idx as int),
    {
        if sample_idx >= self.num_samples {
            return None;
        }
        let total: usize = self.encoded_bit_stream.bit_len();
        proof {
            slot_in_bounds(
                sample_idx as int,
                self.num_samples as int,
                self@.symbol_width() as int,
            );
        }
        let start: usize = sample_idx * (self.num_deviation_bits + self.num_id_bits);
        Some(
            sample_at(&self.encoded_bit_stream, start, self.num_deviation_bits, self.num_id_bits),
        )
    }

    /// The size of the encoded rows in bits.
    pub fn get_encoded_size(&self) -> (bits: usize)
        ensures
            bits == self@.bits.len(),
    {
        self.encoded_bit_stream.bit_len()
    }

    /// The stream of symbols.
    pub fn encoded_bit_stream(&self) -> (stream: &BitStream)
        ensures
            stream@ == self@.bits,
    {
        &self.encoded_bit_stream
    }

    /// The number of rows.
    pub fn get_num_samples(&self) -> (samples: usize)
        ensures
            samples == self@.num_samples,
    {
        self.num_samples
    }

    /// The width of the deviation part of a symbol.
    pub fn get_num_deviation_bits(&self) -> (bits: usize)
        ensures
            bits == self@.num_deviation_bits,
    {
        self.num_deviation_bits
    }

    /// The width of the base number of a symbol.
    pub fn get_num_id_bits(&self) -> (bits: usize)
        ensures
            bits == self@.num_id_bits,
    {
        self.num_id_bits
    }

    /// The first `limit` rows, or all of them where there are fewer.
    pub fn for_each_sample_n(&self, limit: usize) -> (samples: Vec<DeviationSample>)
        requires
            self@.holds_samples(),
        ensures
            samples@.len() == (if limit <= self@.num_samples { limit as nat } else {
                self@.num_samples
            }),
            forall|i: int|
                0 <= i < samples@.len() ==> (#[trigger] samples@[i])@ == self@.sample(i),
    {
        let capped: usize = if limit <= self.num_samples { limit } else { self.num_samples };
        let mut samples: Vec<DeviationSample> = Vec::new();
        let mut i: usize = 0;
        while i < capped
            invariant
                self@.holds_samples(),
                i <= capped <= self.num_samples,
                samples@.len() == i,
                forall|k: int| 0 <= k < i ==> (#[trigger] samples@[k])@ == self@.sample(k),
            decreases capped - i,
        {
            if let Some(sample) = self.get_sample(i) {
                samples.push(sample);
            }
            i += 1;
        }
        samples
    }

    /// The rows at the given indices, in that order.
    pub fn for_each_sample_at_sorted_indices(&self, sorted_indices: &Vec<usize>) -> (result: Result<
        Vec<DeviationSample>,
        EntroGdError,
    >)
        requires
            self@.holds_samples(),
        ensures
            result is Ok <==> (forall|i: int|
                0 <= i < sorted_indices@.len() ==> #[trigger] sorted_indices@[i]
                    < self@.num_samples),
            result matches Ok(samples) ==> samples@.len() == sorted_indices@.len() && (forall|
                i: int,
            |
                0 <= i < samples@.len() ==> (#[trigger] samples@[i])@ == self@.sample(
                    sorted_indices@[i] as int,
                )),
            result matches Err(error) ==> exists|i: int|
                0 <= i < sorted_indices@.len() && error
                    == (EntroGdError::DecompressionSampleMissing {
                    sample_idx: #[trigger] sorted_indices@[i],
                }) && sorted_indices@[i] >= self@.num_samples && (forall|k: int|
                    0 <= k < i ==> sorted_indices@[k] < self@.num_samples),
    {
        let mut samples: Vec<DeviationSample> = Vec::new();
        let mut i: usize = 0;
        while i < sorted_indices.len()
            invariant
                self@.holds_samples(),
                i <= sorted_indices@.len(),
                samples@.len() == i,
                forall|k: int|
                    0 <= k < i ==> #[trigger] sorted_indices@[k] < self@.num_samples
                        && samples@[k]@ == self@.sample(sorted_indices@[k] as int),
            decreases sorted_indices@.len() - i,
        {
            let sample_idx: usize = sorted_indices[i];
            match self.get_sample(sample_idx) {
                Some(sample) => {
                    samples.push(sample);
                },
                None => {
                    assert(sorted_indices@[i as int] >= self@.num_samples);
                    return Err(EntroGdError::DecompressionSampleMissing { sample_idx });
                },
            }
            i += 1;
        }
        Ok(samples)
    }
}

/// What the plain encoding of a context holds.
pub open spec fn encoded_rows(context: PreEncodeContext) -> DeviationView {
    DeviationView {
        bits: join(row_symbols(context)),
        num_samples: context.bit_data.data.num_rows as nat,
        num_deviation_bits: deviation_width(context),
        num_id_bits: id_width(context),
    }
}

/// Whether the symbols of all rows fit into one stream.
pub open spec fn symbols_fit(context: PreEncodeContext) -> bool {
    &&& context.layout@.len() <= MAX_STREAM_BITS
    &&& context.bit_data.data.num_rows * (deviation_width(context) + id_width(context))
        <= MAX_STREAM_BITS
}

/// The rows of a context as symbols of one width.
pub fn encode_data(input: &PreEncodeContext) -> (data: DeviationData)
    requires
        input.valid(),
        symbols_fit(*input),
    ensures
        data@ == encoded_rows(*input),
{
    let (num_deviation_bits, l_id, deviation_ranges) = derive_symbol_layout(input);
    let id_bits = build_id_bits_per_base(l_id, input.variable_base_table.len());
    let stream = encode_rows_as_symbol_stream(input, l_id, &deviation_ranges, &id_bits);
    DeviationData::new(stream, input.bit_data.num_rows(), num_deviation_bits, l_id)
}

/// A row can be read back from the plain encoding at its own index.
pub proof fn encoded_rows_random_access(context: PreEncodeContext, row: int)
    requires
        0 <= row < context.bit_data.data.num_rows,
    ensures
        encoded_rows(context).holds_samples(),
        encoded_rows(context).bits.len() == encoded_rows(context).num_samples * encoded_rows(
            context,
        ).symbol_width(),
        encoded_rows(context).sample(row) == split_symbol(
            row_symbol(context, row),
            deviation_width(context),
        ),
{
    row_symbols_uniform(context);
    join_uniform(row_symbols(context), encoded_rows(context).symbol_width());
    assert(row_symbols(context)[row] == row_symbol(context, row));
}

} // verus!
