//! Bit-packed rows.
use vstd::prelude::*;

use crate::bits::{BitStream, MAX_STREAM_BITS};
use crate::data::{features_width, BitDataInfo};
use crate::error::EntroGdError;
use crate::text::{append_numbered, append_text, decimal, numbered};

verus! {

/// Rows of equal width, one behind the other, each perhaps followed by padding.
#[derive(Debug, PartialEq, Eq)]
pub struct BitData {
    pub data: BitStream,
    /// The bits of a row.
    pub chunk_size: usize,
    /// The bits of a row and its padding.
    pub stride: usize,
    pub num_rows: usize,
}

/// Where a row starts and ends inside the stored bits.
pub proof fn row_in_bounds(row: int, num_rows: int, stride: int, chunk_size: int)
    requires
        0 <= row < num_rows,
        0 <= chunk_size <= stride,
    ensures
        0 <= row * stride,
        row * stride + chunk_size <= num_rows * stride,
        row * stride + stride <= num_rows * stride,
{
    assert(row * stride + stride <= num_rows * stride) by (nonlinear_arith)
        requires
            0 <= row < num_rows,
            0 <= stride,
    ;
    assert(0 <= row * stride) by (nonlinear_arith)
        requires
            0 <= row,
            0 <= stride,
    ;
}

/// The bits of a row with clear padding behind them.
pub open spec fn with_padding(row: Seq<bool>, stride: nat) -> Seq<bool> {
    row + Seq::new((stride - row.len()) as nat, |i: int| false)
}

impl BitData {
    /// Whether the rows and their padding are stored; more bits may follow.
    pub open spec fn valid(self) -> bool {
        &&& self.chunk_size <= self.stride
        &&& self.data@.len() >= self.num_rows * self.stride
    }

    /// The bits of one row.
    pub open spec fn row(self, row: int) -> Seq<bool> {
        self.data@.subrange(row * self.stride, row * self.stride + self.chunk_size)
    }

    /// Adds a row.
    pub fn extend_from_bitslice(&mut self, bits: &BitStream) -> (result: Result<(), EntroGdError>)
        requires
            old(self).valid(),
            old(self).num_rows < usize::MAX,
            old(self).data@.len() + old(self).stride <= MAX_STREAM_BITS,
        ensures
            final(self).valid(),
            final(self).chunk_size == old(self).chunk_size,
            final(self).stride == old(self).stride,
            result is Ok <==> bits@.len() == old(self).chunk_size,
            result is Ok ==> {
                &&& final(self).num_rows == old(self).num_rows + 1
                &&& final(self).data@ == old(self).data@ + with_padding(
                    bits@,
                    old(self).stride as nat,
                )
            },
            result matches Err(error) ==> {
                &&& error == EntroGdError::BitSliceLengthMismatch {
                    expected: old(self).chunk_size,
                    actual: bits@.len() as usize,
                }
                &&& final(self).num_rows == old(self).num_rows
                &&& final(self).data@ == old(self).data@
            },
    {
        let actual: usize = bits.bit_len();
        if actual != self.chunk_size {
            return Err(
                EntroGdError::BitSliceLengthMismatch { expected: self.chunk_size, actual },
            );
        }
        self.data.append_range(bits, 0, actual);
        append_row_padding(&mut self.data, self.stride - self.chunk_size);
        proof {
            let rows = self.num_rows as int;
            let stride = self.stride as int;
            assert((rows + 1) * stride == rows * stride + stride) by (nonlinear_arith);
            assert(bits@.subrange(0, actual as int) =~= bits@);
        }
        self.num_rows = self.num_rows + 1;
        Ok(())
    }

    /// The bits of one row.
    pub fn get_chunk(&self, row: usize) -> (chunk: BitStream)
        requires
            self.valid(),
            row < self.num_rows,
        ensures
            chunk@ == self.row(row as int),
            chunk@.len() == self.chunk_size,
    {
        proof {
            row_in_bounds(
                row as int,
                self.num_rows as int,
                self.stride as int,
                self.chunk_size as int,
            );
        }
        let total: usize = self.data.bit_len();
        let start: usize = row * self.stride;
        self.data.copy_range(start, start + self.chunk_size)
    }

    /// One bit of one row.
    pub fn get_bit(&self, row: usize, bit_in_chunk: usize) -> (bit: bool)
        requires
            self.valid(),
            row < self.num_rows,
            bit_in_chunk < self.chunk_size,
        ensures
            bit == self.row(row as int)[bit_in_chunk as int],
    {
        proof {
            row_in_bounds(
                row as int,
                self.num_rows as int,
                self.stride as int,
                self.chunk_size as int,
            );
        }
        let total: usize = self.data.bit_len();
        self.data.bit(row * self.stride + bit_in_chunk)
    }

    /// The stored bits, padding included.
    pub fn raw(&self) -> (data: &BitStream)
        ensures
            data@ == self.data@,
    {
        &self.data
    }

    /// The bits of all rows without padding.
    pub fn total_bits(&self) -> (bits: usize)
        requires
            self.valid(),
        ensures
            bits == self.chunk_size * self.num_rows,
    {
        proof {
            let rows = self.num_rows as int;
            let stride = self.stride as int;
            let chunk = self.chunk_size as int;
            assert(chunk * rows <= rows * stride) by (nonlinear_arith)
                requires
                    0 <= chunk <= stride,
                    0 <= rows,
            ;
        }
        let total: usize = self.data.bit_len();
        self.chunk_size * self.num_rows
    }
}

impl Clone for BitData {
    fn clone(&self) -> (copy: BitData)
        ensures
            copy.data@ == self.data@,
            copy.chunk_size == self.chunk_size,
            copy.stride == self.stride,
            copy.num_rows == self.num_rows,
    {
        BitData {
            data: self.data.clone(),
            chunk_size: self.chunk_size,
            stride: self.stride,
            num_rows: self.num_rows,
        }
    }
}

/// Adds cleared bits behind a row.
pub fn append_row_padding(data: &mut BitStream, padding_bits: usize)
    requires
        old(data)@.len() + padding_bits <= MAX_STREAM_BITS,
    ensures
        final(data)@ == old(data)@ + Seq::new(padding_bits as nat, |i: int| false),
{
    let mut i: usize = 0;
    while i < padding_bits
        invariant
            i <= padding_bits,
            old(data)@.len() + padding_bits <= MAX_STREAM_BITS,
            data@ == old(data)@ + Seq::new(i as nat, |k: int| false),
        decreases padding_bits - i,
    {
        data.append_bit(false);
        assert(Seq::new(i as nat + 1, |k: int| false) =~= Seq::new(i as nat, |k: int| false).push(
            false,
        ));
        i += 1;
    }
}

/// Rows together with the metadata that describes them.
#[derive(Debug)]
pub struct BitDataSet {
    pub data: BitData,
    pub info: BitDataInfo,
}

impl BitDataSet {
    /// Whether rows and metadata are sound and agree on the width of a row.
    pub open spec fn valid(self) -> bool {
        &&& self.data.valid()
        &&& self.info.valid()
        &&& self.data.chunk_size == features_width(self.info@.features)
    }

    /// The bits of one feature of one row.
    pub open spec fn feature(self, row: int, feature: int) -> Seq<bool> {
        self.data.row(row).subrange(
            features_width(self.info@.features.take(feature)) as int,
            features_width(self.info@.features.take(feature + 1)) as int,
        )
    }

    proof fn feature_in_row(self, feature: int)
        requires
            self.valid(),
            0 <= feature < self.info@.features.len(),
        ensures
            features_width(self.info@.features.take(feature)) <= features_width(
                self.info@.features.take(feature + 1),
            ) <= self.data.chunk_size,
            features_width(self.info@.features.take(feature + 1)) == features_width(
                self.info@.features.take(feature),
            ) + self.info@.features[feature].data_type.width(),
    {
        let features = self.info@.features;
        crate::data::features_width_step(features, feature);
        crate::data::features_width_monotonic(features, feature + 1, features.len() as int);
        assert(features.take(features.len() as int) =~= features);
    }

    /// The bits of one feature of one row.
    pub fn get_feature(&self, row: usize, feature: usize) -> (bits: BitStream)
        requires
            self.valid(),
            row < self.data.num_rows,
            feature < self.info@.features.len(),
        ensures
            bits@ == self.feature(row as int, feature as int),
            bits@.len() == self.info@.features[feature as int].data_type.width(),
    {
        proof {
            self.feature_in_row(feature as int);
            row_in_bounds(
                row as int,
                self.data.num_rows as int,
                self.data.stride as int,
                self.data.chunk_size as int,
            );
        }
        let total: usize = self.data.data.bit_len();
        let start: usize = row * self.data.stride + self.info.feature_offset(feature);
        let bits = self.data.data.copy_range(start, start + self.info.feature_bits(feature));
        assert(bits@ =~= self.feature(row as int, feature as int));
        bits
    }

    /// One bit of one feature of one row.
    pub fn get_bit_by_feature(&self, row: usize, feature: usize, bit: usize) -> (value: bool)
        requires
            self.valid(),
            row < self.data.num_rows,
            feature < self.info@.features.len(),
            bit < self.info@.features[feature as int].data_type.width(),
        ensures
            value == self.feature(row as int, feature as int)[bit as int],
    {
        proof {
            self.feature_in_row(feature as int);
            row_in_bounds(
                row as int,
                self.data.num_rows as int,
                self.data.stride as int,
                self.data.chunk_size as int,
            );
        }
        let total: usize = self.data.data.bit_len();
        self.data.data.bit(row * self.data.stride + self.info.feature_offset(feature) + bit)
    }

    /// The number of rows.
    pub fn num_rows(&self) -> (rows: usize)
        ensures
            rows == self.data.num_rows,
    {
        self.data.num_rows
    }

    /// The number of features of a row.
    pub fn num_features(&self) -> (count: usize)
        ensures
            count == self.info@.features.len(),
    {
        self.info.num_features()
    }

    /// The bits of a row.
    pub fn chunk_size(&self) -> (bits: usize)
        ensures
            bits == self.data.chunk_size,
    {
        self.data.chunk_size
    }

    /// The bits of one feature.
    pub fn feature_bits(&self, feature_idx: usize) -> (bits: usize)
        requires
            feature_idx < self.info@.features.len(),
        ensures
            bits == self.info@.features[feature_idx as int].data_type.width(),
    {
        self.info.feature_bits(feature_idx)
    }

    /// Where one feature starts inside a row.
    pub fn feature_offset(&self, feature_idx: usize) -> (offset: usize)
        requires
            self.valid(),
            feature_idx < self.info@.features.len(),
        ensures
            offset == features_width(self.info@.features.take(feature_idx as int)),
    {
        self.info.feature_offset(feature_idx)
    }

    /// The feature that holds a bit of the row.
    pub fn feature_index_for_bit(&self, bit_pos: usize) -> (index: Option<usize>)
        requires
            self.valid(),
        ensures
            index is Some <==> bit_pos < features_width(self.info@.features),
            index matches Some(i) ==> i < self.info@.features.len() && features_width(
                self.info@.features.take(i as int),
            ) <= bit_pos < features_width(self.info@.features.take(i as int + 1)),
    {
        self.info.feature_index_for_bit(bit_pos)
    }

    /// One bit of one row.
    pub fn get_bit(&self, row: usize, bit_in_chunk: usize) -> (bit: bool)
        requires
            self.valid(),
            row < self.data.num_rows,
            bit_in_chunk < self.data.chunk_size,
        ensures
            bit == self.data.row(row as int)[bit_in_chunk as int],
    {
        self.data.get_bit(row, bit_in_chunk)
    }

    /// The bits of one row.
    pub fn get_chunk(&self, row: usize) -> (chunk: BitStream)
        requires
            self.valid(),
            row < self.data.num_rows,
        ensures
            chunk@ == self.data.row(row as int),
            chunk@.len() == self.data.chunk_size,
    {
        self.data.get_chunk(row)
    }
}

impl Clone for BitDataSet {
    fn clone(&self) -> (copy: BitDataSet)
        ensures
            copy.data.data@ == self.data.data@,
            copy.data.chunk_size == self.data.chunk_size,
            copy.data.stride == self.data.stride,
            copy.data.num_rows == self.data.num_rows,
            copy.info@ == self.info@,
            self.valid() ==> copy.valid(),
    {
        BitDataSet { data: self.data.clone(), info: self.info.clone() }
    }
}

/// The numbers of the first `n` bits, each with a blank behind it.
pub open spec fn bit_labels(n: nat) -> Seq<char>
    decreases n,
{
    if n == 0 {
        Seq::empty()
    } else {
        bit_labels((n - 1) as nat) + decimal((n - 1) as nat) + " "@
    }
}

/// The first `n` bits of a row as digits, each with a blank behind it.
pub open spec fn bit_digits(row: Seq<bool>, n: nat) -> Seq<char>
    decreases n,
{
    if n == 0 {
        Seq::empty()
    } else {
        bit_digits(row, (n - 1) as nat) + (if row[n - 1] {
            "1 "@
        } else {
            "0 "@
        })
    }
}

/// A line for each of the first `n` rows, each on a new line.
pub open spec fn row_lines(data: BitData, n: nat) -> Seq<char>
    decreases n,
{
    if n == 0 {
        Seq::empty()
    } else {
        row_lines(data, (n - 1) as nat) + "\nRow "@ + decimal((n - 1) as nat) + ": "@ + bit_digits(
            data.row(n - 1),
            data.chunk_size as nat,
        )
    }
}

/// The sizes of a dataset in words.
pub open spec fn sizes_text(set: BitDataSet) -> Seq<char> {
    "BitData:\n  Number of rows: "@ + decimal(set.data.num_rows as nat)
        + "\n  Number of features: "@ + decimal(set.info@.features.len())
        + "\n  Chunk size (bits per row): "@ + decimal(set.data.chunk_size as nat)
        + "\n  Total bits: "@ + decimal((set.data.chunk_size * set.data.num_rows) as nat)
        + "\nBit  : "@
}

/// A dataset in words: its sizes, the numbers of its bits, and the bits of each row.
pub open spec fn dataset_text(set: BitDataSet) -> Seq<char> {
    sizes_text(set) + bit_labels(set.data.chunk_size as nat) + row_lines(
        set.data,
        set.data.num_rows as nat,
    )
}

impl BitDataSet {
    /// The sizes of the dataset in words.
    fn describe_sizes(&self) -> (text: String)
        requires
            self.data.valid(),
        ensures
            text@ == sizes_text(*self),
    {
        let mut text = numbered("BitData:\n  Number of rows: ", self.data.num_rows);
        append_numbered(&mut text, "\n  Number of features: ", self.info.num_features());
        append_numbered(&mut text, "\n  Chunk size (bits per row): ", self.data.chunk_size);
        append_numbered(&mut text, "\n  Total bits: ", self.data.total_bits());
        append_text(&mut text, "\nBit  : ");
        text
    }

    /// Appends the bits of a row as digits.
    fn append_row(&self, text: &mut String, row: usize)
        requires
            self.data.valid(),
            row < self.data.num_rows,
        ensures
            final(text)@ == old(text)@ + bit_digits(
                self.data.row(row as int),
                self.data.chunk_size as nat,
            ),
    {
        let mut bit: usize = 0;
        while bit < self.data.chunk_size
            invariant
                self.data.valid(),
                row < self.data.num_rows,
                bit <= self.data.chunk_size,
                text@ == old(text)@ + bit_digits(self.data.row(row as int), bit as nat),
            decreases self.data.chunk_size - bit,
        {
            let ghost before = text@;
            if self.data.get_bit(row, bit) {
                append_text(text, "1 ");
            } else {
                append_text(text, "0 ");
            }
            assert(text@ =~= old(text)@ + bit_digits(self.data.row(row as int), bit as nat + 1));
            bit += 1;
        }
    }

    /// The dataset in words: its sizes, the numbers of its bits, and the bits of each row.
    pub fn describe(&self) -> (text: String)
        requires
            self.data.valid(),
        ensures
            text@ == dataset_text(*self),
    {
        let mut text = self.describe_sizes();
        let mut bit: usize = 0;
        while bit < self.data.chunk_size
            invariant
                bit <= self.data.chunk_size,
                text@ == sizes_text(*self) + bit_labels(bit as nat),
            decreases self.data.chunk_size - bit,
        {
            append_numbered(&mut text, "", bit);
            append_text(&mut text, " ");
            proof {
                reveal_strlit("");
                assert(text@ =~= sizes_text(*self) + bit_labels(bit as nat + 1));
            }
            bit += 1;
        }
        let ghost head = text@;
        let mut row: usize = 0;
        while row < self.data.num_rows
            invariant
                self.data.valid(),
                row <= self.data.num_rows,
                text@ == head + row_lines(self.data, row as nat),
            decreases self.data.num_rows - row,
        {
            append_numbered(&mut text, "\nRow ", row);
            append_text(&mut text, ": ");
            self.append_row(&mut text, row);
            assert(text@ =~= head + row_lines(self.data, row as nat + 1));
            row += 1;
        }
        text
    }
}

} // verus!
