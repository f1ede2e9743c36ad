//! Compressed data as a file: a header, the features with the roles of their bits, the weights of
//! condensed rows, the base table and the encoded rows.
use vstd::arithmetic::power2::{
    lemma2_to64, lemma2_to64_rest, lemma_pow2_pos, lemma_pow2_strictly_increases, lemma_pow2_unfold,
    pow2,
};
use vstd::bits::lemma_u64_shr_is_div;
use vstd::prelude::*;

use crate::base_table::{
    positions, positions_bounded, table_view, BaseBitLayoutState, BaseLayoutInfo, PositionKind,
};
use crate::bits::{bits_value, BitStream, MAX_STREAM_BITS};
use crate::bytes::{
    append_le, append_numbers, concat, le_bytes, list_len, number_parts, numbers_at, read_numbers,
};
use crate::data::{
    copy_sizes, features_width, BitDataInfo, FeatureSpec, InfoView, ReconstructionView,
};
use crate::encoding::compressed::{
    BaseTable, CompressedData, CompressedView, EncodedData, EncodedView, TableView,
};
use crate::encoding::delta_table::order_in_range;
use crate::encoding::deviation::slot_in_bounds;
use crate::error::{bad_metadata, EntroGdError};
use crate::file_format::egd_features::{
    append_features, features_bytes, read_features, read_features_at,
};
use crate::file_format::egd_rows::{
    append_encoded, encoded_bytes, encoded_fits, read_encoded, read_encoded_at, rows_writable,
    RowShape,
};
use crate::file_format::egd_table::{
    append_table, index_bytes, index_size, read_size, read_size_at, read_table, read_table_at,
    table_bytes,
};
use crate::text::numbered;
use crate::utils::{bits_needed, bits_needed_bound, bits_needed_is_least, bits_needed_nonzero};

verus! {

/// The first bytes of a file.
pub const MAGIC_BYTES: [u8; 3] = [69, 71, 68];

/// The version of the format.
pub const FORMAT_VERSION: u8 = 1;

/// The first bytes of a file: magic bytes, version, and the numbers of original rows, of
/// condensed rows and of features.
pub open spec fn header_bytes(original: nat, condensed: nat, features: nat) -> Seq<u8> {
    MAGIC_BYTES@ + seq![FORMAT_VERSION] + le_bytes(original, 8) + le_bytes(condensed, 8) + le_bytes(
        features,
        8,
    )
}

/// What the beginning of a file says, if it is one.
pub open spec fn read_header(bytes: Seq<u8>) -> Option<(nat, nat, nat)> {
    if bytes.len() < 28 || bytes.take(3) != MAGIC_BYTES@ || bytes[3] != FORMAT_VERSION {
        None
    } else {
        match (read_size(bytes, 4), read_size(bytes, 12), read_size(bytes, 20)) {
            (Some((original, a)), Some((condensed, b)), Some((features, c))) => if features == 0 {
                None
            } else {
                Some((original, condensed, features))
            },
            _ => None,
        }
    }
}

/// The weights of compressed data, none where it has no condensed rows.
pub open spec fn weight_list(data: CompressedView) -> Seq<usize> {
    match data.weights {
        Some(weights) => weights,
        None => Seq::empty(),
    }
}

/// The bytes that a weight takes: a condensed row may stand for none of the original rows, for all of
/// them, or for any number between.
pub open spec fn weight_size(original: nat) -> nat {
    index_size(original + 1)
}

/// Whether weights can be written in the bytes they are given.
pub open spec fn weights_fit(weights: Seq<usize>, original: nat) -> bool {
    forall|i: int|
        0 <= i < weights.len() ==> #[trigger] weights[i] < pow2(8 * weight_size(original))
}

/// Counts and widths of the rows of compressed data.
pub open spec fn shape_of(data: CompressedView) -> RowShape {
    let original = data.metadata.original_size_bits / features_width(data.metadata.features);
    RowShape {
        original,
        total: original + weight_list(data).len(),
        num_deviation_bits: (data.layout.len() - positions(
            data.layout,
            PositionKind::Selected,
        ).len()) as nat,
        num_id_bits: bits_needed(data.base_table.num_bases()),
    }
}

/// The number of columns of the base table.
pub open spec fn table_width(layout: Seq<BaseBitLayoutState>) -> nat {
    positions(layout, PositionKind::Variable).len()
}

/// Compressed data as the bytes of a file.
pub open spec fn file_bytes(data: CompressedView) -> Seq<u8> {
    let shape = shape_of(data);
    header_bytes(shape.original, weight_list(data).len(), data.metadata.features.len())
        + features_bytes(data.metadata.features, data.layout) + concat(
        number_parts(weight_list(data), weight_size(shape.original)),
    ) + table_bytes(data.base_table, table_width(data.layout)) + encoded_bytes(
        data.encoded,
        shape.width(),
    )
}

/// Whether compressed data can be written: counts are machine words, weights and counts of encoded
/// rows fit their fields, the order of columns names ones that exist, and runs can be written out or
/// counted.
pub open spec fn writes(data: CompressedView) -> bool {
    &&& shape_of(data).total <= usize::MAX
    &&& weights_fit(weight_list(data), shape_of(data).original)
    &&& data.base_table matches TableView::Delta(delta) ==> order_in_range(
        delta.order,
        table_width(data.layout),
    )
    &&& rows_writable(data.encoded)
}

/// The base number of a row.
pub open spec fn base_of(rows: EncodedView, s: int) -> nat {
    bits_value((rows.sample(s)->0).id)
}

/// How many of the first `n` rows have a base.
pub open spec fn occurrences(rows: EncodedView, base: int, n: int) -> nat
    decreases n,
{
    if n <= 0 {
        0
    } else if base_of(rows, n - 1) == base {
        occurrences(rows, base, n - 1) + 1
    } else {
        occurrences(rows, base, n - 1)
    }
}

/// Whether each row has a base of the table.
pub open spec fn bases_exist(rows: EncodedView, num_bases: nat, n: int) -> bool {
    forall|s: int|
        0 <= s < n ==> (#[trigger] rows.sample(s)) is Some && base_of(rows, s) < num_bases
}

/// A base table with the number of rows that have each base, where it is kept row by row.
pub open spec fn counted(table: TableView, rows: EncodedView) -> Option<TableView> {
    match table {
        TableView::Raw(bases) => if bases.len() == 0 {
            Some(table)
        } else if bases_exist(rows, bases.len(), rows.num_samples() as int) {
            Some(
                TableView::Raw(
                    Seq::new(
                        bases.len(),
                        |i: int|
                            (
                                bases[i].0,
                                occurrences(rows, i, rows.num_samples() as int) as usize,
                            ),
                    ),
                ),
            )
        } else {
            None
        },
        TableView::Delta(delta) => Some(table),
    }
}

/// The order of the columns of a base table.
pub open spec fn order_of(table: TableView) -> Option<Seq<usize>> {
    match table {
        TableView::Raw(rows) => None,
        TableView::Delta(delta) => Some(delta.order),
    }
}

/// The weights at a position, and where they end.
pub open spec fn read_weights(bytes: Seq<u8>, position: int, count: nat, size: nat) -> Option<
    (Seq<usize>, int),
> {
    let end = position + count * size;
    if end <= bytes.len() {
        let numbers = numbers_at(bytes, position, count, size);
        Some((Seq::new(count, |i: int| numbers[i] as usize), end))
    } else {
        None
    }
}

/// Compressed data from its parts.
pub open spec fn assembled(
    features: Seq<FeatureSpec>,
    states: Seq<BaseBitLayoutState>,
    weights: Seq<usize>,
    table: TableView,
    rows: EncodedView,
    original: nat,
) -> CompressedView {
    let kept = if weights.len() == 0 {
        None
    } else {
        Some(weights)
    };
    CompressedView {
        encoded: rows,
        weights: kept,
        base_table: table,
        layout: states,
        order: order_of(table),
        metadata: InfoView {
            features,
            original_size_bits: original * features_width(features),
            row_stride: features_width(features),
            weights: kept,
            reconstruction: ReconstructionView::Tabular {
                names: Seq::empty(),
                types: Seq::empty(),
            },
        },
    }
}

/// The rows behind the base table, with that table counted, as compressed data.
pub open spec fn read_rest(
    bytes: Seq<u8>,
    position: int,
    features: Seq<FeatureSpec>,
    states: Seq<BaseBitLayoutState>,
    weights: Seq<usize>,
    table: TableView,
    original: nat,
) -> Option<CompressedView> {
    let shape = RowShape {
        original,
        total: original + weights.len(),
        num_deviation_bits: (states.len() - positions(states, PositionKind::Selected).len()) as nat,
        num_id_bits: bits_needed(table.num_bases()),
    };
    if shape.total > usize::MAX {
        None
    } else {
        match read_encoded(bytes, position, shape) {
            Some(rows) => match counted(table, rows) {
                Some(full) => if original * states.len() > usize::MAX {
                    None
                } else {
                    Some(assembled(features, states, weights, full, rows, original))
                },
                None => None,
            },
            None => None,
        }
    }
}

/// The compressed data that the bytes of a file stand for, if they do.
pub open spec fn read_file(bytes: Seq<u8>) -> Option<CompressedView> {
    match read_header(bytes) {
        Some((original, condensed, count)) => match read_features(bytes, 28, count) {
            Some(((features, states), a)) => match read_weights(
                bytes,
                a,
                condensed,
                weight_size(original),
            ) {
                Some((weights, b)) => match read_table(bytes, b, table_width(states)) {
                    Some((table, c)) => read_rest(
                        bytes,
                        c,
                        features,
                        states,
                        weights,
                        table,
                        original,
                    ),
                    None => None,
                },
                None => None,
            },
            None => None,
        },
        None => None,
    }
}

/// Compressed data as the bytes of a file.
#[derive(Debug, PartialEq, Eq)]
pub struct EgdFile {
    pub bytes: Vec<u8>,
}

impl View for EgdFile {
    type V = Seq<u8>;

    open spec fn view(&self) -> Seq<u8> {
        self.bytes@
    }
}

/// The base number of a decoded row has the width of base numbers.
proof fn base_number_width(rows: EncodedData, s: int)
    requires
        rows.valid(),
        0 <= s < rows@.num_samples(),
        rows@.sample(s) is Some,
    ensures
        (rows@.sample(s)->0).id.len() == rows@.num_id_bits(),
{
    match rows {
        EncodedData::Normal(data) => {
            slot_in_bounds(s, data@.num_samples as int, data@.symbol_width() as int);
        },
        EncodedData::Rle(data) => {
            crate::encoding::rle::source_in_bounds(data@.pairs, s);
            let width = data@.symbol_width() as int;
            let symbol = crate::encoding::rle::source(data@.pairs, s);
            assert(0 <= symbol * width) by (nonlinear_arith)
                requires
                    0 <= symbol,
                    0 <= width,
            ;
        },
        EncodedData::RleOffset(data) => {
            let view = data@;
            let (start, index) = if view.row_width > 0 && s < view.original_num_samples {
                (
                    view.row_offsets[s / view.row_width as int].0 as int,
                    s % view.row_width as int,
                )
            } else {
                (0, s)
            };
            if view.row_width > 0 && s < view.original_num_samples {
                let w = view.row_width as int;
                assert(s / w >= 0 && s % w >= 0) by (nonlinear_arith)
                    requires
                        0 <= s,
                        0 < w,
                ;
            } else {
                assert(view.pairs.skip(0) =~= view.pairs);
            }
            let pairs = view.pairs.skip(start);
            crate::encoding::rle::source_in_bounds(pairs, index);
            let width = view.symbol_width() as int;
            let symbol = crate::encoding::rle::source(pairs, index);
            assert(0 <= symbol * width) by (nonlinear_arith)
                requires
                    0 <= symbol,
                    0 <= width,
            ;
        },
        EncodedData::Huffman(data) => {},
    }
}

/// No base occurs more often than there are rows.
proof fn occurrences_bound(rows: EncodedView, base: int, n: int)
    requires
        0 <= n,
    ensures
        occurrences(rows, base, n) <= n,
    decreases n,
{
    if n > 0 {
        occurrences_bound(rows, base, n - 1);
    }
}

/// Counts how many rows have each base.
fn count_bases(rows: &EncodedData, num_bases: usize) -> (result: Result<Vec<usize>, EntroGdError>)
    requires
        rows.valid(),
        1 <= rows@.num_id_bits() <= 64,
    ensures
        result is Ok <==> bases_exist(rows@, num_bases as nat, rows@.num_samples() as int),
        result matches Ok(counts) ==> counts@.len() == num_bases && (forall|i: int|
            0 <= i < num_bases ==> #[trigger] counts@[i] == occurrences(
                rows@,
                i,
                rows@.num_samples() as int,
            )),
        result matches Err(error) ==> error is InvalidMetadata,
{
    let mut counts: Vec<usize> = Vec::new();
    let mut i: usize = 0;
    while i < num_bases
        invariant
            i <= num_bases,
            counts@.len() == i,
            forall|k: int| 0 <= k < i ==> #[trigger] counts@[k] == 0,
        decreases num_bases - i,
    {
        counts.push(0);
        i += 1;
    }
    let total: usize = rows.get_num_samples();
    let mut s: usize = 0;
    while s < total
        invariant
            s <= total == rows@.num_samples(),
            rows.valid(),
            1 <= rows@.num_id_bits() <= 64,
            counts@.len() == num_bases,
            bases_exist(rows@, num_bases as nat, s as int),
            forall|k: int|
                0 <= k < num_bases ==> #[trigger] counts@[k] == occurrences(rows@, k, s as int),
        decreases total - s,
    {
        match rows.get_sample(s) {
            Some(sample) => {
                proof {
                    base_number_width(*rows, s as int);
                    assert(rows@.sample(s as int) is Some);
                }
                let width: usize = sample.id.bit_len();
                let base: u64 = sample.id.number_at(0, width);
                assert(sample.id@.subrange(0, width as int) =~= sample.id@);
                assert(base_of(rows@, s as int) == base);
                if base >= num_bases as u64 {
                    assert(!bases_exist(rows@, num_bases as nat, total as int));
                    return Err(
                        EntroGdError::InvalidMetadata {
                            message: numbered(
                                "encoded base id out of range for a number of bases of ",
                                num_bases,
                            ),
                        },
                    );
                }
                let found: usize = base as usize;
                proof {
                    occurrences_bound(rows@, found as int, s as int);
                }
                counts.set(found, counts[found] + 1);
            },
            None => {
                assert(!bases_exist(rows@, num_bases as nat, total as int)) by {
                    assert(rows@.sample(s as int) is None);
                }
                return Err(
                    EntroGdError::InvalidMetadata {
                        message: numbered("failed to decode sample ", s),
                    },
                );
            },
        }
        s += 1;
    }
    Ok(counts)
}

/// The bytes that a weight takes.
fn weight_bytes(original: usize) -> (size: usize)
    ensures
        size == weight_size(original as nat),
        1 <= size <= 8,
{
    if original < usize::MAX {
        index_bytes(original + 1)
    } else {
        proof {
            let k = usize::BITS as nat;
            let all = (usize::MAX + 1) as nat;
            lemma2_to64();
            lemma2_to64_rest();
            assert(all == pow2(k));
            assert(pow2(k) == 2 * pow2((k - 1) as nat)) by {
                lemma_pow2_unfold(k);
            }
            bits_needed_bound(all, k);
            bits_needed_bound(usize::MAX as nat, k);
            bits_needed_is_least(all);
            bits_needed_is_least(usize::MAX as nat);
            if bits_needed(all) < k {
                lemma_pow2_strictly_increases(bits_needed(all), k);
            }
            if bits_needed(usize::MAX as nat) < k - 1 {
                lemma_pow2_strictly_increases(bits_needed(usize::MAX as nat), (k - 1) as nat);
            }
        }
        index_bytes(original)
    }
}

/// Whether weights can be written in some bytes.
fn check_weights(weights: &Vec<usize>, size: usize) -> (fit: bool)
    requires
        1 <= size <= 8,
    ensures
        fit == (forall|i: int| 0 <= i < weights@.len() ==> #[trigger] weights@[i] < pow2(
            (8 * size) as nat,
        )),
{
    if size == 8 {
        proof {
            lemma2_to64();
        }
        return true;
    }
    let mut i: usize = 0;
    while i < weights.len()
        invariant
            i <= weights@.len(),
            1 <= size < 8,
            forall|k: int| 0 <= k < i ==> #[trigger] weights@[k] < pow2((8 * size) as nat),
        decreases weights@.len() - i,
    {
        let weight: u64 = weights[i] as u64;
        let shift: u64 = 8 * size as u64;
        let high: u64 = weight >> shift;
        proof {
            lemma_u64_shr_is_div(weight, shift);
            lemma_pow2_pos(shift as nat);
            let p = pow2(shift as nat) as int;
            let w = weight as int;
            assert((w / p == 0) == (w < p)) by (nonlinear_arith)
                requires
                    0 <= w,
                    0 < p,
            ;
        }
        if high != 0 {
            assert(weights@[i as int] >= pow2((8 * size) as nat));
            return false;
        }
        i += 1;
    }
    true
}

/// A base table with the number of rows that have each base, where it is kept row by row.
fn with_counts(table: BaseTable, rows: &EncodedData) -> (result: Result<BaseTable, EntroGdError>)
    requires
        rows.valid(),
        1 <= rows@.num_id_bits() <= 64,
    ensures
        match counted(table@, rows@) {
            Some(full) => result matches Ok(found) && found@ == full,
            None => result matches Err(error) && error is InvalidMetadata,
        },
{
    match table {
        BaseTable::Raw(bases) => {
            let ghost before = table_view(bases@);
            if bases.len() == 0 {
                return Ok(BaseTable::Raw(bases));
            }
            let counts = match count_bases(rows, bases.len()) {
                Ok(counts) => counts,
                Err(error) => {
                    return Err(error);
                },
            };
            let mut full: Vec<(BitStream, usize)> = Vec::new();
            let mut i: usize = 0;
            while i < bases.len()
                invariant
                    i <= bases@.len() == counts@.len(),
                    before == table_view(bases@),
                    full@.len() == i,
                    forall|k: int|
                        0 <= k < i ==> (#[trigger] full@[k]).0@ == before[k].0 && full@[k].1
                            == counts@[k],
                decreases bases@.len() - i,
            {
                full.push((bases[i].0.clone(), counts[i]));
                i += 1;
            }
            let result = BaseTable::Raw(full);
            assert(result@ =~= counted(table@, rows@)->0) by {
                assert(table_view(full@) =~= (counted(table@, rows@)->0)->Raw_0);
            }
            Ok(result)
        },
        BaseTable::Delta(delta) => Ok(BaseTable::Delta(delta)),
    }
}

impl EgdFile {
    /// Compressed data as the bytes of a file.
    pub fn from_compressed_data(compressed: CompressedData) -> (result: Result<
        EgdFile,
        EntroGdError,
    >)
        requires
            compressed.valid(),
            2 * compressed@.layout.len() <= MAX_STREAM_BITS,
            encoded_fits(compressed@.encoded, shape_of(compressed@).width()),
        ensures
            result is Ok <==> writes(compressed@),
            result matches Ok(file) ==> file@ == file_bytes(compressed@),
            result matches Err(error) ==> error is InvalidMetadata,
    {
        let ghost data = compressed@;
        let metadata = &compressed.metadata;
        let original: usize = metadata.original_size_bits() / metadata.chunk_size();
        let weights: Vec<usize> = match &compressed.condensed_sample_weights {
            Some(list) => copy_sizes(list),
            None => Vec::new(),
        };
        let condensed: usize = weights.len();
        proof {
            positions_bounded(data.layout, PositionKind::Selected);
            positions_bounded(data.layout, PositionKind::Variable);
            assert(weights@ == weight_list(data));
        }
        if original.checked_add(condensed).is_none() {
            return Err(bad_metadata("n + m overflows usize"));
        }
        let size: usize = weight_bytes(original);
        if !check_weights(&weights, size) {
            return Err(bad_metadata("a condensed sample weight exceeds the number of samples"));
        }
        let selected = compressed.layout.selected_base_bit_positions();
        let num_deviation_bits: usize = compressed.layout.bit_states.len() - selected.len();
        let num_id_bits: usize = bits_needed_nonzero(compressed.base_table.len());
        let variable = compressed.layout.variable_base_bit_positions();
        let mut bytes: Vec<u8> = Vec::new();
        bytes.push(69);
        bytes.push(71);
        bytes.push(68);
        bytes.push(FORMAT_VERSION);
        append_le(&mut bytes, original as u64, 8);
        append_le(&mut bytes, condensed as u64, 8);
        append_le(&mut bytes, metadata.num_features() as u64, 8);
        proof {
            assert(MAGIC_BYTES@ =~= seq![69u8, 71, 68]);
            assert(bytes@ =~= header_bytes(
                original as nat,
                condensed as nat,
                data.metadata.features.len(),
            ));
        }
        append_features(&mut bytes, metadata.features(), &compressed.layout.bit_states);
        append_numbers(&mut bytes, &weights, size);
        match append_table(&mut bytes, &compressed.base_table, variable.len()) {
            Ok(()) => {},
            Err(error) => {
                return Err(error);
            },
        }
        match append_encoded(
            &mut bytes,
            &compressed.encoded_data,
            num_deviation_bits + num_id_bits,
        ) {
            Ok(()) => {},
            Err(error) => {
                return Err(error);
            },
        }
        Ok(EgdFile { bytes })
    }

    /// A file from its bytes.
    pub fn from_bytes(bytes: Vec<u8>) -> (file: EgdFile)
        ensures
            file@ == bytes@,
    {
        EgdFile { bytes }
    }

    /// The bytes of the file.
    pub fn as_bytes(&self) -> (bytes: &Vec<u8>)
        ensures
            bytes@ == self@,
    {
        &self.bytes
    }

    /// Reads the header.
    fn read_header(&self) -> (result: Result<(usize, usize, usize), EntroGdError>)
        ensures
            match read_header(self@) {
                Some((original, condensed, features)) => result is Ok && (result->Ok_0).0
                    == original && (result->Ok_0).1 == condensed && (result->Ok_0).2 == features
                    && self@.len() >= 28,
                None => result matches Err(error) && error is InvalidMetadata,
            },
    {
        let bytes = &self.bytes;
        if bytes.len() < 28 {
            return Err(bad_metadata("EGD file too short for header"));
        }
        proof {
            assert(MAGIC_BYTES@ =~= seq![69u8, 71, 68]);
            assert(self@.take(3) =~= seq![self@[0], self@[1], self@[2]]);
            if self@[0] == 69 && self@[1] == 71 && self@[2] == 68 {
                assert(self@.take(3) =~= MAGIC_BYTES@);
            } else {
                assert(self@.take(3)[0] == self@[0]);
                assert(self@.take(3)[1] == self@[1]);
                assert(self@.take(3)[2] == self@[2]);
                assert(self@.take(3) != MAGIC_BYTES@);
            }
        }
        if bytes[0] != 69 || bytes[1] != 71 || bytes[2] != 68 {
            return Err(bad_metadata("invalid magic bytes (expected EGD)"));
        }
        if bytes[3] != FORMAT_VERSION {
            return Err(
                EntroGdError::InvalidMetadata {
                    message: numbered("unsupported format version ", bytes[3] as usize),
                },
            );
        }
        let original: usize = match read_size_at(bytes, 4) {
            Ok((value, at)) => value,
            Err(error) => {
                return Err(error);
            },
        };
        let condensed: usize = match read_size_at(bytes, 12) {
            Ok((value, at)) => value,
            Err(error) => {
                return Err(error);
            },
        };
        let features: usize = match read_size_at(bytes, 20) {
            Ok((value, at)) => value,
            Err(error) => {
                return Err(error);
            },
        };
        if features == 0 {
            return Err(bad_metadata("num_features is 0"));
        }
        Ok((original, condensed, features))
    }

    /// Reads the weights at a position.
    fn read_weights(&self, position: usize, count: usize, size: usize) -> (result: Result<
        (Vec<usize>, usize),
        EntroGdError,
    >)
        requires
            position <= self@.len(),
            size <= 8,
        ensures
            match read_weights(self@, position as int, count as nat, size as nat) {
                Some((weights, end)) => result is Ok && (result->Ok_0).0@ == weights && (
                result->Ok_0).1 == end && end <= self@.len(),
                None => result matches Err(error) && error is InvalidMetadata,
            },
    {
        let total: usize = self.bytes.len();
        let needed: usize = match list_len(count, size) {
            Some(needed) => needed,
            None => {
                return Err(bad_metadata("unexpected end of EGD while reading condensed weights"));
            },
        };
        if total - position < needed {
            return Err(bad_metadata("unexpected end of EGD while reading condensed weights"));
        }
        let values = read_numbers(&self.bytes, position, count, size);
        let ghost numbers = numbers_at(self@, position as int, count as nat, size as nat);
        let mut weights: Vec<usize> = Vec::new();
        let mut i: usize = 0;
        while i < count
            invariant
                i <= count == values@.len() == numbers.len(),
                forall|k: int| 0 <= k < count ==> #[trigger] values@[k] == numbers[k],
                weights@.len() == i,
                forall|k: int| 0 <= k < i ==> #[trigger] weights@[k] == numbers[k] as usize,
            decreases count - i,
        {
            weights.push(values[i] as usize);
            i += 1;
        }
        assert(weights@ =~= Seq::new(count as nat, |k: int| numbers[k] as usize));
        Ok((weights, position + needed))
    }

    /// Reads the rows behind the base table and puts all parts together.
    fn read_rest(
        &self,
        position: usize,
        features: Vec<FeatureSpec>,
        states: Vec<BaseBitLayoutState>,
        weights: Vec<usize>,
        table: BaseTable,
        original: usize,
    ) -> (result: Result<CompressedData, EntroGdError>)
        requires
            8 * self@.len() <= MAX_STREAM_BITS,
            features@.len() > 0,
            states@.len() == features_width(features@),
            0 < states@.len() <= MAX_STREAM_BITS,
        ensures
            match read_rest(
                self@,
                position as int,
                features@,
                states@,
                weights@,
                table@,
                original as nat,
            ) {
                Some(data) => result matches Ok(found) && found@ == data && found.valid(),
                None => result matches Err(error) && error is InvalidMetadata,
            },
    {
        proof {
            positions_bounded(states@, PositionKind::Selected);
        }
        let total: usize = match original.checked_add(weights.len()) {
            Some(total) => total,
            None => {
                return Err(bad_metadata("n + m overflows usize"));
            },
        };
        let chunk_size: usize = states.len();
        let layout = BaseLayoutInfo::from_bit_states(states);
        let selected = layout.selected_base_bit_positions();
        let num_deviation_bits: usize = chunk_size - selected.len();
        let num_id_bits: usize = bits_needed_nonzero(table.len());
        let encoded_data = match read_encoded_at(
            &self.bytes,
            position,
            original,
            total,
            num_deviation_bits,
            num_id_bits,
        ) {
            Ok(rows) => rows,
            Err(error) => {
                return Err(error);
            },
        };
        proof {
            encoded_has_shape(
                self@,
                position as int,
                (RowShape {
                    original: original as nat,
                    total: total as nat,
                    num_deviation_bits: num_deviation_bits as nat,
                    num_id_bits: num_id_bits as nat,
                }),
            );
        }
        let base_table = match with_counts(table, &encoded_data) {
            Ok(table) => table,
            Err(error) => {
                return Err(error);
            },
        };
        let original_size_bits: usize = match list_len(original, chunk_size) {
            Some(bits) => bits,
            None => {
                return Err(bad_metadata("original size overflow"));
            },
        };
        let mut metadata = match BitDataInfo::new(features, original_size_bits) {
            Ok(info) => info,
            Err(error) => {
                return Err(bad_metadata("features is empty"));
            },
        };
        let order: Option<Vec<usize>> = match &base_table {
            BaseTable::Raw(rows) => None,
            BaseTable::Delta(delta) => Some(copy_sizes(&delta.sort_column_order)),
        };
        let kept: Option<Vec<usize>> = if weights.len() == 0 {
            None
        } else {
            Some(copy_sizes(&weights))
        };
        let condensed_sample_weights: Option<Vec<usize>> = if weights.len() == 0 {
            None
        } else {
            Some(weights)
        };
        metadata.set_condensed_sample_weights(kept);
        Ok(
            CompressedData {
                encoded_data,
                condensed_sample_weights,
                base_table,
                layout,
                entropy_sorted_column_order: order,
                metadata,
            },
        )
    }

    /// The compressed data that the bytes of the file stand for.
    pub fn to_compressed_data(&self) -> (result: Result<CompressedData, EntroGdError>)
        requires
            8 * self@.len() <= MAX_STREAM_BITS,
        ensures
            match read_file(self@) {
                Some(data) => result matches Ok(found) && found@ == data && found.valid(),
                None => result matches Err(error) && error is InvalidMetadata,
            },
    {
        let (original, condensed, count) = match self.read_header() {
            Ok(found) => found,
            Err(error) => {
                return Err(error);
            },
        };
        let (features, states, a) = match read_features_at(&self.bytes, 28, count) {
            Ok(found) => found,
            Err(error) => {
                return Err(error);
            },
        };
        let (weights, b) = match self.read_weights(a, condensed, weight_bytes(original)) {
            Ok(found) => found,
            Err(error) => {
                return Err(error);
            },
        };
        proof {
            positions_bounded(states@, PositionKind::Variable);
        }
        let layout = BaseLayoutInfo::from_bit_states(states);
        let width: usize = layout.variable_base_bit_positions().len();
        let (table, c) = match read_table_at(&self.bytes, b, width) {
            Ok(found) => found,
            Err(error) => {
                return Err(error);
            },
        };
        self.read_rest(c, features, layout.bit_states, weights, table, original)
    }
}

/// Rows that were read have the shape that was asked for.
proof fn encoded_has_shape(bytes: Seq<u8>, position: int, shape: RowShape)
    ensures
        read_encoded(bytes, position, shape) matches Some(rows) ==> rows.num_samples()
            == shape.total && rows.num_deviation_bits() == shape.num_deviation_bits
            && rows.num_id_bits() == shape.num_id_bits,
{
}

/// A base counts the rows that have its number, each once, and no others.
pub proof fn base_counts_its_rows(rows: EncodedView, base: int, n: int)
    requires
        0 <= n,
    ensures
        occurrences(rows, base, n) == Seq::new(n as nat, |s: int| base_of(rows, s)).filter(
            |id: nat| id == base,
        ).len(),
    decreases n,
{
    reveal(Seq::filter);
    let ids = Seq::new(n as nat, |s: int| base_of(rows, s));
    if n > 0 {
        base_counts_its_rows(rows, base, n - 1);
        assert(ids.drop_last() =~= Seq::new((n - 1) as nat, |s: int| base_of(rows, s)));
    }
}

/// A weight of any number of rows up to all of them fits the bytes of a weight, and in one byte fewer,
/// where there is more than one, the number of all rows would not.
pub proof fn weight_bytes_are_enough(weight: nat, original: nat)
    requires
        weight <= original,
    ensures
        1 <= weight_size(original),
        weight < pow2(8 * weight_size(original)),
        weight_size(original) > 1 ==> original >= pow2((8 * (weight_size(original) - 1)) as nat),
{
    let bits = bits_needed(original + 1);
    let size = weight_size(original);
    bits_needed_is_least(original + 1);
    if bits < 8 * size {
        lemma_pow2_strictly_increases(bits, 8 * size);
    }
    if size > 1 {
        let fewer = (8 * (size - 1)) as nat;
        if fewer < bits - 1 {
            lemma_pow2_strictly_increases(fewer, (bits - 1) as nat);
        }
    }
}

} // verus!
