//! Rows whose base numbers are written as prefix codes.
use fxhash::FxHashMap;
use vstd::arithmetic::power2::{lemma2_to64, lemma_pow2_pos, pow2};
use vstd::bits::lemma_u64_shr_is_div;
use vstd::prelude::*;

use crate::bits::{join, join_push, join_uniform, low_digits, BitStream, MAX_STREAM_BITS};
use crate::encoding::deviation::{
    slot, slot_in_bounds, DeviationData, DeviationSample, DeviationView, SampleView,
};
use crate::encoding::huffman::{
    canonical, code_at, code_stands_at, codes_are_prefix_free, later_code_is_greater, pow2_small,
    rebuild_huffman_codes, spelled, spelled_bound, HuffmanCode,
};
use crate::encoding::rle_data::sample_view;
use crate::error::{bad_metadata, EntroGdError};
use crate::maps::{copy_symbols, get_symbol, no_symbols, put_symbol};
use crate::text::two_numbers;

verus! {

/// The bits that the length of a code takes in size estimates.
pub const HUFFMAN_CODE_LENGTH_BITS: usize = 5;

/// The entry of a code table whose code stands at a position of a stream.
pub open spec fn entry_at(lengths: Seq<u8>, bits: Seq<bool>, position: int) -> Option<int> {
    if exists|k: int| 0 <= k < lengths.len() && code_stands_at(lengths, bits, position, k) {
        Some(choose|k: int| 0 <= k < lengths.len() && code_stands_at(lengths, bits, position, k))
    } else {
        None
    }
}

/// The first `count` symbols of a stream from a position on, and where they end.
pub open spec fn decoded(
    symbols: Seq<u64>,
    lengths: Seq<u8>,
    bits: Seq<bool>,
    position: int,
    count: nat,
) -> Option<(Seq<u64>, int)>
    decreases count,
{
    if count == 0 {
        Some((Seq::empty(), position))
    } else {
        match decoded(symbols, lengths, bits, position, (count - 1) as nat) {
            Some((list, at)) => match entry_at(lengths, bits, at) {
                Some(k) => Some((list.push(symbols[k]), at + lengths[k])),
                None => None,
            },
            None => None,
        }
    }
}

/// Symbols can only be decoded where all before them can, and they end inside the stream.
pub proof fn decoded_prefix(
    symbols: Seq<u64>,
    lengths: Seq<u8>,
    bits: Seq<bool>,
    position: int,
    few: nat,
    many: nat,
)
    requires
        few <= many,
        decoded(symbols, lengths, bits, position, many) is Some,
        0 <= position <= bits.len(),
    ensures
        decoded(symbols, lengths, bits, position, few) matches Some((list, at)) && list.len() == few
            && position <= at <= bits.len() && list == (decoded(
            symbols,
            lengths,
            bits,
            position,
            many,
        )->0).0.take(few as int),
    decreases many,
{
    if few < many {
        decoded_prefix(symbols, lengths, bits, position, few, (many - 1) as nat);
        decoded_prefix(symbols, lengths, bits, position, (many - 1) as nat, (many - 1) as nat);
        let before = (decoded(symbols, lengths, bits, position, (many - 1) as nat)->0).0;
        let all = (decoded(symbols, lengths, bits, position, many)->0).0;
        assert(all.take(few as int) =~= before.take(few as int));
    } else if many > 0 {
        decoded_prefix(symbols, lengths, bits, position, (many - 1) as nat, (many - 1) as nat);
        let all = (decoded(symbols, lengths, bits, position, many)->0).0;
        assert(all.take(many as int) =~= all);
    } else {
        assert(Seq::<u64>::empty().take(0) =~= Seq::<u64>::empty());
    }
}

/// What cannot be decoded stays so with more symbols.
pub proof fn undecodable_stays(
    symbols: Seq<u64>,
    lengths: Seq<u8>,
    bits: Seq<bool>,
    position: int,
    few: nat,
    many: nat,
)
    requires
        few <= many,
        decoded(symbols, lengths, bits, position, few) is None,
    ensures
        decoded(symbols, lengths, bits, position, many) is None,
    decreases many - few,
{
    if few < many {
        undecodable_stays(symbols, lengths, bits, position, few, (many - 1) as nat);
    }
}

/// Rows as deviation bits of one width and base numbers in prefix codes.
#[derive(Debug, PartialEq, Eq)]
pub struct HuffmanDeviationData {
    pub pixel_bit_stream: BitStream,
    pub raw_deviation_bit_stream: BitStream,
    pub canonical_symbols: Vec<u64>,
    pub canonical_code_lengths: Vec<u8>,
    pub row_offsets: Vec<u32>,
    pub num_samples: usize,
    pub original_num_samples: usize,
    pub num_deviation_bits: usize,
    pub num_id_bits: usize,
    pub row_width: usize,
    pub max_code_length: u8,
    pub decode_by_length: Vec<FxHashMap<u32, u64>>,
    pub original_stream_end_offset_bits: usize,
}

/// The content of rows whose base numbers are in prefix codes.
#[verifier::ext_equal]
pub struct HuffmanView {
    pub pixels: Seq<bool>,
    pub deviations: Seq<bool>,
    pub symbols: Seq<u64>,
    pub lengths: Seq<u8>,
    pub row_offsets: Seq<u32>,
    pub num_samples: nat,
    pub original_num_samples: nat,
    pub num_deviation_bits: nat,
    pub num_id_bits: nat,
    pub row_width: nat,
}

impl View for HuffmanDeviationData {
    type V = HuffmanView;

    open spec fn view(&self) -> HuffmanView {
        HuffmanView {
            pixels: self.pixel_bit_stream@,
            deviations: self.raw_deviation_bit_stream@,
            symbols: self.canonical_symbols@,
            lengths: self.canonical_code_lengths@,
            row_offsets: self.row_offsets@,
            num_samples: self.num_samples as nat,
            original_num_samples: self.original_num_samples as nat,
            num_deviation_bits: self.num_deviation_bits as nat,
            num_id_bits: self.num_id_bits as nat,
            row_width: self.row_width as nat,
        }
    }
}

impl HuffmanView {
    /// How many groups the original rows make up.
    pub open spec fn row_count(self) -> nat {
        if self.original_num_samples == 0 {
            0
        } else {
            self.original_num_samples / self.row_width
        }
    }

    /// The first `count` base numbers from a position on, and where they end.
    pub open spec fn ids(self, position: int, count: nat) -> Option<(Seq<u64>, int)> {
        decoded(self.symbols, self.lengths, self.pixels, position, count)
    }

    /// Where the base numbers of the original rows end, decoded from the last group's start.
    pub open spec fn original_end(self) -> Option<int> {
        if self.original_num_samples == 0 {
            Some(0)
        } else {
            match self.ids(self.row_offsets.last() as int, self.row_width) {
                Some((list, at)) => Some(at),
                None => None,
            }
        }
    }

    /// Whether the code table can be decoded, the group starts lie inside the stream, no one
    /// before an earlier one, and all declared sizes are those of the data.
    pub open spec fn well_formed(self) -> bool {
        &&& self.original_num_samples <= self.num_samples
        &&& self.original_num_samples > 0 ==> self.row_width > 0 && self.original_num_samples
            % self.row_width == 0
        &&& self.row_offsets.len() == self.row_count()
        &&& self.num_id_bits <= 64
        &&& self.deviations.len() == self.num_samples * self.num_deviation_bits
        &&& canonical(self.symbols, self.lengths)
        &&& forall|k: int|
            0 <= k < self.symbols.len() ==> (#[trigger] self.symbols[k]) < pow2(self.num_id_bits)
        &&& self.num_samples > 0 ==> self.symbols.len() > 0
        &&& forall|k: int|
            0 <= k < self.row_offsets.len() ==> #[trigger] self.row_offsets[k] <= self.pixels.len()
        &&& forall|j: int, k: int|
            0 <= j < k < self.row_offsets.len() ==> #[trigger] self.row_offsets[j]
                <= #[trigger] self.row_offsets[k]
        &&& self.original_end() is Some
    }

    /// The base number of the row at an index: that of an original row is decoded from the start
    /// of its group, any other one from the end of the original rows.
    pub open spec fn id_of(self, index: int) -> Option<u64> {
        let (start, count) = if index < self.original_num_samples {
            (
                self.row_offsets[index / self.row_width as int] as int,
                (index % self.row_width as int + 1) as nat,
            )
        } else {
            (self.original_end()->0, (index - self.original_num_samples + 1) as nat)
        };
        match self.ids(start, count) {
            Some((list, at)) => Some(list.last()),
            None => None,
        }
    }

    /// A row from its base number.
    pub open spec fn row_with(self, index: int, id: u64) -> SampleView {
        SampleView {
            deviation: slot(self.deviations, self.num_deviation_bits, index),
            id: low_digits(id as nat, self.num_id_bits),
        }
    }

    /// The row at an index.
    pub open spec fn sample(self, index: int) -> Option<SampleView> {
        if index >= self.num_samples {
            None
        } else {
            match self.id_of(index) {
                Some(id) => Some(self.row_with(index, id)),
                None => None,
            }
        }
    }

    /// The rows as symbols of one width, given their base numbers.
    pub open spec fn rows(self, ids: Seq<u64>) -> Seq<Seq<bool>> {
        Seq::new(
            ids.len(),
            |s: int|
                slot(self.deviations, self.num_deviation_bits, s) + low_digits(
                    ids[s] as nat,
                    self.num_id_bits,
                ),
        )
    }

    /// The size of the encoded rows in bits: counts and widths, the group starts, the code table,
    /// the deviation bits and the codes.
    pub open spec fn encoded_size(self) -> nat {
        64 + self.row_offsets.len() * 32 + self.symbols.len() * (self.num_id_bits + 5)
            + self.deviations.len() + self.pixels.len()
    }
}

/// Whether the maps of a code table hold just its first `n` codes, each under its length.
pub open spec fn maps_hold(
    maps: Seq<FxHashMap<u32, u64>>,
    symbols: Seq<u64>,
    lengths: Seq<u8>,
    n: int,
) -> bool {
    &&& forall|k: int|
        0 <= k < n ==> (#[trigger] lengths[k]) < maps.len() && maps[lengths[k] as int]@.contains_key(
            code_at(lengths, k) as u32,
        ) && maps[lengths[k] as int]@[code_at(lengths, k) as u32] == symbols[k]
    &&& forall|len: int, code: u32|
        0 <= len < maps.len() && #[trigger] maps[len]@.contains_key(code) ==> exists|k: int|
            0 <= k < n && (#[trigger] lengths[k]) == len && code_at(lengths, k) == code
}

impl HuffmanDeviationData {
    /// Whether the content is sound and the decoding tables belong to it.
    pub open spec fn valid(self) -> bool {
        &&& self@.well_formed()
        &&& maps_hold(
            self.decode_by_length@,
            self.canonical_symbols@,
            self.canonical_code_lengths@,
            self.canonical_code_lengths@.len() as int,
        )
        &&& self.decode_by_length@.len() == self.max_code_length + 1
        &&& self.max_code_length <= 24
        &&& self@.original_end() == Some(self.original_stream_end_offset_bits as int)
        &&& self.original_stream_end_offset_bits <= self@.pixels.len()
    }
}

/// Decodes the symbol whose code stands at a position.
fn decode_one(
    pixels: &BitStream,
    maps: &Vec<FxHashMap<u32, u64>>,
    bit_pos: usize,
    canonical_symbols: &Vec<u64>,
    canonical_code_lengths: &Vec<u8>,
) -> (result: Result<(u64, usize), EntroGdError>)
    requires
        canonical(canonical_symbols@, canonical_code_lengths@),
        maps_hold(
            maps@,
            canonical_symbols@,
            canonical_code_lengths@,
            canonical_code_lengths@.len() as int,
        ),
        1 <= maps@.len() <= 25,
        bit_pos <= pixels@.len(),
    ensures
        match entry_at(canonical_code_lengths@, pixels@, bit_pos as int) {
            Some(k) => result is Ok && (result->Ok_0).0 == canonical_symbols@[k] && (
            result->Ok_0).1 == canonical_code_lengths@[k] && bit_pos + (result->Ok_0).1
                <= pixels@.len(),
            None => result matches Err(error) && error is InvalidMetadata,
        },
{
    let ghost symbols = canonical_symbols@;
    let ghost lengths = canonical_code_lengths@;
    let ghost bits = pixels@;
    let ghost n = lengths.len() as int;
    let total: usize = pixels.bit_len();
    let mut code: u32 = 0;
    let mut len: usize = 0;
    while len + 1 < maps.len()
        invariant
            len < maps@.len() <= 25,
            symbols == canonical_symbols@,
            lengths == canonical_code_lengths@,
            bits == pixels@,
            n == lengths.len(),
            total == bits.len() <= MAX_STREAM_BITS,
            bit_pos + len <= total,
            canonical(symbols, lengths),
            maps_hold(maps@, symbols, lengths, n),
            code == spelled(bits, bit_pos as int, len as nat),
            forall|k: int|
                0 <= k < n && (#[trigger] lengths[k]) <= len ==> !code_stands_at(
                    lengths,
                    bits,
                    bit_pos as int,
                    k,
                ),
        decreases maps@.len() - len,
    {
        let next_bit_pos: usize = bit_pos + len;
        if next_bit_pos >= total {
            assert(entry_at(lengths, bits, bit_pos as int) is None);
            return Err(bad_metadata("unexpected end of Huffman pixel stream"));
        }
        proof {
            spelled_bound(bits, bit_pos as int, len as nat);
            pow2_small(len as nat);
        }
        let bit: u32 = if pixels.bit(next_bit_pos) { 1 } else { 0 };
        code = code * 2 + bit;
        len += 1;
        assert(code == spelled(bits, bit_pos as int, len as nat));
        if let Some(symbol) = get_symbol(&maps[len], code) {
            proof {
                assert(maps@[len as int]@.contains_key(code));
                let k = choose|k: int|
                    0 <= k < n && (#[trigger] lengths[k]) == len && code_at(lengths, k) == code;
                assert(code_stands_at(lengths, bits, bit_pos as int, k));
                let found = entry_at(lengths, bits, bit_pos as int)->0;
                codes_are_prefix_free(symbols, lengths, bits, bit_pos as int, found, k);
                assert(maps@[lengths[k] as int]@[code_at(lengths, k) as u32] == symbols[k]);
            }
            return Ok((symbol, len));
        }
        assert forall|k: int| 0 <= k < n && (#[trigger] lengths[k]) <= len implies !code_stands_at(
            lengths,
            bits,
            bit_pos as int,
            k,
        ) by {
            if lengths[k] == len && code_stands_at(lengths, bits, bit_pos as int, k) {
                assert(maps@[lengths[k] as int]@.contains_key(code_at(lengths, k) as u32));
                assert(code_at(lengths, k) == code);
            }
        }
    }
    assert(entry_at(lengths, bits, bit_pos as int) is None) by {
        assert forall|k: int| 0 <= k < n implies !code_stands_at(
            lengths,
            bits,
            bit_pos as int,
            k,
        ) by {
            assert(lengths[k] < maps@.len());
        }
    }
    Err(bad_metadata("failed to decode Huffman symbol from bitstream"))
}

/// Decodes some symbols from a position on: the last one, and where they end.
fn advance_by_symbols(
    pixels: &BitStream,
    maps: &Vec<FxHashMap<u32, u64>>,
    start_bit: usize,
    symbol_count: usize,
    canonical_symbols: &Vec<u64>,
    canonical_code_lengths: &Vec<u8>,
) -> (result: Result<(u64, usize), EntroGdError>)
    requires
        canonical(canonical_symbols@, canonical_code_lengths@),
        maps_hold(
            maps@,
            canonical_symbols@,
            canonical_code_lengths@,
            canonical_code_lengths@.len() as int,
        ),
        1 <= maps@.len() <= 25,
        start_bit <= pixels@.len(),
    ensures
        match decoded(
            canonical_symbols@,
            canonical_code_lengths@,
            pixels@,
            start_bit as int,
            symbol_count as nat,
        ) {
            Some((list, at)) => result is Ok && (result->Ok_0).1 == at && at <= pixels@.len() && (
            symbol_count > 0 ==> (result->Ok_0).0 == list.last()),
            None => result matches Err(error) && error is InvalidMetadata,
        },
{
    let ghost symbols = canonical_symbols@;
    let ghost lengths = canonical_code_lengths@;
    let total: usize = pixels.bit_len();
    let mut bit_pos: usize = start_bit;
    let mut symbol: u64 = 0;
    let mut i: usize = 0;
    while i < symbol_count
        invariant
            i <= symbol_count,
            total == pixels@.len(),
            symbols == canonical_symbols@,
            lengths == canonical_code_lengths@,
            canonical(symbols, lengths),
            maps_hold(maps@, symbols, lengths, lengths.len() as int),
            1 <= maps@.len() <= 25,
            bit_pos <= pixels@.len(),
            decoded(symbols, lengths, pixels@, start_bit as int, i as nat) matches Some((list, at))
                && at == bit_pos && (i > 0 ==> list.len() > 0 && list.last() == symbol),
        decreases symbol_count - i,
    {
        match decode_one(pixels, maps, bit_pos, canonical_symbols, canonical_code_lengths) {
            Ok((found, consumed)) => {
                symbol = found;
                bit_pos = bit_pos + consumed;
            },
            Err(error) => {
                proof {
                    assert(decoded(symbols, lengths, pixels@, start_bit as int, i as nat + 1)
                        is None);
                    undecodable_stays(
                        symbols,
                        lengths,
                        pixels@,
                        start_bit as int,
                        i as nat + 1,
                        symbol_count as nat,
                    );
                }
                return Err(error);
            },
        }
        i += 1;
    }
    Ok((symbol, bit_pos))
}

/// Decodes the first symbols of a stream.
fn decode_symbols(
    pixels: &BitStream,
    maps: &Vec<FxHashMap<u32, u64>>,
    symbol_count: usize,
    canonical_symbols: &Vec<u64>,
    canonical_code_lengths: &Vec<u8>,
) -> (result: Result<Vec<u64>, EntroGdError>)
    requires
        canonical(canonical_symbols@, canonical_code_lengths@),
        maps_hold(
            maps@,
            canonical_symbols@,
            canonical_code_lengths@,
            canonical_code_lengths@.len() as int,
        ),
        1 <= maps@.len() <= 25,
    ensures
        match decoded(
            canonical_symbols@,
            canonical_code_lengths@,
            pixels@,
            0,
            symbol_count as nat,
        ) {
            Some((list, at)) => result matches Ok(found) && found@ == list && list.len()
                == symbol_count,
            None => result matches Err(error) && error is InvalidMetadata,
        },
{
    let ghost symbols = canonical_symbols@;
    let ghost lengths = canonical_code_lengths@;
    let total: usize = pixels.bit_len();
    let mut bit_pos: usize = 0;
    let mut list: Vec<u64> = Vec::new();
    let mut i: usize = 0;
    while i < symbol_count
        invariant
            i <= symbol_count,
            total == pixels@.len(),
            symbols == canonical_symbols@,
            lengths == canonical_code_lengths@,
            canonical(symbols, lengths),
            maps_hold(maps@, symbols, lengths, lengths.len() as int),
            1 <= maps@.len() <= 25,
            bit_pos <= pixels@.len(),
            list@.len() == i,
            decoded(symbols, lengths, pixels@, 0, i as nat) == Some((list@, bit_pos as int)),
        decreases symbol_count - i,
    {
        match decode_one(pixels, maps, bit_pos, canonical_symbols, canonical_code_lengths) {
            Ok((found, consumed)) => {
                list.push(found);
                bit_pos = bit_pos + consumed;
            },
            Err(error) => {
                proof {
                    assert(decoded(symbols, lengths, pixels@, 0, i as nat + 1) is None);
                    undecodable_stays(
                        symbols,
                        lengths,
                        pixels@,
                        0,
                        i as nat + 1,
                        symbol_count as nat,
                    );
                }
                return Err(error);
            },
        }
        i += 1;
    }
    Ok(list)
}

/// The decoding maps of a code table, one for each length, and the greatest length.
fn build_maps(codes: &Vec<HuffmanCode>, symbols: Ghost<Seq<u64>>, lengths: Ghost<Seq<u8>>) -> (maps:
    Vec<FxHashMap<u32, u64>>)
    requires
        canonical(symbols@, lengths@),
        codes@.len() == lengths@.len(),
        forall|k: int|
            0 <= k < codes@.len() ==> (#[trigger] codes@[k]).symbol == symbols@[k] && codes@[k].len
                == lengths@[k] && codes@[k].code == code_at(lengths@, k),
    ensures
        maps_hold(maps@, symbols@, lengths@, lengths@.len() as int),
        1 <= maps@.len() <= 25,
{
    let ghost symbols = symbols@;
    let ghost lengths = lengths@;
    let ghost n = lengths.len() as int;
    let mut max_code_length: u8 = 0;
    let mut i: usize = 0;
    while i < codes.len()
        invariant
            i <= codes@.len() == n == lengths.len(),
            canonical(symbols, lengths),
            forall|k: int|
                0 <= k < codes@.len() ==> (#[trigger] codes@[k]).symbol == symbols[k]
                    && codes@[k].len == lengths[k] && codes@[k].code == code_at(lengths, k),
            max_code_length <= 24,
            forall|k: int| 0 <= k < i ==> #[trigger] lengths[k] <= max_code_length,
        decreases codes@.len() - i,
    {
        let code = codes[i];
        assert(lengths[i as int] <= 24);
        if code.len > max_code_length {
            max_code_length = code.len;
        }
        i += 1;
    }
    let mut maps: Vec<FxHashMap<u32, u64>> = Vec::new();
    let mut len: u8 = 0;
    while len <= max_code_length
        invariant
            len <= max_code_length + 1 <= 25,
            maps@.len() == len,
            forall|l: int, code: u32| 0 <= l < len ==> !#[trigger] maps@[l]@.contains_key(code),
        decreases max_code_length + 1 - len,
    {
        maps.push(no_symbols());
        len += 1;
    }
    let mut k: usize = 0;
    while k < codes.len()
        invariant
            k <= codes@.len() == n == lengths.len(),
            canonical(symbols, lengths),
            forall|j: int|
                0 <= j < codes@.len() ==> (#[trigger] codes@[j]).symbol == symbols[j]
                    && codes@[j].len == lengths[j] && codes@[j].code == code_at(lengths, j),
            forall|j: int| 0 <= j < n ==> #[trigger] lengths[j] <= max_code_length,
            1 <= maps@.len() == max_code_length + 1 <= 25,
            maps_hold(maps@, symbols, lengths, k as int),
        decreases codes@.len() - k,
    {
        let code = codes[k];
        let ghost before = maps@;
        let mut map = copy_symbols(&maps[code.len as usize]);
        put_symbol(&mut map, code.code, code.symbol);
        maps.set(code.len as usize, map);
        proof {
            let place = lengths[k as int] as int;
            let value = code_at(lengths, k as int) as u32;
            assert(maps@[place]@ == before[place]@.insert(value, symbols[k as int]));
            assert forall|j: int| 0 <= j < k + 1 implies (#[trigger] lengths[j]) < maps@.len()
                && maps@[lengths[j] as int]@.contains_key(code_at(lengths, j) as u32)
                && maps@[lengths[j] as int]@[code_at(lengths, j) as u32] == symbols[j] by {
                if j < k {
                    assert(before[lengths[j] as int]@.contains_key(code_at(lengths, j) as u32));
                    if lengths[j] == place {
                        later_code_is_greater(symbols, lengths, n, j, k as int);
                        lemma2_to64();
                        assert((code_at(lengths, j) + 1) * pow2(0) == code_at(lengths, j) + 1);
                        assert(code_at(lengths, j) < code_at(lengths, k as int));
                    }
                }
            }
            assert forall|l: int, c: u32|
                0 <= l < maps@.len() && #[trigger] maps@[l]@.contains_key(c) implies exists|j: int|
                0 <= j < k + 1 && (#[trigger] lengths[j]) == l && code_at(lengths, j) == c by {
                if l == place && c == value {
                    assert(lengths[k as int] == l);
                } else {
                    assert(before[l]@.contains_key(c));
                    let j = choose|j: int|
                        0 <= j < k && (#[trigger] lengths[j]) == l && code_at(lengths, j) == c;
                    assert(lengths[j] == l);
                }
            }
        }
        k += 1;
    }
    maps
}

/// Whether a number can be written in `width` bits.
fn fits_width(value: u64, width: usize) -> (fits: bool)
    requires
        width <= 64,
    ensures
        fits == (value < pow2(width as nat)),
{
    proof {
        lemma2_to64();
        vstd::arithmetic::power2::lemma2_to64_rest();
    }
    if width == 64 {
        true
    } else {
        proof {
            lemma_u64_shr_is_div(value, width as u64);
            lemma_pow2_pos(width as nat);
            let v = value as int;
            let p = pow2(width as nat) as int;
            assert(v / p == 0 <==> v < p) by (nonlinear_arith)
                requires
                    0 <= v,
                    p > 0,
            ;
        }
        value >> (width as u64) == 0
    }
}

impl HuffmanDeviationData {
    /// Rows from their parts, if these belong together.
    pub fn new(
        pixel_bit_stream: BitStream,
        raw_deviation_bit_stream: BitStream,
        canonical_symbols: Vec<u64>,
        canonical_code_lengths: Vec<u8>,
        row_offsets: Vec<u32>,
        num_samples: usize,
        original_num_samples: usize,
        num_deviation_bits: usize,
        num_id_bits: usize,
        row_width: usize,
    ) -> (result: Result<HuffmanDeviationData, EntroGdError>)
        ensures
            ({
                let content = HuffmanView {
                    pixels: pixel_bit_stream@,
                    deviations: raw_deviation_bit_stream@,
                    symbols: canonical_symbols@,
                    lengths: canonical_code_lengths@,
                    row_offsets: row_offsets@,
                    num_samples: num_samples as nat,
                    original_num_samples: original_num_samples as nat,
                    num_deviation_bits: num_deviation_bits as nat,
                    num_id_bits: num_id_bits as nat,
                    row_width: row_width as nat,
                };
                &&& result is Ok <==> content.well_formed()
                &&& result matches Ok(data) ==> data@ == content && data.valid()
            }),
            result matches Err(error) ==> error is InvalidMetadata,
    {
        let ghost content = HuffmanView {
            pixels: pixel_bit_stream@,
            deviations: raw_deviation_bit_stream@,
            symbols: canonical_symbols@,
            lengths: canonical_code_lengths@,
            row_offsets: row_offsets@,
            num_samples: num_samples as nat,
            original_num_samples: original_num_samples as nat,
            num_deviation_bits: num_deviation_bits as nat,
            num_id_bits: num_id_bits as nat,
            row_width: row_width as nat,
        };
        if canonical_symbols.len() != canonical_code_lengths.len() {
            return Err(bad_metadata("Huffman symbol and length tables differ in size"));
        }
        if original_num_samples > num_samples {
            return Err(bad_metadata("original sample count exceeds total sample count"));
        }
        if original_num_samples > 0 && row_width == 0 {
            return Err(bad_metadata("row width must be > 0 when original samples are present"));
        }
        let expected_row_count: usize = if original_num_samples == 0 {
            0
        } else {
            if original_num_samples % row_width != 0 {
                return Err(
                    EntroGdError::InvalidMetadata {
                        message: two_numbers(
                            "original sample count ",
                            original_num_samples,
                            " is not divisible by row width ",
                            row_width,
                        ),
                    },
                );
            }
            original_num_samples / row_width
        };
        if row_offsets.len() != expected_row_count {
            return Err(
                EntroGdError::InvalidMetadata {
                    message: two_numbers(
                        "row offset count mismatch: expected ",
                        expected_row_count,
                        ", got ",
                        row_offsets.len(),
                    ),
                },
            );
        }
        if num_id_bits > 64 {
            return Err(bad_metadata("Huffman symbol width exceeds supported 64-bit range"));
        }
        let deviation_len: usize = raw_deviation_bit_stream.bit_len();
        match num_samples.checked_mul(num_deviation_bits) {
            None => {
                return Err(bad_metadata("raw deviation stream length overflow"));
            },
            Some(expected) => {
                if deviation_len != expected {
                    return Err(
                        EntroGdError::InvalidMetadata {
                            message: two_numbers(
                                "raw deviation stream length mismatch: expected ",
                                expected,
                                ", got ",
                                deviation_len,
                            ),
                        },
                    );
                }
            },
        }
        let mut k: usize = 0;
        while k < canonical_symbols.len()
            invariant
                k <= canonical_symbols@.len(),
                num_id_bits <= 64,
                content.symbols == canonical_symbols@,
                content.num_id_bits == num_id_bits,
                forall|j: int|
                    0 <= j < k ==> (#[trigger] canonical_symbols@[j]) < pow2(num_id_bits as nat),
            decreases canonical_symbols@.len() - k,
        {
            if !fits_width(canonical_symbols[k], num_id_bits) {
                assert(!(content.symbols[k as int] < pow2(content.num_id_bits)));
                return Err(bad_metadata("Huffman symbol exceeds declared symbol width"));
            }
            k += 1;
        }
        let codes = match rebuild_huffman_codes(&canonical_symbols, &canonical_code_lengths) {
            Ok(codes) => codes,
            Err(error) => {
                return Err(error);
            },
        };
        let maps = build_maps(
            &codes,
            Ghost(canonical_symbols@),
            Ghost(canonical_code_lengths@),
        );
        if num_samples > 0 && codes.len() == 0 {
            return Err(bad_metadata("non-empty Huffman stream is missing a symbol table"));
        }
        let pixel_len: usize = pixel_bit_stream.bit_len();
        let mut r: usize = 0;
        while r < row_offsets.len()
            invariant
                r <= row_offsets@.len(),
                pixel_len == pixel_bit_stream@.len(),
                content.row_offsets == row_offsets@,
                content.pixels == pixel_bit_stream@,
                forall|j: int| 0 <= j < r ==> #[trigger] row_offsets@[j] <= pixel_len,
                forall|i: int, j: int|
                    0 <= i < j < r ==> #[trigger] row_offsets@[i] <= #[trigger] row_offsets@[j],
            decreases row_offsets@.len() - r,
        {
            let current: u32 = row_offsets[r];
            if r > 0 && current < row_offsets[r - 1] {
                assert(content.row_offsets[r - 1] > content.row_offsets[r as int]);
                return Err(bad_metadata("row offsets must be non-decreasing"));
            }
            if current as usize > pixel_len {
                assert(content.row_offsets[r as int] > content.pixels.len());
                return Err(
                    EntroGdError::InvalidMetadata {
                        message: two_numbers(
                            "row offset ",
                            current as usize,
                            " exceeds Huffman pixel stream length ",
                            pixel_len,
                        ),
                    },
                );
            }
            proof {
                assert forall|i: int, j: int| 0 <= i < j < r + 1 implies #[trigger] row_offsets@[i]
                    <= #[trigger] row_offsets@[j] by {
                    if j == r && i < r - 1 {
                        assert(row_offsets@[i] <= row_offsets@[r - 1]);
                    }
                }
            }
            r += 1;
        }
        let end: usize = if original_num_samples == 0 {
            0
        } else {
            proof {
                let n = original_num_samples as int;
                let w = row_width as int;
                assert(n / w > 0) by (nonlinear_arith)
                    requires
                        n > 0,
                        w > 0,
                        n % w == 0,
                ;
            }
            let last: usize = row_offsets[row_offsets.len() - 1] as usize;
            match advance_by_symbols(
                &pixel_bit_stream,
                &maps,
                last,
                row_width,
                &canonical_symbols,
                &canonical_code_lengths,
            ) {
                Ok((symbol, at)) => at,
                Err(error) => {
                    return Err(error);
                },
            }
        };
        Ok(
            HuffmanDeviationData {
                pixel_bit_stream,
                raw_deviation_bit_stream,
                canonical_symbols,
                canonical_code_lengths,
                row_offsets,
                num_samples,
                original_num_samples,
                num_deviation_bits,
                num_id_bits,
                row_width,
                max_code_length: (maps.len() - 1) as u8,
                decode_by_length: maps,
                original_stream_end_offset_bits: end,
            },
        )
    }

    /// The codes of the base numbers.
    pub fn pixel_bit_stream(&self) -> (stream: &BitStream)
        ensures
            stream@ == self@.pixels,
    {
        &self.pixel_bit_stream
    }

    /// The deviation bits.
    pub fn raw_deviation_bit_stream(&self) -> (stream: &BitStream)
        ensures
            stream@ == self@.deviations,
    {
        &self.raw_deviation_bit_stream
    }

    /// The symbols of the code table.
    pub fn canonical_symbols(&self) -> (symbols: &Vec<u64>)
        ensures
            symbols@ == self@.symbols,
    {
        &self.canonical_symbols
    }

    /// The lengths of the code table.
    pub fn canonical_code_lengths(&self) -> (lengths: &Vec<u8>)
        ensures
            lengths@ == self@.lengths,
    {
        &self.canonical_code_lengths
    }

    /// The group starts.
    pub fn row_offsets(&self) -> (offsets: &Vec<u32>)
        ensures
            offsets@ == self@.row_offsets,
    {
        &self.row_offsets
    }

    /// The number of rows of a group.
    pub fn row_width(&self) -> (width: usize)
        ensures
            width == self@.row_width,
    {
        self.row_width
    }

    /// The number of original rows.
    pub fn original_num_samples(&self) -> (samples: usize)
        ensures
            samples == self@.original_num_samples,
    {
        self.original_num_samples
    }

    /// The number of rows.
    pub fn get_num_samples(&self) -> (samples: usize)
        ensures
            samples == self@.num_samples,
    {
        self.num_samples
    }

    /// The width of the deviation part of a row.
    pub fn get_num_deviation_bits(&self) -> (bits: usize)
        ensures
            bits == self@.num_deviation_bits,
    {
        self.num_deviation_bits
    }

    /// The width of a base number.
    pub fn get_num_id_bits(&self) -> (bits: usize)
        ensures
            bits == self@.num_id_bits,
    {
        self.num_id_bits
    }

    /// The size of the encoded rows in bits.
    pub fn get_encoded_size(&self) -> (bits: usize)
        requires
            self.valid(),
            self@.encoded_size() <= usize::MAX,
        ensures
            bits == self@.encoded_size(),
    {
        proof {
            let n = self.canonical_symbols@.len() as int;
            let w = (self.num_id_bits + 5) as int;
            assert(0 <= n * w) by (nonlinear_arith)
                requires
                    0 <= n,
                    0 <= w,
            ;
        }
        let deviations: usize = self.raw_deviation_bit_stream.bit_len();
        let pixels: usize = self.pixel_bit_stream.bit_len();
        64 + self.row_offsets.len() * 32 + self.canonical_symbols.len() * (self.num_id_bits
            + HUFFMAN_CODE_LENGTH_BITS) + deviations + pixels
    }

    /// A row from its base number.
    fn row_from_id(&self, index: usize, id: u64) -> (sample: DeviationSample)
        requires
            self@.deviations.len() == self@.num_samples * self@.num_deviation_bits,
            self@.num_id_bits <= 64,
            index < self.num_samples,
        ensures
            sample@ == self@.row_with(index as int, id),
    {
        let total: usize = self.raw_deviation_bit_stream.bit_len();
        proof {
            slot_in_bounds(
                index as int,
                self.num_samples as int,
                self.num_deviation_bits as int,
            );
        }
        let start: usize = index * self.num_deviation_bits;
        let deviation = self.raw_deviation_bit_stream.copy_range(
            start,
            start + self.num_deviation_bits,
        );
        DeviationSample { deviation, id: bitvec_from_u64(id, self.num_id_bits) }
    }

    /// The row at an index, decoded from the start of its group.
    pub fn get_sample(&self, sample_idx: usize) -> (sample: Option<DeviationSample>)
        requires
            self.valid(),
        ensures
            sample_view(sample) == self@.sample(sample_idx as int),
    {
        if sample_idx >= self.num_samples {
            return None;
        }
        let start: usize;
        let count: usize;
        if sample_idx < self.original_num_samples {
            proof {
                let n = self.original_num_samples as int;
                let w = self.row_width as int;
                let i = sample_idx as int;
                assert(i / w < n / w && 0 <= i % w && i % w + 1 <= w) by (nonlinear_arith)
                    requires
                        0 <= i < n,
                        0 < w,
                        n % w == 0,
                ;
            }
            start = self.row_offsets[sample_idx / self.row_width] as usize;
            count = sample_idx % self.row_width + 1;
        } else {
            start = self.original_stream_end_offset_bits;
            count = sample_idx - self.original_num_samples + 1;
        }
        match advance_by_symbols(
            &self.pixel_bit_stream,
            &self.decode_by_length,
            start,
            count,
            &self.canonical_symbols,
            &self.canonical_code_lengths,
        ) {
            Ok((symbol, at)) => Some(self.row_from_id(sample_idx, symbol)),
            Err(error) => None,
        }
    }

    /// The first `limit` rows, or all of them where there are fewer, decoded from the beginning.
    pub fn for_each_sample_n(&self, limit: usize) -> (result: Result<
        Vec<DeviationSample>,
        EntroGdError,
    >)
        requires
            self.valid(),
        ensures
            ({
                let count = if limit <= self@.num_samples {
                    limit as nat
                } else {
                    self@.num_samples
                };
                match self@.ids(0, count) {
                    Some((ids, at)) => result matches Ok(samples) && samples@.len() == count && (
                    forall|s: int|
                        0 <= s < count ==> (#[trigger] samples@[s])@ == self@.row_with(s, ids[s])),
                    None => result matches Err(error) && error is InvalidMetadata,
                }
            }),
    {
        let capped: usize = if limit <= self.num_samples { limit } else { self.num_samples };
        let ids = match decode_symbols(
            &self.pixel_bit_stream,
            &self.decode_by_length,
            capped,
            &self.canonical_symbols,
            &self.canonical_code_lengths,
        ) {
            Ok(ids) => ids,
            Err(error) => {
                return Err(error);
            },
        };
        let mut samples: Vec<DeviationSample> = Vec::new();
        let mut s: usize = 0;
        while s < capped
            invariant
                s <= capped <= self.num_samples,
                self@.deviations.len() == self@.num_samples * self@.num_deviation_bits,
                self@.num_id_bits <= 64,
                ids@.len() == capped,
                samples@.len() == s,
                forall|t: int|
                    0 <= t < s ==> (#[trigger] samples@[t])@ == self@.row_with(t, ids@[t]),
            decreases capped - s,
        {
            samples.push(self.row_from_id(s, ids[s]));
            s += 1;
        }
        Ok(samples)
    }

    /// The rows as symbols of one width.
    pub fn to_deviation_data(&self) -> (result: Result<DeviationData, EntroGdError>)
        requires
            self.valid(),
            self@.num_deviation_bits + self@.num_id_bits <= usize::MAX,
            self@.num_samples * (self@.num_deviation_bits + self@.num_id_bits) <= MAX_STREAM_BITS
                || self@.num_samples * (self@.num_deviation_bits + self@.num_id_bits) > usize::MAX,
        ensures
            result is Ok <==> self@.num_samples * (self@.num_deviation_bits + self@.num_id_bits)
                <= usize::MAX && self@.ids(0, self@.num_samples) is Some,
            result matches Ok(data) ==> data@ == (DeviationView {
                bits: join(self@.rows((self@.ids(0, self@.num_samples)->0).0)),
                num_samples: self@.num_samples,
                num_deviation_bits: self@.num_deviation_bits,
                num_id_bits: self@.num_id_bits,
            }),
            result matches Err(error) ==> error is InvalidMetadata,
    {
        let width: usize = self.num_deviation_bits + self.num_id_bits;
        if self.num_samples.checked_mul(width).is_none() {
            return Err(bad_metadata("decoded Huffman deviation stream length overflow"));
        }
        let ids = match decode_symbols(
            &self.pixel_bit_stream,
            &self.decode_by_length,
            self.num_samples,
            &self.canonical_symbols,
            &self.canonical_code_lengths,
        ) {
            Ok(ids) => ids,
            Err(error) => {
                return Err(error);
            },
        };
        let deviation_len: usize = self.raw_deviation_bit_stream.bit_len();
        let ghost rows = self@.rows(ids@);
        proof {
            rows_uniform(self@, ids@);
            assert(rows.take(0) =~= Seq::empty());
        }
        let mut raw = BitStream::empty();
        let mut s: usize = 0;
        while s < self.num_samples
            invariant
                s <= self.num_samples,
                self@.deviations.len() == self@.num_samples * self@.num_deviation_bits,
                self@.num_id_bits <= 64,
                width == self.num_deviation_bits + self.num_id_bits,
                self.num_samples * width <= MAX_STREAM_BITS,
                deviation_len == self@.deviations.len(),
                ids@.len() == self.num_samples,
                rows == self@.rows(ids@),
                forall|t: int| 0 <= t < rows.len() ==> (#[trigger] rows[t]).len() == width,
                raw@ == join(rows.take(s as int)),
            decreases self.num_samples - s,
        {
            proof {
                slot_in_bounds(s as int, self.num_samples as int, self.num_deviation_bits as int);
                slot_in_bounds(s as int, self.num_samples as int, width as int);
                assert forall|t: int| 0 <= t < s implies (#[trigger] rows.take(s as int)[t]).len()
                    == width by {
                    assert(rows[t].len() == width);
                }
                join_uniform(rows.take(s as int), width as nat);
            }
            let start: usize = s * self.num_deviation_bits;
            raw.append_range(
                &self.raw_deviation_bit_stream,
                start,
                start + self.num_deviation_bits,
            );
            append_symbol_bits(&mut raw, ids[s], self.num_id_bits);
            proof {
                assert(rows.take(s + 1) =~= rows.take(s as int).push(rows[s as int]));
                join_push(rows.take(s as int), rows[s as int]);
                assert(raw@ =~= join(rows.take(s as int)) + rows[s as int]);
            }
            s += 1;
        }
        proof {
            assert(rows.take(rows.len() as int) =~= rows);
        }
        Ok(
            DeviationData::new(raw, self.num_samples, self.num_deviation_bits, self.num_id_bits),
        )
    }
}

impl Clone for HuffmanDeviationData {
    fn clone(&self) -> (copy: HuffmanDeviationData)
        ensures
            copy@ == self@,
            self.valid() ==> copy.valid(),
    {
        let canonical_symbols = copy_numbers(&self.canonical_symbols);
        let mut canonical_code_lengths: Vec<u8> = Vec::new();
        let mut i: usize = 0;
        while i < self.canonical_code_lengths.len()
            invariant
                i <= self.canonical_code_lengths@.len(),
                canonical_code_lengths@ == self.canonical_code_lengths@.take(i as int),
            decreases self.canonical_code_lengths@.len() - i,
        {
            canonical_code_lengths.push(self.canonical_code_lengths[i]);
            assert(self.canonical_code_lengths@.take(i as int + 1)
                =~= self.canonical_code_lengths@.take(i as int).push(
                self.canonical_code_lengths@[i as int],
            ));
            i += 1;
        }
        assert(canonical_code_lengths@ =~= self.canonical_code_lengths@);
        let mut row_offsets: Vec<u32> = Vec::new();
        let mut k: usize = 0;
        while k < self.row_offsets.len()
            invariant
                k <= self.row_offsets@.len(),
                row_offsets@ == self.row_offsets@.take(k as int),
            decreases self.row_offsets@.len() - k,
        {
            row_offsets.push(self.row_offsets[k]);
            assert(self.row_offsets@.take(k as int + 1) =~= self.row_offsets@.take(k as int).push(
                self.row_offsets@[k as int],
            ));
            k += 1;
        }
        assert(row_offsets@ =~= self.row_offsets@);
        let mut decode_by_length: Vec<FxHashMap<u32, u64>> = Vec::new();
        let mut m: usize = 0;
        while m < self.decode_by_length.len()
            invariant
                m <= self.decode_by_length@.len(),
                decode_by_length@.len() == m,
                forall|j: int|
                    0 <= j < m ==> (#[trigger] decode_by_length@[j])@ == self.decode_by_length@[j]@,
            decreases self.decode_by_length@.len() - m,
        {
            decode_by_length.push(copy_symbols(&self.decode_by_length[m]));
            m += 1;
        }
        HuffmanDeviationData {
            pixel_bit_stream: self.pixel_bit_stream.clone(),
            raw_deviation_bit_stream: self.raw_deviation_bit_stream.clone(),
            canonical_symbols,
            canonical_code_lengths,
            row_offsets,
            num_samples: self.num_samples,
            original_num_samples: self.original_num_samples,
            num_deviation_bits: self.num_deviation_bits,
            num_id_bits: self.num_id_bits,
            row_width: self.row_width,
            max_code_length: self.max_code_length,
            decode_by_length,
            original_stream_end_offset_bits: self.original_stream_end_offset_bits,
        }
    }
}

fn copy_numbers(numbers: &Vec<u64>) -> (copy: Vec<u64>)
    ensures
        copy@ == numbers@,
{
    let mut copy: Vec<u64> = Vec::new();
    let mut i: usize = 0;
    while i < numbers.len()
        invariant
            i <= numbers@.len(),
            copy@ == numbers@.take(i as int),
        decreases numbers@.len() - i,
    {
        copy.push(numbers[i]);
        assert(numbers@.take(i as int + 1) =~= numbers@.take(i as int).push(numbers@[i as int]));
        i += 1;
    }
    assert(copy@ =~= numbers@);
    copy
}

/// All rows of one content have one width.
pub proof fn rows_uniform(content: HuffmanView, ids: Seq<u64>)
    requires
        ids.len() <= content.num_samples,
        content.deviations.len() == content.num_samples * content.num_deviation_bits,
    ensures
        forall|s: int|
            0 <= s < ids.len() ==> (#[trigger] content.rows(ids)[s]).len()
                == content.num_deviation_bits + content.num_id_bits,
{
    assert forall|s: int| 0 <= s < ids.len() implies (#[trigger] content.rows(ids)[s]).len()
        == content.num_deviation_bits + content.num_id_bits by {
        slot_in_bounds(s, content.num_samples as int, content.num_deviation_bits as int);
    }
}

/// A number as bits, the least significant one first.
pub fn bitvec_from_u64(value: u64, width: usize) -> (bits: BitStream)
    requires
        width <= 64,
    ensures
        bits@ == low_digits(value as nat, width as nat),
{
    let mut bits = BitStream::empty();
    append_symbol_bits(&mut bits, value, width);
    assert(bits@ =~= low_digits(value as nat, width as nat));
    bits
}

/// Appends a number as bits, the least significant one first.
pub fn append_symbol_bits(out: &mut BitStream, value: u64, width: usize)
    requires
        width <= 64,
        old(out)@.len() + width <= MAX_STREAM_BITS,
    ensures
        final(out)@ == old(out)@ + low_digits(value as nat, width as nat),
{
    out.append_low_first(value, width);
}

} // verus!
