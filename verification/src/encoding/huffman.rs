//! Canonical prefix codes.
//!
//! A code table lists symbols with the lengths of their codes, shorter codes first, symbols of
//! one length in ascending order. The codes follow from the lengths: the first one is all zeros,
//! and each other one is the one before plus one, filled up with zeros to its own length.
use vstd::arithmetic::power2::{
    lemma2_to64, lemma_pow2_adds, lemma_pow2_pos, lemma_pow2_strictly_increases, lemma_pow2_unfold,
    pow2,
};
use vstd::prelude::*;

use crate::bits::{digit, high_digits_first};
use crate::error::{bad_metadata, EntroGdError};
use crate::text::numbered;

verus! {

/// The greatest length of a code.
pub const HUFFMAN_MAX_CODE_LENGTH: u8 = 24;

/// Code number `k` of a table, read as a binary number.
pub open spec fn code_at(lengths: Seq<u8>, k: int) -> nat
    decreases k,
{
    if k <= 0 {
        0
    } else {
        (code_at(lengths, k - 1) + 1) * pow2((lengths[k] - lengths[k - 1]) as nat)
    }
}

/// Whether a symbol with its length may stand before another one.
pub open spec fn table_order(first: (u8, u64), second: (u8, u64)) -> bool {
    first.0 < second.0 || (first.0 == second.0 && first.1 < second.1)
}

/// Whether the first `n` entries of a table are in order and their codes fit their lengths.
pub open spec fn canonical_prefix(symbols: Seq<u64>, lengths: Seq<u8>, n: int) -> bool {
    &&& forall|k: int| 0 <= k < n ==> 1 <= #[trigger] lengths[k] <= HUFFMAN_MAX_CODE_LENGTH
    &&& forall|k: int|
        0 < k < n ==> table_order(
            (lengths[k - 1], symbols[k - 1]),
            (#[trigger] lengths[k], symbols[k]),
        )
    &&& forall|k: int| 0 <= k < n ==> #[trigger] code_at(lengths, k) < pow2(lengths[k] as nat)
}

/// Whether symbols and code lengths make up a code table.
pub open spec fn canonical(symbols: Seq<u64>, lengths: Seq<u8>) -> bool {
    &&& symbols.len() == lengths.len()
    &&& canonical_prefix(symbols, lengths, lengths.len() as int)
}

/// The length of a code is no less than those before it.
pub proof fn lengths_ascend(symbols: Seq<u64>, lengths: Seq<u8>, n: int, j: int, k: int)
    requires
        canonical_prefix(symbols, lengths, n),
        0 <= j <= k < n,
    ensures
        lengths[j] <= lengths[k],
    decreases k - j,
{
    if j < k {
        lengths_ascend(symbols, lengths, n, j, k - 1);
        assert(table_order((lengths[k - 1], symbols[k - 1]), (lengths[k], symbols[k])));
    }
}

/// A later code, cut to the length of an earlier one, is greater than that one.
pub proof fn later_code_is_greater(symbols: Seq<u64>, lengths: Seq<u8>, n: int, j: int, k: int)
    requires
        canonical_prefix(symbols, lengths, n),
        0 <= j < k < n,
    ensures
        lengths[j] <= lengths[k],
        code_at(lengths, k) >= (code_at(lengths, j) + 1) * pow2((lengths[k] - lengths[j]) as nat),
    decreases k - j,
{
    lengths_ascend(symbols, lengths, n, j, k);
    lengths_ascend(symbols, lengths, n, k - 1, k);
    if j < k - 1 {
        lengths_ascend(symbols, lengths, n, j, k - 1);
        later_code_is_greater(symbols, lengths, n, j, k - 1);
        let a = (lengths[k - 1] - lengths[j]) as nat;
        let b = (lengths[k] - lengths[k - 1]) as nat;
        lemma_pow2_adds(a, b);
        lemma_pow2_pos(b);
        let before = code_at(lengths, k - 1) as int;
        let first = (code_at(lengths, j) + 1) as int;
        let pa = pow2(a) as int;
        let pb = pow2(b) as int;
        assert((before + 1) * pb >= first * (pa * pb)) by (nonlinear_arith)
            requires
                before >= first * pa,
                pb > 0,
                before >= 0,
        ;
    }
}

/// The number that `len` bits from `start` on spell, the most significant one first.
pub open spec fn spelled(bits: Seq<bool>, start: int, len: nat) -> nat
    decreases len,
{
    if len == 0 {
        0
    } else {
        2 * spelled(bits, start, (len - 1) as nat) + (if bits[start + len - 1] {
            1nat
        } else {
            0nat
        })
    }
}

/// Spelled numbers are below the power of two of their length.
pub proof fn spelled_bound(bits: Seq<bool>, start: int, len: nat)
    ensures
        spelled(bits, start, len) < pow2(len),
    decreases len,
{
    lemma2_to64();
    if len > 0 {
        spelled_bound(bits, start, (len - 1) as nat);
        lemma_pow2_unfold(len);
    }
}

/// Fewer bits spell the same number without its last digits.
pub proof fn spelled_prefix(bits: Seq<bool>, start: int, short: nat, long: nat)
    requires
        short <= long,
    ensures
        spelled(bits, start, short) == spelled(bits, start, long) / pow2((long - short) as nat),
    decreases long - short,
{
    lemma2_to64();
    if short < long {
        spelled_prefix(bits, start, short, (long - 1) as nat);
        let rest = (long - 1 - short) as nat;
        lemma_pow2_unfold((rest + 1) as nat);
        lemma_pow2_pos(rest);
        let v = spelled(bits, start, long) as int;
        let u = spelled(bits, start, (long - 1) as nat) as int;
        let p = pow2(rest) as int;
        assert(u == v / 2);
        assert((v / 2) / p == v / (2 * p)) by {
            vstd::arithmetic::div_mod::lemma_div_denominator(v, 2, p);
        }
        assert((long - short) as nat == rest + 1);
        assert(2 * p == pow2((long - short) as nat));
    } else {
        assert(pow2(0) == 1);
        assert((long - short) as nat == 0);
    }
}

/// Bits spell the same number wherever they stand.
pub proof fn spelled_in_place(bits: Seq<bool>, start: int, part: Seq<bool>, len: nat)
    requires
        len <= part.len(),
        0 <= start,
        start + part.len() <= bits.len(),
        bits.subrange(start, start + part.len()) == part,
    ensures
        spelled(bits, start, len) == spelled(part, 0, len),
    decreases len,
{
    if len > 0 {
        spelled_in_place(bits, start, part, (len - 1) as nat);
        assert(bits[start + len - 1] == bits.subrange(start, start + part.len())[len - 1]);
    }
}

/// The digits of a number, the most significant one first, spell that number.
pub proof fn spelled_digits(value: nat, width: nat, len: nat)
    requires
        value < pow2(width),
        len <= width,
    ensures
        spelled(high_digits_first(value, width), 0, len) == value / pow2((width - len) as nat),
    decreases len,
{
    lemma2_to64();
    if len == 0 {
        lemma_pow2_pos(width);
        assert(value / pow2(width) == 0) by {
            vstd::arithmetic::div_mod::lemma_basic_div(value as int, pow2(width) as int);
        }
    } else {
        spelled_digits(value, width, (len - 1) as nat);
        let rest = (width - len) as nat;
        lemma_pow2_unfold((rest + 1) as nat);
        lemma_pow2_pos(rest);
        let v = value as int;
        let p = pow2(rest) as int;
        vstd::arithmetic::div_mod::lemma_div_denominator(v, p, 2);
        assert(p * 2 == pow2((rest + 1) as nat));
        assert(high_digits_first(value, width)[len - 1] == digit(value, rest));
    }
}

/// All digits of a number spell it.
pub proof fn all_digits_spell(value: nat, width: nat)
    requires
        value < pow2(width),
    ensures
        spelled(high_digits_first(value, width), 0, width) == value,
{
    spelled_digits(value, width, width);
    lemma2_to64();
    let one = pow2((width - width) as nat);
    assert(one == 1);
    assert(value / one == value) by (nonlinear_arith)
        requires
            one == 1,
    ;
}

/// Whether code `k` of a table stands at a position of a stream.
pub open spec fn code_stands_at(lengths: Seq<u8>, bits: Seq<bool>, position: int, k: int) -> bool {
    &&& position + lengths[k] <= bits.len()
    &&& spelled(bits, position, lengths[k] as nat) == code_at(lengths, k)
}

/// No code is the beginning of another one: at most one code of a table stands at a position.
pub proof fn codes_are_prefix_free(
    symbols: Seq<u64>,
    lengths: Seq<u8>,
    bits: Seq<bool>,
    position: int,
    j: int,
    k: int,
)
    requires
        canonical(symbols, lengths),
        0 <= j < lengths.len(),
        0 <= k < lengths.len(),
        code_stands_at(lengths, bits, position, j),
        code_stands_at(lengths, bits, position, k),
    ensures
        j == k,
{
    if j < k {
        no_second_code(symbols, lengths, bits, position, j, k);
    } else if k < j {
        no_second_code(symbols, lengths, bits, position, k, j);
    }
}

proof fn no_second_code(
    symbols: Seq<u64>,
    lengths: Seq<u8>,
    bits: Seq<bool>,
    position: int,
    j: int,
    k: int,
)
    requires
        canonical(symbols, lengths),
        0 <= j < k < lengths.len(),
        code_stands_at(lengths, bits, position, j),
    ensures
        !code_stands_at(lengths, bits, position, k),
{
    later_code_is_greater(symbols, lengths, lengths.len() as int, j, k);
    let rest = (lengths[k] - lengths[j]) as nat;
    spelled_prefix(bits, position, lengths[j] as nat, lengths[k] as nat);
    lemma_pow2_pos(rest);
    let later = code_at(lengths, k) as int;
    let earlier = code_at(lengths, j) as int;
    let p = pow2(rest) as int;
    assert(later / p >= earlier + 1) by (nonlinear_arith)
        requires
            later >= (earlier + 1) * p,
            p > 0,
    ;
}

/// A code that was appended to a stream stands where it was appended.
pub proof fn appended_code_stands(
    symbols: Seq<u64>,
    lengths: Seq<u8>,
    before: Seq<bool>,
    after: Seq<bool>,
    k: int,
)
    requires
        canonical(symbols, lengths),
        0 <= k < lengths.len(),
    ensures
        code_stands_at(
            lengths,
            before + high_digits_first(code_at(lengths, k), lengths[k] as nat) + after,
            before.len() as int,
            k,
        ),
{
    let len = lengths[k] as nat;
    let code = high_digits_first(code_at(lengths, k), len);
    let bits = before + code + after;
    let start = before.len() as int;
    assert(bits.subrange(start, start + code.len()) =~= code);
    spelled_in_place(bits, start, code, len);
    spelled_digits(code_at(lengths, k), len, len);
    lemma2_to64();
    assert(code_at(lengths, k) < pow2(len));
    assert((len - len) as nat == 0);
    assert(code_at(lengths, k) / pow2(0) == code_at(lengths, k)) by {
        assert(pow2(0) == 1);
    }
    assert(spelled(bits, start, len) == code_at(lengths, k));
    assert(start + len <= bits.len());
}

/// One entry of a code table with its code.
#[derive(Debug, Clone, Copy, PartialEq, Eq, Structural)]
pub struct HuffmanCode {
    pub symbol: u64,
    pub code: u32,
    pub len: u8,
}

/// The codes of a table, if the symbols and lengths make up one.
pub fn rebuild_huffman_codes(
    canonical_symbols: &Vec<u64>,
    canonical_code_lengths: &Vec<u8>,
) -> (result: Result<Vec<HuffmanCode>, EntroGdError>)
    requires
        canonical_symbols@.len() == canonical_code_lengths@.len(),
    ensures
        result is Ok <==> canonical(canonical_symbols@, canonical_code_lengths@),
        result matches Ok(codes) ==> {
            &&& codes@.len() == canonical_symbols@.len()
            &&& forall|k: int|
                0 <= k < codes@.len() ==> (#[trigger] codes@[k]).symbol == canonical_symbols@[k]
                    && codes@[k].len == canonical_code_lengths@[k] && codes@[k].code == code_at(
                    canonical_code_lengths@,
                    k,
                )
        },
        result matches Err(error) ==> error is InvalidMetadata,
{
    let ghost symbols = canonical_symbols@;
    let ghost lengths = canonical_code_lengths@;
    let mut codes: Vec<HuffmanCode> = Vec::new();
    let mut next_code: u32 = 0;
    let mut k: usize = 0;
    proof {
        lemma2_to64();
    }
    while k < canonical_symbols.len()
        invariant
            k <= symbols.len() == lengths.len(),
            symbols == canonical_symbols@,
            lengths == canonical_code_lengths@,
            canonical_prefix(symbols, lengths, k as int),
            codes@.len() == k,
            next_code == (if k == 0 { 0 } else { code_at(lengths, k - 1) + 1 }),
            forall|j: int|
                0 <= j < k ==> (#[trigger] codes@[j]).symbol == symbols[j] && codes@[j].len
                    == lengths[j] && codes@[j].code == code_at(lengths, j),
        decreases symbols.len() - k,
    {
        let symbol: u64 = canonical_symbols[k];
        let len: u8 = canonical_code_lengths[k];
        if len < 1 || len > HUFFMAN_MAX_CODE_LENGTH {
            return Err(
                EntroGdError::InvalidMetadata {
                    message: numbered("invalid Huffman code length ", len as usize),
                },
            );
        }
        let previous_len: u8 = if k == 0 { 0 } else { canonical_code_lengths[k - 1] };
        if k > 0 {
            let previous_symbol: u64 = canonical_symbols[k - 1];
            if len < previous_len || (len == previous_len && symbol <= previous_symbol) {
                assert(!table_order(
                    (lengths[k - 1], symbols[k - 1]),
                    (lengths[k as int], symbols[k as int]),
                ));
                return Err(
                    bad_metadata("Huffman canonical table is not sorted by (length, symbol)"),
                );
            }
        }
        let shift: u8 = len - previous_len;
        let ghost before = next_code;
        proof {
            lemma_pow2_adds(previous_len as nat, shift as nat);
            lemma2_to64();
            pow2_small(shift as nat);
            pow2_small(len as nat);
            let p = pow2(shift as nat) as int;
            let q = pow2(previous_len as nat) as int;
            assert(before <= q);
            assert(before * p <= q * p) by (nonlinear_arith)
                requires
                    before <= q,
                    p > 0,
            ;
        }
        let fill: u32 = power_of_two(shift);
        let code: u32 = next_code * fill;
        let limit: u32 = power_of_two(len);
        proof {
            if k > 0 {
                assert(code == code_at(lengths, k as int));
            } else {
                assert(0 * fill == 0);
            }
        }
        if code >= limit {
            assert(code_at(lengths, k as int) >= pow2(lengths[k as int] as nat));
            return Err(bad_metadata("Huffman canonical table violates prefix-code bounds"));
        }
        codes.push(HuffmanCode { symbol, code, len });
        next_code = code + 1;
        k += 1;
    }
    Ok(codes)
}

/// Powers of two up to the greatest code length are small.
pub proof fn pow2_small(exponent: nat)
    requires
        exponent <= 24,
    ensures
        1 <= pow2(exponent) <= 16777216,
{
    lemma2_to64();
    lemma_pow2_pos(exponent);
    if exponent < 24 {
        lemma_pow2_strictly_increases(exponent, 24);
    }
}

/// A power of two.
fn power_of_two(exponent: u8) -> (power: u32)
    requires
        exponent <= 24,
    ensures
        power == pow2(exponent as nat),
{
    let mut power: u32 = 1;
    let mut i: u8 = 0;
    proof {
        lemma2_to64();
    }
    while i < exponent
        invariant
            i <= exponent <= 24,
            power == pow2(i as nat),
        decreases exponent - i,
    {
        proof {
            lemma_pow2_unfold((i + 1) as nat);
            pow2_small((i + 1) as nat);
        }
        power = power * 2;
        i += 1;
    }
    power
}

} // verus!
