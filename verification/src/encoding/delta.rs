//! Tiered codes of the differences between sorted base rows.
use vstd::arithmetic::power2::{lemma2_to64, lemma_pow2_strictly_increases, lemma_pow2_unfold, pow2};
use vstd::prelude::*;

use crate::bits::{bits_value, low_digits, BitStream, MAX_STREAM_BITS};
use crate::data::significant_bits;
use crate::error::{bad_metadata, EntroGdError};
use crate::file_format::tags::{BASE_TABLE_TAG_DELTA_FIXED, BASE_TABLE_TAG_DELTA_UNARY};
use crate::numbers::{
    bits_value_bound, bits_value_set, bits_value_zeros, digit_beyond, digits_of_value, value_fits,
};
use crate::text::numbered;

verus! {

/// The tier widths of the code with unary prefixes.
pub open spec fn unary_widths() -> Seq<usize> {
    seq![
        9, 19, 28, 37, 45, 54, 63, 73, 82, 89, 97, 106, 115, 123, 131, 140, 147, 156, 163, 170,
        175, 180, 185, 189, 193, 197, 202, 207, 210, 212,
    ]
}

/// The tier widths of the code with fixed prefixes.
pub open spec fn fixed_widths() -> Seq<usize> {
    seq![
        1, 3, 5, 6, 7, 9, 11, 12, 14, 15, 17, 19, 20, 22, 24, 26, 28, 29, 31, 33, 35, 37, 39, 41,
        43, 45, 47, 49, 51, 54, 57, 60, 63, 65, 68, 71, 73, 76, 79, 82, 85, 88, 91, 94, 97, 100,
        104, 107, 111, 115, 119, 123, 128, 133, 140, 145, 150, 156, 162, 170, 177, 187, 197, 212,
    ]
}

/// The tier widths of the code with unary prefixes.
pub fn get_delta_codec() -> (widths: [usize; 30])
    ensures
        widths@ == unary_widths(),
{
    let widths: [usize; 30] = [
        9, 19, 28, 37, 45, 54, 63, 73, 82, 89, 97, 106, 115, 123, 131, 140, 147, 156, 163, 170,
        175, 180, 185, 189, 193, 197, 202, 207, 210, 212,
    ];
    assert(widths@ =~= unary_widths());
    widths
}

/// The tier widths of the code with fixed prefixes; the last one stays unused.
pub fn get_delta_codec_fixed() -> (widths: [usize; 64])
    ensures
        widths@ == fixed_widths(),
{
    let widths: [usize; 64] = [
        1, 3, 5, 6, 7, 9, 11, 12, 14, 15, 17, 19, 20, 22, 24, 26, 28, 29, 31, 33, 35, 37, 39, 41,
        43, 45, 47, 49, 51, 54, 57, 60, 63, 65, 68, 71, 73, 76, 79, 82, 85, 88, 91, 94, 97, 100,
        104, 107, 111, 115, 119, 123, 128, 133, 140, 145, 150, 156, 162, 170, 177, 187, 197, 212,
    ];
    assert(widths@ =~= fixed_widths());
    widths
}

/// The tiers of a code: all of the unary one, all but the last of the fixed one.
pub open spec fn tiers(codec_id: u8) -> Seq<usize> {
    if codec_id == BASE_TABLE_TAG_DELTA_UNARY {
        unary_widths()
    } else {
        fixed_widths().take(63)
    }
}

/// The first tier from `from` on that a number fits, or the number of tiers.
pub open spec fn tier_from(widths: Seq<usize>, value: nat, from: int) -> int
    decreases widths.len() - from,
{
    if from >= widths.len() {
        widths.len() as int
    } else if value < pow2(widths[from] as nat) {
        from
    } else {
        tier_from(widths, value, from + 1)
    }
}

/// The prefix that announces a tier. The number of tiers stands for a number that fits none.
pub open spec fn prefix(codec_id: u8, tier: int) -> Seq<bool> {
    if codec_id == BASE_TABLE_TAG_DELTA_UNARY {
        let ones = Seq::new(tier as nat, |i: int| true);
        if tier < unary_widths().len() {
            ones.push(false)
        } else {
            ones
        }
    } else {
        low_digits(tier as nat, 6)
    }
}

/// How many bits follow the prefix of a tier, where keys have `key_width` bits.
pub open spec fn payload_width(codec_id: u8, tier: int, key_width: nat) -> nat {
    if tier < tiers(codec_id).len() {
        tiers(codec_id)[tier] as nat
    } else {
        key_width
    }
}

/// The code of a number.
pub open spec fn delta_code(codec_id: u8, value: nat, key_width: nat) -> Seq<bool> {
    let tier = tier_from(tiers(codec_id), value, 0);
    prefix(codec_id, tier) + low_digits(value, payload_width(codec_id, tier, key_width))
}

/// How many ones stand from a position on, `cap` at most.
pub open spec fn ones_from(bits: Seq<bool>, position: int, cap: nat) -> nat
    decreases cap,
{
    if cap == 0 || position >= bits.len() || !bits[position] {
        0
    } else {
        1 + ones_from(bits, position + 1, (cap - 1) as nat)
    }
}

/// The tier that is announced at a position, and where its prefix ends.
pub open spec fn read_prefix(codec_id: u8, bits: Seq<bool>, position: int) -> Option<(int, int)> {
    if codec_id == BASE_TABLE_TAG_DELTA_UNARY {
        let tier = ones_from(bits, position, unary_widths().len()) as int;
        if tier < unary_widths().len() {
            if position + tier < bits.len() {
                Some((tier, position + tier + 1))
            } else {
                None
            }
        } else {
            Some((tier, position + tier))
        }
    } else if codec_id == BASE_TABLE_TAG_DELTA_FIXED {
        if position + 6 <= bits.len() {
            Some((bits_value(bits.subrange(position, position + 6)) as int, position + 6))
        } else {
            None
        }
    } else {
        None
    }
}

/// Where the bits of the number at a position begin and end.
pub open spec fn read_payload(
    codec_id: u8,
    bits: Seq<bool>,
    position: int,
    key_width: nat,
) -> Option<(int, int)> {
    match read_prefix(codec_id, bits, position) {
        Some((tier, start)) => {
            let end = start + payload_width(codec_id, tier, key_width);
            if end <= bits.len() {
                Some((start, end))
            } else {
                None
            }
        },
        None => None,
    }
}

/// The number at a position, and where its code ends.
pub open spec fn read_delta(
    codec_id: u8,
    bits: Seq<bool>,
    position: int,
    key_width: nat,
) -> Option<(nat, int)> {
    match read_payload(codec_id, bits, position, key_width) {
        Some((start, end)) => Some((bits_value(bits.subrange(start, end)), end)),
        None => None,
    }
}

/// A run of ones is counted up to its end.
proof fn ones_are_counted(bits: Seq<bool>, position: int, count: nat, cap: nat)
    requires
        count <= cap,
        0 <= position,
        position + count <= bits.len(),
        forall|i: int| position <= i < position + count ==> #[trigger] bits[i],
        count < cap ==> position + count >= bits.len() || !bits[position + count],
    ensures
        ones_from(bits, position, cap) == count,
    decreases cap,
{
    if count > 0 {
        assert(bits[position]);
        ones_are_counted(bits, position + 1, (count - 1) as nat, (cap - 1) as nat);
    }
}

/// The tier of a number fits it, and there is one or none at all.
pub proof fn tier_fits(widths: Seq<usize>, value: nat, from: int)
    requires
        0 <= from <= widths.len(),
    ensures
        from <= tier_from(widths, value, from) <= widths.len(),
        tier_from(widths, value, from) < widths.len() ==> value < pow2(
            widths[tier_from(widths, value, from)] as nat,
        ),
    decreases widths.len() - from,
{
    if from < widths.len() && value >= pow2(widths[from] as nat) {
        tier_fits(widths, value, from + 1);
    }
}

/// No tier before that of a number fits it.
proof fn earlier_tiers_are_too_small(widths: Seq<usize>, value: nat, from: int, tier: int)
    requires
        0 <= from <= tier < tier_from(widths, value, from),
        tier < widths.len(),
    ensures
        value >= pow2(widths[tier] as nat),
    decreases widths.len() - from,
{
    if from < tier {
        earlier_tiers_are_too_small(widths, value, from + 1, tier);
    }
}

/// Tiers become wider.
proof fn tiers_ascend(codec_id: u8, first: int, second: int)
    requires
        codec_id == BASE_TABLE_TAG_DELTA_UNARY || codec_id == BASE_TABLE_TAG_DELTA_FIXED,
        0 <= first <= second < tiers(codec_id).len(),
    ensures
        tiers(codec_id)[first] <= tiers(codec_id)[second],
    decreases second - first,
{
    if first < second {
        tiers_ascend(codec_id, first, second - 1);
        assert(forall|k: int|
            0 <= k < tiers(codec_id).len() - 1 ==> tiers(codec_id)[k] <= #[trigger] tiers(
                codec_id,
            )[k + 1]);
        assert(tiers(codec_id)[second - 1 + 1] == tiers(codec_id)[second]);
    }
}

/// No tier that fits a number gives a shorter code than the one that is taken.
pub proof fn delta_code_is_shortest(codec_id: u8, value: nat, key_width: nat, tier: int)
    requires
        codec_id == BASE_TABLE_TAG_DELTA_UNARY || codec_id == BASE_TABLE_TAG_DELTA_FIXED,
        0 <= tier < tiers(codec_id).len(),
        value < pow2(tiers(codec_id)[tier] as nat),
    ensures
        delta_code(codec_id, value, key_width).len() <= prefix(codec_id, tier).len() + tiers(
            codec_id,
        )[tier],
{
    let widths = tiers(codec_id);
    let taken = tier_from(widths, value, 0);
    tier_fits(widths, value, 0);
    if tier < taken {
        earlier_tiers_are_too_small(widths, value, 0, tier);
    }
    tiers_ascend(codec_id, taken, tier);
}

/// A number is read back from its code, wherever that stands.
pub proof fn delta_code_is_read_back(
    codec_id: u8,
    value: nat,
    key_width: nat,
    before: Seq<bool>,
    after: Seq<bool>,
)
    requires
        codec_id == BASE_TABLE_TAG_DELTA_UNARY || codec_id == BASE_TABLE_TAG_DELTA_FIXED,
        value < pow2(key_width),
    ensures
        read_delta(
            codec_id,
            before + delta_code(codec_id, value, key_width) + after,
            before.len() as int,
            key_width,
        ) == Some((value, (before.len() + delta_code(codec_id, value, key_width).len()) as int)),
{
    let code = delta_code(codec_id, value, key_width);
    let bits = before + code + after;
    let at = before.len() as int;
    let widths = tiers(codec_id);
    let tier = tier_from(widths, value, 0);
    let width = payload_width(codec_id, tier, key_width);
    let head = prefix(codec_id, tier);
    let start = at + head.len();
    tier_fits(widths, value, 0);
    assert forall|i: int| 0 <= i < head.len() implies #[trigger] bits[at + i] == head[i] by {
    }
    if codec_id == BASE_TABLE_TAG_DELTA_UNARY {
        let cap = unary_widths().len();
        assert forall|i: int| at <= i < at + tier implies #[trigger] bits[i] by {
            assert(bits[at + (i - at)] == head[i - at]);
        }
        if tier < cap {
            assert(bits[at + tier] == head[tier]);
        }
        ones_are_counted(bits, at, tier as nat, cap);
    } else {
        assert(bits.subrange(at, at + 6) =~= head);
        lemma2_to64();
        value_fits(tier as nat, 6);
    }
    assert(read_prefix(codec_id, bits, at) == Some((tier, start)));
    assert(bits.subrange(start, start + width) =~= low_digits(value, width));
    value_fits(value, width);
}

/// The tier widths of a code.
pub fn tier_widths(codec_id: u8) -> (widths: Vec<usize>)
    ensures
        widths@ == tiers(codec_id),
        widths@.len() == (if codec_id == BASE_TABLE_TAG_DELTA_UNARY {
            30nat
        } else {
            63nat
        }),
        forall|i: int| 0 <= i < widths@.len() ==> #[trigger] widths@[i] <= 212,
{
    let mut widths: Vec<usize> = Vec::new();
    if codec_id == BASE_TABLE_TAG_DELTA_UNARY {
        let all = get_delta_codec();
        let mut i: usize = 0;
        while i < 30
            invariant
                i <= 30,
                all@ == unary_widths(),
                widths@ == unary_widths().take(i as int),
            decreases 30 - i,
        {
            widths.push(all[i]);
            assert(unary_widths().take(i as int + 1) =~= unary_widths().take(i as int).push(
                unary_widths()[i as int],
            ));
            i += 1;
        }
        assert(unary_widths().take(30) =~= unary_widths());
    } else {
        let all = get_delta_codec_fixed();
        let mut i: usize = 0;
        while i < 63
            invariant
                i <= 63,
                all@ == fixed_widths(),
                widths@ == fixed_widths().take(i as int),
            decreases 63 - i,
        {
            widths.push(all[i]);
            assert(fixed_widths().take(i as int + 1) =~= fixed_widths().take(i as int).push(
                fixed_widths()[i as int],
            ));
            i += 1;
        }
    }
    widths
}

/// The number of digits that a bit sequence needs.
fn needed_digits(number: &BitStream) -> (digits: usize)
    ensures
        digits <= number@.len(),
        forall|width: nat| bits_value(number@) < #[trigger] pow2(width) <==> digits <= width,
{
    let mut left: usize = number.bit_len();
    while left > 0 && !number.bit(left - 1)
        invariant
            left <= number@.len(),
            forall|i: int| left <= i < number@.len() ==> !#[trigger] number@[i],
        decreases left,
    {
        left -= 1;
    }
    proof {
        let value = bits_value(number@);
        bits_value_zeros(number@, left as int);
        bits_value_bound(number@.take(left as int));
        if left > 0 {
            bits_value_set(number@, left - 1);
        }
        assert forall|width: nat| value < #[trigger] pow2(width) <==> left <= width by {
            if left < width {
                lemma_pow2_strictly_increases(left as nat, width);
            } else if width + 1 < left {
                lemma_pow2_strictly_increases(width, (left - 1) as nat);
            }
        }
    }
    left
}

/// Appends the prefix that announces a tier.
fn write_delta_prefix(out: &mut BitStream, codec_id: u8, tier: usize)
    requires
        codec_id == BASE_TABLE_TAG_DELTA_UNARY ==> tier <= 30,
        old(out)@.len() + prefix(codec_id, tier as int).len() <= MAX_STREAM_BITS,
    ensures
        final(out)@ == old(out)@ + prefix(codec_id, tier as int),
{
    let ghost head = prefix(codec_id, tier as int);
    if codec_id == BASE_TABLE_TAG_DELTA_UNARY {
        let mut i: usize = 0;
        while i < tier
            invariant
                i <= tier <= 30,
                codec_id == BASE_TABLE_TAG_DELTA_UNARY,
                head == prefix(codec_id, tier as int),
                old(out)@.len() + head.len() <= MAX_STREAM_BITS,
                out@ == old(out)@ + head.take(i as int),
            decreases tier - i,
        {
            out.append_bit(true);
            assert(head.take(i as int + 1) =~= head.take(i as int).push(true));
            i += 1;
        }
        if tier < 30 {
            out.append_bit(false);
            assert(head =~= head.take(tier as int).push(false));
        } else {
            assert(head =~= head.take(tier as int));
        }
    } else {
        out.append_low_first(tier as u64, 6);
    }
    assert(out@ =~= old(out)@ + head);
}

/// How many bits went into codes, and into which parts of them.
#[derive(Debug, Clone, Copy, PartialEq, Eq, Structural)]
pub struct DeltaBitStats {
    pub total_written_bits: usize,
    pub prefix_bits: usize,
    pub payload_bits: usize,
    /// The digits of the numbers themselves.
    pub minimally_necessary_bits: usize,
}

impl DeltaBitStats {
    /// Whether the counts are those of the code of a number.
    pub open spec fn counts(self, codec_id: u8, value: nat, key_width: nat) -> bool {
        let tier = tier_from(tiers(codec_id), value, 0);
        &&& self.prefix_bits == prefix(codec_id, tier).len()
        &&& self.payload_bits == payload_width(codec_id, tier, key_width)
        &&& self.total_written_bits == self.prefix_bits + self.payload_bits
        &&& self.minimally_necessary_bits == significant_bits(value)
    }
}

/// A number with digits has its topmost one set.
proof fn topmost_digit(value: nat)
    requires
        value > 0,
    ensures
        pow2((significant_bits(value) - 1) as nat) <= value < pow2(significant_bits(value)),
    decreases value,
{
    lemma2_to64();
    let n = significant_bits(value);
    lemma_pow2_unfold(n);
    if value > 1 {
        topmost_digit(value / 2);
        lemma_pow2_unfold((n - 1) as nat);
    } else {
        assert(significant_bits(value / 2) == 0);
    }
}

/// Appends the code of a number that is given by its digits, and counts its bits.
pub fn encode_adjusted_delta_words(
    out: &mut BitStream,
    codec_id: u8,
    widths: &Vec<usize>,
    number: &BitStream,
) -> (stats: DeltaBitStats)
    requires
        widths@ == tiers(codec_id),
        old(out)@.len() + delta_code(codec_id, bits_value(number@), number@.len()).len()
            <= MAX_STREAM_BITS,
    ensures
        final(out)@ == old(out)@ + delta_code(codec_id, bits_value(number@), number@.len()),
        stats.counts(codec_id, bits_value(number@), number@.len()),
{
    let ghost value = bits_value(number@);
    let ghost code = delta_code(codec_id, value, number@.len());
    let key_width: usize = number.bit_len();
    let digits: usize = needed_digits(number);
    let mut tier: usize = 0;
    while tier < widths.len() && widths[tier] < digits
        invariant
            tier <= widths@.len(),
            value == bits_value(number@),
            forall|width: nat| value < #[trigger] pow2(width) <==> digits <= width,
            tier_from(widths@, value, 0) == tier_from(widths@, value, tier as int),
        decreases widths@.len() - tier,
    {
        assert(!(value < pow2(widths@[tier as int] as nat)));
        tier += 1;
    }
    proof {
        if tier < widths@.len() {
            assert(value < pow2(widths@[tier as int] as nat));
        }
        assert(tier_from(widths@, value, 0) == tier);
    }
    let width: usize = if tier < widths.len() {
        widths[tier]
    } else {
        key_width
    };
    let ghost head = prefix(codec_id, tier as int);
    let ghost payload = low_digits(value, width as nat);
    assert(code == head + payload);
    let before: usize = out.bit_len();
    write_delta_prefix(out, codec_id, tier);
    let prefix_bits: usize = out.bit_len() - before;
    let ghost start = out@;
    let mut i: usize = 0;
    while i < width
        invariant
            i <= width,
            key_width == number@.len(),
            value == bits_value(number@),
            payload == low_digits(value, width as nat),
            start.len() + width <= MAX_STREAM_BITS,
            out@ == start + payload.take(i as int),
        decreases width - i,
    {
        let bit: bool = i < key_width && number.bit(i);
        proof {
            bits_value_bound(number@);
            digits_of_value(number@);
            if i < key_width {
                assert(low_digits(value, number@.len())[i as int] == number@[i as int]);
            } else {
                digit_beyond(value, number@.len(), i as nat);
            }
            assert(payload.take(i as int + 1) =~= payload.take(i as int).push(payload[i as int]));
        }
        out.append_bit(bit);
        i += 1;
    }
    proof {
        assert(payload.take(width as int) =~= payload);
        assert(out@ =~= old(out)@ + code);
        if value > 0 {
            topmost_digit(value);
            assert(!(value < pow2((significant_bits(value) - 1) as nat)));
            assert(value < pow2(significant_bits(value)));
        } else {
            lemma2_to64();
            assert(value < pow2(0));
        }
    }
    DeltaBitStats {
        total_written_bits: prefix_bits + width,
        prefix_bits,
        payload_bits: width,
        minimally_necessary_bits: digits,
    }
}

/// Reads the prefix at a position: the tier, and where the prefix ends.
fn read_delta_prefix(bits: &BitStream, position: usize, codec_id: u8) -> (result: Result<
    (usize, usize),
    EntroGdError,
>)
    requires
        position <= bits@.len(),
    ensures
        match read_prefix(codec_id, bits@, position as int) {
            Some((tier, start)) => result is Ok && (result->Ok_0).0 == tier && (result->Ok_0).1
                == start && start <= bits@.len(),
            None => result matches Err(error) && error is InvalidMetadata,
        },
{
    let total: usize = bits.bit_len();
    if codec_id == BASE_TABLE_TAG_DELTA_UNARY {
        let mut tier: usize = 0;
        while tier < 30 && position + tier < total && bits.bit(position + tier)
            invariant
                tier <= 30,
                total == bits@.len() <= MAX_STREAM_BITS,
                position + tier <= total,
                forall|i: int| position <= i < position + tier ==> #[trigger] bits@[i],
            decreases 30 - tier,
        {
            tier += 1;
        }
        proof {
            ones_are_counted(bits@, position as int, tier as nat, 30);
        }
        if tier < 30 {
            if position + tier >= total {
                return Err(bad_metadata("invalid delta prefix terminator"));
            }
            Ok((tier, position + tier + 1))
        } else {
            Ok((tier, position + tier))
        }
    } else if codec_id == BASE_TABLE_TAG_DELTA_FIXED {
        if position + 6 > total {
            return Err(bad_metadata("insufficient bits for delta tier ID"));
        }
        proof {
            lemma2_to64();
            bits_value_bound(bits@.subrange(position as int, position + 6));
        }
        Ok((bits.number_at(position, position + 6) as usize, position + 6))
    } else {
        Err(
            EntroGdError::InvalidMetadata {
                message: numbered("unsupported delta codec tag ", codec_id as usize),
            },
        )
    }
}

/// Reads where the bits of the number at a position begin and end.
pub fn decode_adjusted_delta(
    bits: &BitStream,
    position: usize,
    key_width: usize,
    codec_id: u8,
    widths: &Vec<usize>,
) -> (result: Result<(usize, usize), EntroGdError>)
    requires
        position <= bits@.len(),
        key_width <= MAX_STREAM_BITS,
        widths@ == tiers(codec_id),
        forall|i: int| 0 <= i < widths@.len() ==> #[trigger] widths@[i] <= 212,
    ensures
        match read_payload(codec_id, bits@, position as int, key_width as nat) {
            Some((start, end)) => result is Ok && (result->Ok_0).0 == start && (result->Ok_0).1
                == end && position <= start <= end <= bits@.len(),
            None => result matches Err(error) && error is InvalidMetadata,
        },
{
    let total: usize = bits.bit_len();
    match read_delta_prefix(bits, position, codec_id) {
        Ok((tier, start)) => {
            let width: usize = if tier < widths.len() {
                widths[tier]
            } else {
                key_width
            };
            if start + width > total {
                return Err(bad_metadata("delta payload exceeds bitstream"));
            }
            Ok((start, start + width))
        },
        Err(error) => Err(error),
    }
}

} // verus!
