//! Bit widths and small integer codes.
use vstd::arithmetic::power2::{lemma2_to64, lemma_pow2_strictly_increases, lemma_pow2_unfold, pow2};
use vstd::prelude::*;

verus! {

/// The number of bits needed to tell `value` things apart, at least one.
pub open spec fn bits_needed(value: nat) -> nat
    decreases value,
{
    if value <= 2 {
        1
    } else {
        1 + bits_needed((value + 1) / 2)
    }
}

/// `bits_needed` is the least positive width with `value <= 2^width`.
pub proof fn bits_needed_is_least(value: nat)
    ensures
        1 <= bits_needed(value),
        value <= pow2(bits_needed(value)),
        bits_needed(value) > 1 ==> value > pow2((bits_needed(value) - 1) as nat),
    decreases value,
{
    lemma2_to64();
    if value > 2 {
        let half = (value + 1) / 2;
        bits_needed_is_least(half);
        let b = bits_needed(half);
        lemma_pow2_unfold((b + 1) as nat);
        if b > 1 {
            lemma_pow2_unfold(b);
        } else {
            assert(value > 2);
        }
    }
}

/// Whether numbers below `count` fit a width, and a smaller width of one or more bits is too small.
pub open spec fn is_least_width(width: nat, count: nat) -> bool {
    &&& 1 <= width
    &&& count <= pow2(width)
    &&& width > 1 ==> count > pow2((width - 1) as nat)
}

/// There is one least width.
pub proof fn least_width_is_needed(width: nat, count: nat)
    requires
        is_least_width(width, count),
    ensures
        bits_needed(count) == width,
{
    bits_needed_is_least(count);
    let needed = bits_needed(count);
    if width < needed {
        if width < needed - 1 {
            lemma_pow2_strictly_increases(width, (needed - 1) as nat);
        }
    } else if needed < width {
        if needed < width - 1 {
            lemma_pow2_strictly_increases(needed, (width - 1) as nat);
        }
    }
}

/// Wider ranges need at least as many bits, and a `usize` range needs at most its own width.
pub proof fn bits_needed_bound(value: nat, width: nat)
    requires
        value <= pow2(width),
        width >= 1,
    ensures
        bits_needed(value) <= width,
    decreases width,
{
    lemma2_to64();
    if value > 2 {
        assert(width >= 2) by {
            if width == 1 {
            }
        }
        lemma_pow2_unfold(width);
        bits_needed_bound((value + 1) / 2, (width - 1) as nat);
    }
}

/// The number of bits needed to tell `value` things apart, at least one.
pub fn bits_needed_nonzero(value: usize) -> (bits: usize)
    ensures
        bits == bits_needed(value as nat),
        1 <= bits <= 64,
{
    let mut rest: usize = value;
    let mut bits: usize = 1;
    proof {
        lemma2_to64();
        bits_needed_bound(value as nat, 64);
    }
    while rest > 2
        invariant
            bits_needed(value as nat) <= 64,
            bits_needed(value as nat) == bits - 1 + bits_needed(rest as nat),
            1 <= bits,
        decreases rest,
    {
        proof {
            bits_needed_is_least(((rest + 1) / 2) as nat);
        }
        rest = rest / 2 + rest % 2;
        bits += 1;
    }
    bits
}

/// The number of bits needed to tell `value` things apart: none for fewer than two.
pub fn min_position_bits(value: usize) -> (bits: usize)
    ensures
        bits == (if value <= 1 { 0 } else { bits_needed(value as nat) }),
        bits <= 64,
{
    if value <= 1 {
        0
    } else {
        bits_needed_nonzero(value)
    }
}

/// A byte read as a two's complement number.
pub open spec fn as_signed_byte(value: u8) -> int {
    if value < 128 {
        value as int
    } else {
        value - 256
    }
}

/// Half of a byte that holds a two's complement number, rounded towards minus infinity.
pub fn signed_half_wrapped(value: u8) -> (half: u8)
    ensures
        as_signed_byte(half) == as_signed_byte(value) / 2,
{
    if value < 128 {
        value / 2
    } else {
        128 + value / 2
    }
}

/// The zigzag code of a signed number: 0, -1, 1, -2, 2 and so on become 0, 1, 2, 3, 4.
pub open spec fn zigzag(value: int) -> int {
    if value >= 0 {
        2 * value
    } else {
        -2 * value - 1
    }
}

/// The signed number that a zigzag code stands for.
pub open spec fn unzigzag(code: int) -> int {
    if code % 2 == 0 {
        code / 2
    } else {
        -(code + 1) / 2
    }
}

/// The zigzag code of a signed number.
pub fn zigzag_encode_i16(value: i16) -> (code: u16)
    ensures
        code == zigzag(value as int),
{
    let wide: i32 = value as i32;
    let twice: i32 = wide + wide;
    if wide >= 0 {
        twice as u16
    } else {
        (0 - twice - 1) as u16
    }
}

/// The signed number behind a zigzag code.
pub fn zigzag_decode_i16(value: u16) -> (number: i16)
    ensures
        number == unzigzag(value as int),
{
    let half: i32 = (value / 2) as i32;
    if value % 2 == 0 {
        half as i16
    } else {
        (0 - half - 1) as i16
    }
}

/// Decoding a zigzag code gives the encoded number back, and encoding gives the code back.
pub proof fn zigzag_round_trip(value: int, code: int)
    requires
        code >= 0,
    ensures
        zigzag(value) >= 0,
        unzigzag(zigzag(value)) == value,
        zigzag(unzigzag(code)) == code,
{
}

/// A signed number as a 64-bit word, negative ones from the top down.
pub open spec fn word_of(value: i64) -> nat {
    if value < 0 {
        (value + 0x1_0000_0000_0000_0000) as nat
    } else {
        value as nat
    }
}

/// A signed number as a 64-bit word.
pub fn signed_as_word(value: i64) -> (word: u64)
    ensures
        word == word_of(value),
{
    if value >= 0 {
        value as u64
    } else {
        u64::MAX - ((0 - (value + 1)) as u64)
    }
}

/// The signed number that a 64-bit word stands for.
pub fn word_as_signed(word: u64) -> (value: i64)
    ensures
        word == word_of(value),
{
    if word <= i64::MAX as u64 {
        word as i64
    } else {
        0 - ((u64::MAX - word) as i64) - 1
    }
}

} // verus!
