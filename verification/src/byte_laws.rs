//! Where the digits of numbers and the bits of streams stand in bytes.
use vstd::arithmetic::power2::lemma2_to64;
use vstd::prelude::*;

use crate::bits::{bits_value, digit, low_digits};
use crate::bytes::{be_bytes, byte_len, le_bytes, le_bytes_len, packed};
use crate::numbers::{bits_value_bound, digit_of_half, digits_of_value, fitted, value_of_digits};

verus! {

/// The low digits of a number are those of the number in its lowest byte.
proof fn digits_of_lowest_byte(value: nat, j: nat)
    requires
        j < 8,
    ensures
        digit(value % 256, j) == digit(value, j),
{
    lemma2_to64();
    value_of_digits(value, 8);
    digits_of_value(low_digits(value, 8));
    assert(low_digits(value % 256, 8)[j as int] == low_digits(value, 8)[j as int]);
}

/// The digits above the lowest byte are those of the number without it.
proof fn digits_above_lowest_byte(value: nat, j: nat)
    ensures
        digit(value, j + 8) == digit(value / 256, j),
{
    digit_of_half(value, j + 7);
    digit_of_half(value / 2, j + 6);
    digit_of_half(value / 4, j + 5);
    digit_of_half(value / 8, j + 4);
    digit_of_half(value / 16, j + 3);
    digit_of_half(value / 32, j + 2);
    digit_of_half(value / 64, j + 1);
    digit_of_half(value / 128, j);
    assert(value / 2 / 2 == value / 4);
    assert(value / 4 / 2 == value / 8);
    assert(value / 8 / 2 == value / 16);
    assert(value / 16 / 2 == value / 32);
    assert(value / 32 / 2 == value / 64);
    assert(value / 64 / 2 == value / 128);
    assert(value / 128 / 2 == value / 256);
}

/// The first byte of a number holds its eight least significant digits, the next byte the next eight, and
/// so on.
pub proof fn low_byte_comes_first(value: nat, count: nat, i: int, j: nat)
    requires
        0 <= i < count,
        j < 8,
    ensures
        le_bytes(value, count).len() == count,
        digit(le_bytes(value, count)[i] as nat, j) == digit(value, (8 * i + j) as nat),
    decreases count,
{
    le_bytes_len(value, count);
    if i == 0 {
        digits_of_lowest_byte(value, j);
    } else {
        low_byte_comes_first(value / 256, (count - 1) as nat, i - 1, j);
        digits_above_lowest_byte(value, (8 * (i - 1) + j) as nat);
        assert(le_bytes(value, count)[i] == le_bytes(value / 256, (count - 1) as nat)[i - 1]);
    }
}

/// With the most significant byte first, the last byte holds the eight least significant digits.
pub proof fn high_byte_comes_first(value: nat, count: nat, i: int, j: nat)
    requires
        0 <= i < count,
        j < 8,
    ensures
        be_bytes(value, count).len() == count,
        digit(be_bytes(value, count)[i] as nat, j) == digit(
            value,
            (8 * (count - 1 - i) + j) as nat,
        ),
{
    le_bytes_len(value, count);
    low_byte_comes_first(value, count, count - 1 - i, j);
}

/// Bits fill bytes from the first one on and from the least significant digit on, with zeros behind the
/// last bit.
pub proof fn bits_fill_bytes_from_low_end(bits: Seq<bool>, i: int, j: nat)
    requires
        0 <= i < packed(bits).len(),
        j < 8,
    ensures
        packed(bits).len() == byte_len(bits.len()),
        8 * packed(bits).len() >= bits.len() > 8 * (packed(bits).len() - 1),
        digit(packed(bits)[i] as nat, j) == (8 * i + j < bits.len() && bits[8 * i + j]),
{
    let part = fitted(bits.skip(8 * i), 8);
    lemma2_to64();
    bits_value_bound(part);
    digits_of_value(part);
    assert(low_digits(bits_value(part), 8)[j as int] == part[j as int]);
    if 8 * i + j < bits.len() {
        assert(bits.skip(8 * i)[j as int] == bits[8 * i + j]);
    }
}

} // verus!
