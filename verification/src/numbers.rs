//! Numbers and their binary digits.
use vstd::arithmetic::div_mod::{
    lemma_basic_div, lemma_div_denominator, lemma_fundamental_div_mod_converse, lemma_mod_breakdown,
    lemma_small_mod,
};
use vstd::arithmetic::power2::{
    lemma2_to64, lemma_pow2_pos, lemma_pow2_strictly_increases, lemma_pow2_unfold, pow2,
};
use vstd::prelude::*;

use crate::bits::{bits_value, digit, low_digits};

verus! {

/// The digits of a number, but for the last one, are the digits of its half.
pub proof fn digit_of_half(value: nat, i: nat)
    ensures
        digit(value, i + 1) == digit(value / 2, i),
        digit(value, 0) == (value % 2 == 1),
{
    lemma2_to64();
    lemma_pow2_pos(i);
    lemma_pow2_unfold(i + 1);
    lemma_div_denominator(value as int, 2, pow2(i) as int);
}

/// The low digits of a number spell it, less what they cannot hold.
pub proof fn value_of_digits(value: nat, width: nat)
    ensures
        bits_value(low_digits(value, width)) == value % pow2(width),
    decreases width,
{
    lemma2_to64();
    if width > 0 {
        let rest = (width - 1) as nat;
        let digits = low_digits(value, width);
        assert forall|i: int| 0 <= i < rest implies #[trigger] digits.drop_first()[i] == low_digits(
            value / 2,
            rest,
        )[i] by {
            digit_of_half(value, i as nat);
        }
        assert(digits.drop_first() =~= low_digits(value / 2, rest));
        value_of_digits(value / 2, rest);
        digit_of_half(value, 0);
        lemma_pow2_unfold(width);
        lemma_pow2_pos(rest);
        lemma_mod_breakdown(value as int, 2, pow2(rest) as int);
    } else {
        assert(low_digits(value, 0) =~= Seq::empty());
    }
}

/// Digits are those of the number that they spell.
pub proof fn digits_of_value(bits: Seq<bool>)
    ensures
        low_digits(bits_value(bits), bits.len()) == bits,
    decreases bits.len(),
{
    if bits.len() > 0 {
        let rest = bits.drop_first();
        let value = bits_value(bits);
        digits_of_value(rest);
        assert(value / 2 == bits_value(rest));
        assert forall|i: int| 0 <= i < bits.len() implies #[trigger] low_digits(
            value,
            bits.len(),
        )[i] == bits[i] by {
            if i == 0 {
                digit_of_half(value, 0);
            } else {
                digit_of_half(value, (i - 1) as nat);
                assert(low_digits(bits_value(rest), rest.len())[i - 1] == rest[i - 1]);
            }
        }
    }
    assert(low_digits(bits_value(bits), bits.len()) =~= bits);
}

/// What some digits spell is less than what one digit more could.
pub proof fn bits_value_bound(bits: Seq<bool>)
    ensures
        bits_value(bits) < pow2(bits.len()),
    decreases bits.len(),
{
    lemma2_to64();
    if bits.len() > 0 {
        bits_value_bound(bits.drop_first());
        lemma_pow2_unfold(bits.len());
    }
}

/// What digits followed by higher digits spell.
pub proof fn bits_value_concat(low: Seq<bool>, high: Seq<bool>)
    ensures
        bits_value(low + high) == bits_value(low) + pow2(low.len()) * bits_value(high),
    decreases low.len(),
{
    lemma2_to64();
    if low.len() == 0 {
        assert(low + high =~= high);
    } else {
        let rest = low.drop_first();
        assert((low + high).drop_first() =~= rest + high);
        bits_value_concat(rest, high);
        lemma_pow2_unfold(low.len());
        let p = pow2(rest.len()) as int;
        let h = bits_value(high) as int;
        assert(2 * (p * h) == (2 * p) * h) by (nonlinear_arith);
    }
}

/// One more digit at the high end.
pub proof fn bits_value_push(bits: Seq<bool>, bit: bool)
    ensures
        bits_value(bits.push(bit)) == bits_value(bits) + (if bit {
            pow2(bits.len())
        } else {
            0
        }),
{
    let one = seq![bit];
    assert(bits.push(bit) =~= bits + one);
    bits_value_concat(bits, one);
    assert(one.drop_first() =~= Seq::empty());
    assert(bits_value(one.drop_first()) == 0);
    let p = pow2(bits.len()) as int;
    let h = bits_value(one) as int;
    assert(h == (if bit {
        1int
    } else {
        0int
    }));
    assert((h == 0 ==> p * h == 0) && (h == 1 ==> p * h == p)) by (nonlinear_arith);
}

/// Zeros at the high end do not matter.
pub proof fn bits_value_zeros(bits: Seq<bool>, width: int)
    requires
        0 <= width <= bits.len(),
        forall|i: int| width <= i < bits.len() ==> !#[trigger] bits[i],
    ensures
        bits_value(bits) == bits_value(bits.take(width)),
    decreases bits.len(),
{
    if width < bits.len() {
        let before = bits.drop_last();
        bits_value_zeros(before, width);
        bits_value_push(before, bits.last());
        assert(bits =~= before.push(bits.last()));
        assert(bits.take(width) =~= before.take(width));
    } else {
        assert(bits.take(width) =~= bits);
    }
}

/// A digit that is set contributes its power of two.
pub proof fn bits_value_set(bits: Seq<bool>, i: int)
    requires
        0 <= i < bits.len(),
        bits[i],
    ensures
        bits_value(bits) >= pow2(i as nat),
{
    let low = bits.take(i);
    let high = bits.skip(i);
    assert(bits =~= low + high);
    bits_value_concat(low, high);
    assert(high[0] == bits[i]);
    assert(bits_value(high) >= 1);
    let p = pow2(i as nat) as int;
    let h = bits_value(high) as int;
    assert(p * h >= p) by (nonlinear_arith)
        requires
            h >= 1,
            p >= 0,
    ;
}

/// Digits above those that a number needs are zero.
pub proof fn digit_beyond(value: nat, width: nat, i: nat)
    requires
        value < pow2(width),
        width <= i,
    ensures
        !digit(value, i),
{
    if width < i {
        lemma_pow2_strictly_increases(width, i);
    }
    lemma_basic_div(value as int, pow2(i) as int);
}

/// The first `width` of some digits, with zeros where there are fewer.
pub open spec fn fitted(bits: Seq<bool>, width: nat) -> Seq<bool> {
    Seq::new(width, |i: int| i < bits.len() && bits[i])
}

/// Digits that are cut or filled up spell the same number, less what they cannot hold.
pub proof fn fitted_value(bits: Seq<bool>, width: nat)
    ensures
        bits_value(fitted(bits, width)) == bits_value(bits) % pow2(width),
{
    let cut = fitted(bits, width);
    lemma_pow2_pos(width);
    if width <= bits.len() {
        let low = bits.take(width as int);
        let high = bits.skip(width as int);
        assert(bits =~= low + high);
        assert(cut =~= low);
        bits_value_concat(low, high);
        bits_value_bound(low);
        let p = pow2(width) as int;
        let l = bits_value(low) as int;
        let h = bits_value(high) as int;
        lemma_fundamental_div_mod_converse(l + p * h, p, h, l);
    } else {
        bits_value_zeros(cut, bits.len() as int);
        assert(cut.take(bits.len() as int) =~= bits);
        bits_value_bound(cut);
        lemma_small_mod(bits_value(bits), pow2(width));
    }
}

/// A number that needs no more digits is spelled by them.
pub proof fn value_fits(value: nat, width: nat)
    requires
        value < pow2(width),
    ensures
        bits_value(low_digits(value, width)) == value,
{
    value_of_digits(value, width);
    lemma_small_mod(value, pow2(width));
}

/// The sum of numbers.
pub open spec fn sum_of(values: Seq<nat>) -> nat
    decreases values.len(),
{
    if values.len() == 0 {
        0
    } else {
        sum_of(values.drop_last()) + values.last()
    }
}

} // verus!
