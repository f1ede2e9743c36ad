//! Text building for error messages and profile names.
use vstd::prelude::*;
use vstd::string::{StrSliceExecFns, StringExecFns};
use vstd::utf8::{decode_utf8, valid_utf8};

verus! {

/// The decimal digit character of a number below ten.
pub open spec fn digit_char(n: nat) -> char {
    (48 + n) as char
}

/// The decimal notation of a number.
pub open spec fn decimal(n: nat) -> Seq<char>
    decreases n,
{
    if n < 10 {
        seq![digit_char(n)]
    } else {
        decimal(n / 10).push(digit_char(n % 10))
    }
}

/// The number that decimal digits spell.
pub open spec fn decimal_value(text: Seq<char>) -> int
    decreases text.len(),
{
    if text.len() == 0 {
        0
    } else {
        10 * decimal_value(text.drop_last()) + (text.last() as int - '0' as int)
    }
}

/// The decimal notation of a number spells it in digits, without zeros in front.
pub proof fn decimal_spells_number(n: nat)
    ensures
        decimal_value(decimal(n)) == n,
        decimal(n).len() > 0,
        n > 0 ==> decimal(n)[0] != '0',
        forall|i: int| 0 <= i < decimal(n).len() ==> '0' <= #[trigger] decimal(n)[i] <= '9',
    decreases n,
{
    if n < 10 {
        let text = decimal(n);
        assert(text.drop_last() =~= Seq::empty());
        assert(text.last() as int == 48 + n);
        assert(decimal_value(text.drop_last()) == 0);
    } else {
        decimal_spells_number(n / 10);
        let text = decimal(n);
        assert(text.drop_last() =~= decimal(n / 10));
        assert(text.last() as int == 48 + n % 10);
    }
}

/// `usize::to_string`: the decimal notation of the number.
#[verifier::external_body]
pub(crate) fn decimal_text(n: usize) -> (text: String)
    ensures
        text@ == decimal(n as nat),
{
    n.to_string()
}

/// More text at the end.
pub(crate) fn append_text(text: &mut String, part: &str)
    ensures
        final(text)@ == old(text)@ + part@,
{
    text.append(part);
}

/// `String::from_utf8`: the text that bytes encode, where they encode one.
#[verifier::external_body]
pub(crate) fn text_of_bytes(bytes: Vec<u8>) -> (text: Option<String>)
    ensures
        text is Some <==> valid_utf8(bytes@),
        text matches Some(found) ==> found@ == decode_utf8(bytes@),
{
    String::from_utf8(bytes).ok()
}

/// Text between two other pieces of text.
pub(crate) fn text_within(before: &str, middle: &str, after: &str) -> (text: String)
    ensures
        text@ == before@ + middle@ + after@,
{
    let mut text = before.to_owned();
    append_text(&mut text, middle);
    append_text(&mut text, after);
    text
}

/// The decimal notation of a number with zeros in front, at least three digits long.
pub open spec fn three_digits(n: nat) -> Seq<char> {
    if n < 10 {
        "00"@ + decimal(n)
    } else if n < 100 {
        "0"@ + decimal(n)
    } else {
        decimal(n)
    }
}

/// Appends a number with zeros in front, at least three digits long.
pub(crate) fn append_three_digits(text: &mut String, n: usize)
    ensures
        final(text)@ == old(text)@ + three_digits(n as nat),
{
    if n < 10 {
        append_text(text, "00");
    } else if n < 100 {
        append_text(text, "0");
    }
    let digits = decimal_text(n);
    append_text(text, digits.as_str());
    assert(text@ =~= old(text)@ + three_digits(n as nat));
}

/// Appends a piece of text and a number.
pub(crate) fn append_numbered(text: &mut String, before: &str, n: usize)
    ensures
        final(text)@ == old(text)@ + before@ + decimal(n as nat),
{
    append_text(text, before);
    let digits = decimal_text(n);
    append_text(text, digits.as_str());
}

/// Appends two pieces of text.
pub(crate) fn append_labelled(text: &mut String, before: &str, label: &str)
    ensures
        final(text)@ == old(text)@ + before@ + label@,
{
    append_text(text, before);
    append_text(text, label);
}

/// A piece of text followed by a number.
pub(crate) fn numbered(before: &str, n: usize) -> (text: String)
    ensures
        text@ == before@ + decimal(n as nat),
{
    let mut text = before.to_owned();
    let digits = decimal_text(n);
    append_text(&mut text, digits.as_str());
    text
}

/// A number between two pieces of text.
pub(crate) fn number_within(before: &str, n: usize, after: &str) -> (text: String)
    ensures
        text@ == before@ + decimal(n as nat) + after@,
{
    let mut text = numbered(before, n);
    append_text(&mut text, after);
    text
}

/// Two numbers, each behind a piece of text.
pub(crate) fn two_numbers(before: &str, n: usize, between: &str, k: usize) -> (text: String)
    ensures
        text@ == before@ + decimal(n as nat) + between@ + decimal(k as nat),
{
    let mut text = number_within(before, n, between);
    let digits = decimal_text(k);
    append_text(&mut text, digits.as_str());
    text
}

/// The content of a text, where there is one.
pub open spec fn text_view(text: Option<&str>) -> Option<Seq<char>> {
    match text {
        Some(found) => Some(found@),
        None => None,
    }
}

/// A letter of the Latin alphabet as a small letter; any other character as it is.
pub open spec fn small_letter(c: char) -> char {
    if 'A' <= c <= 'Z' {
        (c as int + 32) as char
    } else {
        c
    }
}

/// A text with small letters.
pub open spec fn small_letters(text: Seq<char>) -> Seq<char> {
    text.map_values(|c: char| small_letter(c))
}

/// Whether a text with small letters is `small`.
pub(crate) fn same_in_small_letters(text: &str, small: &str) -> (same: bool)
    ensures
        same == (small_letters(text@) == small@),
{
    let len: usize = text.unicode_len();
    if small.unicode_len() != len {
        assert(small_letters(text@).len() != small@.len());
        return false;
    }
    let mut i: usize = 0;
    while i < len
        invariant
            len == text@.len(),
            len == small@.len(),
            i <= len,
            forall|k: int| 0 <= k < i ==> small_letter(text@[k]) == #[trigger] small@[k],
        decreases len - i,
    {
        let c: char = text.get_char(i);
        let lowered: char = if 'A' <= c && c <= 'Z' {
            (c as u8 + 32) as char
        } else {
            c
        };
        if lowered != small.get_char(i) {
            assert(small_letters(text@)[i as int] != small@[i as int]);
            return false;
        }
        i += 1;
    }
    assert(small_letters(text@) =~= small@);
    true
}

/// Whether two texts are the same.
pub(crate) fn same_text(first: &str, second: &str) -> (same: bool)
    ensures
        same == (first@ == second@),
{
    let len: usize = first.unicode_len();
    if second.unicode_len() != len {
        return false;
    }
    let mut i: usize = 0;
    while i < len
        invariant
            len == first@.len(),
            len == second@.len(),
            i <= len,
            forall|k: int| 0 <= k < i ==> first@[k] == second@[k],
        decreases len - i,
    {
        if first.get_char(i) != second.get_char(i) {
            return false;
        }
        i += 1;
    }
    assert(first@ =~= second@);
    true
}

} // verus!
