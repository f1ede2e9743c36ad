//! Which extension a file gets.
use vstd::prelude::*;

use crate::text::{same_in_small_letters, small_letters, text_view};

verus! {

/// The extension that a file must be given to end with `wanted`, where it does not have it in
/// capital or small letters.
pub open spec fn missing_extension(extension: Option<Seq<char>>, wanted: Seq<char>) -> Option<
    Seq<char>,
> {
    match extension {
        Some(text) => if small_letters(text) == wanted {
            None
        } else {
            Some(wanted)
        },
        None => Some(wanted),
    }
}

fn ensure_extension(extension: Option<&str>, wanted: &'static str) -> (change: Option<&'static str>)
    ensures
        text_view(change) == missing_extension(text_view(extension), wanted@),
{
    match extension {
        Some(text) => if same_in_small_letters(text, wanted) {
            None
        } else {
            Some(wanted)
        },
        None => Some(wanted),
    }
}

/// The extension that a compressed table file must be given, if any.
pub fn ensure_egd_extension(extension: Option<&str>) -> (change: Option<&'static str>)
    ensures
        text_view(change) == missing_extension(text_view(extension), "egd"@),
{
    ensure_extension(extension, "egd")
}

/// The extension that a compressed image file must be given, if any.
pub fn ensure_igd_extension(extension: Option<&str>) -> (change: Option<&'static str>)
    ensures
        text_view(change) == missing_extension(text_view(extension), "igd"@),
{
    ensure_extension(extension, "igd")
}

/// The extension that a compressed file of a table with its column names must be given, if any.
pub fn ensure_tgd_extension(extension: Option<&str>) -> (change: Option<&'static str>)
    ensures
        text_view(change) == missing_extension(text_view(extension), "tgd"@),
{
    ensure_extension(extension, "tgd")
}

/// The extension that a table file must be given, if any.
pub fn ensure_csv_extension(extension: Option<&str>) -> (change: Option<&'static str>)
    ensures
        text_view(change) == missing_extension(text_view(extension), "csv"@),
{
    ensure_extension(extension, "csv")
}

/// A file that is given the extension it lacks lacks nothing any more, and one that has it in any
/// letters is left as it is.
pub proof fn given_extension_is_enough(extension: Option<Seq<char>>, wanted: Seq<char>)
    requires
        small_letters(wanted) == wanted,
    ensures
        missing_extension(Some(wanted), wanted) is None,
        missing_extension(extension, wanted) matches Some(given) ==> given == wanted
            && missing_extension(Some(given), wanted) is None,
        missing_extension(extension, wanted) is None <==> (extension matches Some(text)
            && small_letters(text) == wanted),
{
}

} // verus!
