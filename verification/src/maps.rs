//! Hash maps of the `fxhash` crate.
use fxhash::FxHashMap;
use vstd::prelude::*;

verus! {

/// The hasher of the `fxhash` crate.
#[verifier::external_type_specification]
#[verifier::external_body]
pub struct ExFxHasher(fxhash::FxHasher);

/// The builder that makes a fresh hasher for each value, as the map type of `fxhash` uses it.
#[verifier::external_type_specification]
#[verifier::external_body]
#[verifier::reject_recursive_types(H)]
pub struct ExBuildHasherDefault<H>(std::hash::BuildHasherDefault<H>);

/// `FxHashMap::default`: a map of codes by symbol without entries.
#[verifier::external_body]
pub(crate) fn no_codes() -> (codes: FxHashMap<u64, (u32, u8)>)
    ensures
        forall|symbol: u64| !#[trigger] codes@.contains_key(symbol),
{
    FxHashMap::default()
}

/// `HashMap::insert` on codes by symbol: the entry is set, and the one it replaces handed back.
#[verifier::external_body]
pub(crate) fn put_code(
    codes: &mut FxHashMap<u64, (u32, u8)>,
    symbol: u64,
    code: (u32, u8),
) -> (previous: Option<(u32, u8)>)
    ensures
        final(codes)@ == old(codes)@.insert(symbol, code),
        previous == (if old(codes)@.contains_key(symbol) {
            Some(old(codes)@[symbol])
        } else {
            None
        }),
{
    codes.insert(symbol, code)
}

/// `HashMap::get` on codes by symbol: the entry, where there is one.
#[verifier::external_body]
pub(crate) fn get_code(codes: &FxHashMap<u64, (u32, u8)>, symbol: u64) -> (found: Option<(u32, u8)>)
    ensures
        found == (if codes@.contains_key(symbol) {
            Some(codes@[symbol])
        } else {
            None
        }),
{
    codes.get(&symbol).copied()
}

/// `FxHashMap::default`: a map of symbols by code without entries.
#[verifier::external_body]
pub(crate) fn no_symbols() -> (symbols: FxHashMap<u32, u64>)
    ensures
        forall|code: u32| !#[trigger] symbols@.contains_key(code),
{
    FxHashMap::default()
}

/// `HashMap::insert` on symbols by code: the entry is set, and the one it replaces handed back.
#[verifier::external_body]
pub(crate) fn put_symbol(symbols: &mut FxHashMap<u32, u64>, code: u32, symbol: u64) -> (previous:
    Option<u64>)
    ensures
        final(symbols)@ == old(symbols)@.insert(code, symbol),
        previous == (if old(symbols)@.contains_key(code) {
            Some(old(symbols)@[code])
        } else {
            None
        }),
{
    symbols.insert(code, symbol)
}

/// `HashMap::get` on symbols by code: the entry, where there is one.
#[verifier::external_body]
pub(crate) fn get_symbol(symbols: &FxHashMap<u32, u64>, code: u32) -> (found: Option<u64>)
    ensures
        found == (if symbols@.contains_key(code) {
            Some(symbols@[code])
        } else {
            None
        }),
{
    symbols.get(&code).copied()
}

/// `HashMap::clone` on symbols by code: another map with the same entries.
#[verifier::external_body]
pub(crate) fn copy_symbols(symbols: &FxHashMap<u32, u64>) -> (copy: FxHashMap<u32, u64>)
    ensures
        copy@ == symbols@,
{
    symbols.clone()
}

} // verus!
