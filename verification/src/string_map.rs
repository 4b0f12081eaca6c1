//! The map that holds attributes and named references: an `FnvHashMap` from
//! `String` to `String`, used through three of its operations.

use fnv::FnvHashMap;
use fnv::FnvHasher;
use std::hash::BuildHasherDefault;
use vstd::prelude::*;

verus! {

/// `fnv::FnvHasher`, the hasher of the map: only named, never used here.
#[verifier::external_type_specification]
#[verifier::external_body]
pub struct ExFnvHasher(FnvHasher);

/// `std::hash::BuildHasherDefault`, which makes the hasher of the map: only
/// named, never used here.
#[verifier::external_type_specification]
#[verifier::external_body]
#[verifier::reject_recursive_types(H)]
pub struct ExBuildHasherDefault<H>(BuildHasherDefault<H>);

/// A map from strings to strings that hashes its keys with FNV.
pub type StringMap = FnvHashMap<String, String>;

/// The keys that a map holds, each with its value.
pub uninterp spec fn entries(map: FnvHashMap<String, String>) -> Map<Seq<char>, Seq<char>>;

/// `FnvHashMap::default()`: a map that holds nothing.
#[verifier::external_body]
pub(crate) fn empty_map() -> (made: StringMap)
    ensures
        entries(made) == (Map::<Seq<char>, Seq<char>>::empty()),
{
    FnvHashMap::default()
}

/// `HashMap::insert` on the map: afterwards `key` has `value`, in place of
/// what it had before, and every other key has what it had.
#[verifier::external_body]
pub(crate) fn insert(into: &mut StringMap, key: String, value: String)
    ensures
        entries(*final(into)) == entries(*old(into)).insert(key@, value@),
{
    into.insert(key, value);
}

/// `HashMap::get` on the map: the value of `key` where the map holds the key,
/// and nothing where it does not.
#[verifier::external_body]
pub(crate) fn lookup<'a>(from: &'a StringMap, key: &str) -> (value: Option<&'a String>)
    ensures
        value is Some <==> entries(*from).contains_key(key@),
        value is Some ==> value->0@ == entries(*from)[key@],
{
    from.get(key)
}

} // verus!
