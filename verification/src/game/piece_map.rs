//! The letters by which a position text names the kinds of pieces, kept in
//! a hash map.
use vstd::prelude::*;
use rustc_hash::FxHashMap;

verus! {

/// `rustc_hash::FxBuildHasher`, the hasher of the map of letters; nothing is
/// claimed of it.
#[verifier::external_type_specification]
#[verifier::external_body]
pub struct ExFxBuildHasher(rustc_hash::FxBuildHasher);

/// A map from the letters of the kinds of pieces to the kinds.
pub type Letters = FxHashMap<char, usize>;

/// What a map of letters holds: for each letter that is a key the kind
/// that was last put in for it.
pub uninterp spec fn letters(map: Letters) -> Map<char, usize>;

/// What a map without letters holds.
pub open spec fn no_letters() -> Map<char, usize> {
    Map::empty()
}

/// `FxHashMap::default`: a map that holds nothing.
#[verifier::external_body]
pub(crate) fn new_letters() -> (r: Letters)
    ensures
        letters(r) == no_letters(),
{
    FxHashMap::default()
}

/// `HashMap::insert`: afterwards the map holds `kind` for `letter`, and for
/// every other letter what it held.
#[verifier::external_body]
pub(crate) fn set_letter(map: &mut Letters, letter: char, kind: usize)
    ensures
        letters(*final(map)) == letters(*old(map)).insert(letter, kind),
{
    map.insert(letter, kind);
}

/// `HashMap::get`: what the map holds for `letter`, if it holds anything
/// for it.
#[verifier::external_body]
pub(crate) fn kind_of(map: &Letters, letter: char) -> (r: Option<usize>)
    ensures
        r == if letters(*map).dom().contains(letter) {
            Some(letters(*map)[letter])
        } else {
            None
        },
{
    map.get(&letter).copied()
}

} // verus!
