//! Finding a pattern in a text, and what its named groups took.
use vstd::prelude::*;

verus! {

/// What the first match of `pattern` in `text` gives for the groups of the
/// given names: nothing where the pattern is not found, is no pattern, or
/// cannot be searched for; else for each name the text that its group
/// took, if the group took part in the match.
pub uninterp spec fn pattern_groups(
    pattern: Seq<char>,
    names: Seq<Seq<char>>,
    text: Seq<char>,
) -> Option<Seq<Option<Seq<char>>>>;

/// The views of the texts of the groups.
pub open spec fn groups_view(groups: Option<Vec<Option<String>>>) -> Option<Seq<Option<Seq<char>>>> {
    match groups {
        Some(found) => Some(
            Seq::new(
                found@.len(),
                |i: int|
                    match found@[i] {
                        Some(text) => Some(text@),
                        None => None,
                    },
            ),
        ),
        None => None,
    }
}

/// The views of the names.
pub open spec fn names_view(names: Seq<String>) -> Seq<Seq<char>> {
    Seq::new(names.len(), |i: int| names[i]@)
}

/// `fancy_regex::Regex::new`, `Regex::captures` and `Captures::name`: the
/// groups of the given names in the first match of the pattern. What comes
/// back depends on the pattern, the names and the text alone, and where
/// something comes back it holds one entry for each name.
#[verifier::external_body]
pub(crate) fn find_groups(pattern: &str, names: &Vec<String>, text: &str) -> (r: Option<
    Vec<Option<String>>,
>)
    ensures
        groups_view(r) == pattern_groups(pattern@, names_view(names@), text@),
        r matches Some(found) ==> found@.len() == names@.len(),
{
    let re = match fancy_regex::Regex::new(pattern) {
        Ok(re) => re,
        Err(_) => return None,
    };
    match re.captures(text) {
        Ok(Some(caps)) => Some(
            names.iter().map(|n| caps.name(n.as_str()).map(|m| m.as_str().to_string())).collect(),
        ),
        _ => None,
    }
}

} // verus!
