//! Matching text against a pattern. The matching itself is the work of the
//! `regex` crate; this module gives it a contract.

use vstd::prelude::*;

verus! {

/// The error of the `regex` crate for a pattern that it does not accept.
#[verifier::external_type_specification]
#[verifier::external_body]
pub struct ExPatternError(regex::Error);

/// Whether `regex::Regex::new` accepts the pattern.
pub uninterp spec fn pattern_compiles(pattern: Seq<char>) -> bool;

/// What `regex::Regex::captures` finds for the first match of the pattern in
/// the text: `None` when there is no match, else the text of every capture
/// group, the whole match first, with `None` for a group that took no part
/// in the match.
pub uninterp spec fn captures_of(pattern: Seq<char>, text: Seq<char>) -> Option<
    Seq<Option<Seq<char>>>,
>;

/// The capture groups of a match as plain sequences.
pub open spec fn groups_view(groups: Option<Vec<Option<Vec<char>>>>) -> Option<
    Seq<Option<Seq<char>>>,
> {
    match groups {
        Some(list) => Some(
            Seq::new(
                list@.len(),
                |i: int|
                    match list@[i] {
                        Some(text) => Some(text@),
                        None => None,
                    },
            ),
        ),
        None => None,
    }
}

/// Compiles the pattern with `regex::Regex::new` and searches the text with
/// `regex::Regex::captures`.
///
/// The contract claims that the call fails exactly for the patterns the
/// crate does not accept, and that otherwise the groups handed back are the
/// ones the crate found. What the crate finds is named, not described.
#[verifier::external_body]
pub(crate) fn captures(pattern: &str, text: &str) -> (r: Result<
    Option<Vec<Option<Vec<char>>>>,
    regex::Error,
>)
    ensures
        r is Ok <==> pattern_compiles(pattern@),
        r is Ok ==> groups_view(r->Ok_0) == captures_of(pattern@, text@),
{
    let re = regex::Regex::new(pattern)?;
    Ok(
        re.captures(text).map(
            |found| (0..found.len()).map(|i| found.get(i).map(|m| m.as_str().chars().collect())).collect(),
        ),
    )
}

/// What a search yields for the caller: the groups of the first match, or
/// `None` when the text does not match or the pattern is not accepted.
pub open spec fn matched(pattern: Seq<char>, text: Seq<char>) -> Option<Seq<Option<Seq<char>>>> {
    if pattern_compiles(pattern) {
        captures_of(pattern, text)
    } else {
        None
    }
}

/// The text of group `i` of a match, when the match has such a group and
/// the group took part in it.
pub open spec fn group_text(groups: Seq<Option<Seq<char>>>, i: int) -> Option<Seq<char>> {
    if 0 <= i < groups.len() {
        groups[i]
    } else {
        None
    }
}

/// The text of group `i` of a match.
pub fn group(groups: &Vec<Option<Vec<char>>>, i: usize) -> (r: Option<&Vec<char>>)
    ensures
        match r {
            Some(text) => groups_view(Some(*groups)) is Some && group_text(
                groups_view(Some(*groups))->0,
                i as int,
            ) == Some(text@),
            None => group_text(groups_view(Some(*groups))->0, i as int) is None,
        },
{
    if i < groups.len() {
        match &groups[i] {
            Some(text) => Some(text),
            None => None,
        }
    } else {
        None
    }
}

/// Searches the text for the pattern and hands back the groups of the first
/// match.
pub fn find(pattern: &str, text: &str) -> (r: Option<Vec<Option<Vec<char>>>>)
    ensures
        groups_view(r) == matched(pattern@, text@),
{
    match captures(pattern, text) {
        Ok(found) => found,
        Err(_) => None,
    }
}

} // verus!
