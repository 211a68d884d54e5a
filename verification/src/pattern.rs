//! Regular expressions that are compiled once and matched many times. Every item of this module
//! but the views is believed, not proved.

use crate::text::opt_view;
use vstd::prelude::*;

verus! {

/// A regular expression of the crate `regex` in its compiled form.
#[verifier::external_type_specification]
#[verifier::external_body]
pub struct ExRegex(regex::Regex);

/// A pattern with its compiled form, which it has where it is a regular expression. The two are set
/// together by `compile`, and by nothing else.
pub struct Pattern {
    text: String,
    compiled: Option<regex::Regex>,
}

impl View for Pattern {
    type V = Seq<char>;

    /// The text of the pattern.
    closed spec fn view(&self) -> Seq<char> {
        self.text@
    }
}

/// The groups of the leftmost match of a regular expression in a text; a group that took no part
/// in the match is `None`. There is no value where nothing matches, or where the pattern is not a
/// regular expression.
pub uninterp spec fn regex_groups_in(pattern: Seq<char>, s: Seq<char>) -> Option<
    Seq<Option<Seq<char>>>,
>;

/// The views of optional groups.
pub open spec fn group_views(groups: Option<Vec<Option<String>>>) -> Option<
    Seq<Option<Seq<char>>>,
> {
    match groups {
        Some(v) => Some(v@.map_values(|g: Option<String>| opt_view(g))),
        None => None,
    }
}

/// `regex::Regex::new` with the default options. The contract says only of which pattern the result
/// is the compiled form.
#[verifier::external_body]
pub(crate) fn compile(pattern: &str) -> (r: Pattern)
    ensures
        r@ == pattern@,
{
    Pattern { text: pattern.to_string(), compiled: regex::Regex::new(pattern).ok() }
}

/// `regex::Regex::captures`: the whole match and the capture groups, in their order. The contract
/// says only that the outcome depends on nothing but the pattern and the text.
#[verifier::external_body]
pub(crate) fn groups_of(pattern: &Pattern, s: &str) -> (r: Option<Vec<Option<String>>>)
    ensures
        group_views(r) == regex_groups_in(pattern@, s@),
{
    let found = pattern.compiled.as_ref()?.captures(s)?;
    Some(found.iter().map(|g| g.map(|m| m.as_str().to_string())).collect())
}

} // verus!
