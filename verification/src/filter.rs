//! Relevance filter: a case-insensitive keyword heuristic over an
//! occurrence's snippet, deciding whether the reference looks like a
//! temporary workaround. A heuristic only — false positives and negatives
//! are expected and acceptable.

use vstd::prelude::*;

use crate::text::{contains_seq, lower_seq, str_contains};

verus! {

/// The snippet, after ASCII case folding, holds one of the workaround
/// keywords (each written here in its folded form).
pub open spec fn spec_is_relevant(s: Seq<char>) -> bool {
    ||| contains_seq(lower_seq(s), lower_seq("[activeissue("@))
    ||| contains_seq(lower_seq(s), lower_seq("fix"@))
    ||| contains_seq(lower_seq(s), lower_seq("resolve"@))
    ||| contains_seq(lower_seq(s), lower_seq("workaround"@))
    ||| contains_seq(lower_seq(s), lower_seq("work around"@))
    ||| contains_seq(lower_seq(s), lower_seq("for now"@))
    ||| contains_seq(lower_seq(s), lower_seq("temporarily"@))
    ||| contains_seq(lower_seq(s), lower_seq("currently"@))
}

/// Law: the filter is case-insensitive. Two snippets that agree up to ASCII
/// case are either both flagged or both passed over.
pub proof fn lemma_filter_case_insensitive(s: Seq<char>, t: Seq<char>)
    requires
        lower_seq(s) == lower_seq(t),
    ensures
        spec_is_relevant(s) == spec_is_relevant(t),
{
}

/// Whether an occurrence with this snippet counts as a workaround candidate.
pub fn is_relevant(snippet: &str) -> (r: bool)
    ensures
        r == spec_is_relevant(snippet@),
{
    str_contains(snippet, "[activeissue(", true) || str_contains(snippet, "fix", true)
        || str_contains(snippet, "resolve", true) || str_contains(snippet, "workaround", true)
        || str_contains(snippet, "work around", true) || str_contains(snippet, "for now", true)
        || str_contains(snippet, "temporarily", true) || str_contains(snippet, "currently", true)
}

} // verus!
