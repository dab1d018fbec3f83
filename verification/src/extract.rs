//! URL extractor: scans one file's decoded text for the first tracker-URL
//! match and, when the URL has the tracker's issue-path shape, builds the
//! single occurrence that the file contributes.

use vstd::prelude::*;

use crate::lines::{find_line_of_position, snippet_around, spec_line_number, spec_snippet};
use crate::occurrence::{Found, FoundView};
use crate::pattern::{url_match_of, UrlPattern};
use crate::text::{contains_seq, str_contains};

verus! {

/// The occurrence a file with path `path` and decoded text `text` yields:
/// the first URL match, kept only when it carries the tracker's issue path,
/// located and framed by the line machinery.
pub open spec fn spec_extract(path: Seq<char>, text: Seq<char>) -> Option<FoundView> {
    match url_match_of(text) {
        None => None,
        Some((s, e)) => {
            let url = text.subrange(s, e);
            if !contains_seq(url, "github.com/dotnet/runtime/issues"@) {
                None
            } else {
                Some(
                    FoundView {
                        file: path,
                        url: url,
                        snippet: spec_snippet(text, spec_line_number(text, s)),
                        line: spec_line_number(text, s),
                        start: s,
                        end: e,
                    },
                )
            }
        },
    }
}

/// Scans `text` (one file's decoded contents, with `rel_path` its path
/// relative to the scan root) and returns its occurrence, if it has one.
pub fn extract_occurrence(pat: &UrlPattern, rel_path: &str, text: &str) -> (r: Option<Found>)
    ensures
        r matches Some(f) ==> spec_extract(rel_path@, text@) == Some(f@),
        r is None ==> spec_extract(rel_path@, text@) is None,
        r matches Some(f) ==> f@.start < f@.end <= text@.len() && 1 <= f@.line,
{
    match pat.find_first(text) {
        None => None,
        Some((url, s, e)) => {
            if !str_contains(url.as_str(), "github.com/dotnet/runtime/issues", false) {
                None
            } else {
                match find_line_of_position(text, s) {
                    None => {
                        // unreachable: the match begins strictly inside the text
                        proof {
                            assert(false);
                        }
                        None
                    },
                    Some(line) => {
                        let snippet = snippet_around(text, line);
                        let f = Found {
                            file: String::from_str(rel_path),
                            url,
                            snippet,
                            line,
                            start: s,
                            end: e,
                        };
                        proof {
                            assert(spec_extract(rel_path@, text@) == Some(f@)) by {
                                assert(spec_extract(rel_path@, text@) matches Some(v) && v =~= f@);
                            }
                        }
                        Some(f)
                    },
                }
            }
        },
    }
}

} // verus!
