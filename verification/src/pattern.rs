//! The tracker-URL pattern: a compiled matcher built once and passed by
//! reference into the extractor. This is the crate's trusted boundary
//! around the `regex` crate; everything downstream of the match is verified.

use vstd::prelude::*;

verus! {

#[verifier::external_type_specification]
#[verifier::external_body]
pub struct ExRegex(regex::Regex);

/// The character span of the first tracker-URL match in a text, if there is
/// one. The pattern is fixed, so the span is a function of the text alone;
/// this name stands for it and nothing in the crate pins it further.
pub uninterp spec fn url_match_of(text: Seq<char>) -> Option<(int, int)>;

/// An immutable handle to the compiled URL pattern.
pub struct UrlPattern {
    re: regex::Regex,
}

impl UrlPattern {
    /// Relies on `regex::Regex::new`: compiling this fixed, well-formed
    /// pattern succeeds and yields a matcher for exactly this pattern.
    #[verifier::external_body]
    pub fn new() -> (r: UrlPattern) {
        let re = regex::Regex::new(
            r#"https?://(www\.)?[-a-zA-Z0-9@:%._\+~#=]{1,256}\.[a-zA-Z0-9()]{1,6}\b([-a-zA-Z0-9()@:%_\+.~#?&//=]*)"#,
        ).unwrap();
        UrlPattern { re }
    }

    /// Relies on `regex::Regex::find`: the leftmost match of the pattern,
    /// returned as the matched substring plus its character offsets. The
    /// pattern requires at least a scheme, a host and a dot, so a match is
    /// never empty and lies inside the text.
    #[verifier::external_body]
    pub fn find_first(&self, text: &str) -> (r: Option<(String, usize, usize)>)
        ensures
            r is None ==> url_match_of(text@) is None,
            r matches Some((url, s, e)) ==> {
                &&& url_match_of(text@) == Some((s as int, e as int))
                &&& s < e <= text@.len()
                &&& url@ == text@.subrange(s as int, e as int)
            },
    {
        match self.re.find(text) {
            None => None,
            Some(m) => {
                let s = text[..m.start()].chars().count();
                let e = text[..m.end()].chars().count();
                Some((m.as_str().to_string(), s, e))
            },
        }
    }
}

} // verus!
