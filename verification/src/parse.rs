//! Issue-ID parser: pulls the numeric identifier out of a tracker URL,
//! tolerating trailing fragments, query strings and punctuation. `0` is a
//! reserved sentinel meaning "no identifier found"; tracker issues are
//! numbered from 1, so the sentinel collides with no real issue.

use vstd::prelude::*;

use crate::text::{
    char_is_digit, digit_val, is_digit, last_index_of, lemma_last_index_of,
    lemma_last_index_of_append, str_last_index_of,
};

verus! {

/// Drop a trailing fragment (`#...`), then a trailing query (`?...`).
/// The query marker is located in the original string, as the tool always
/// did, so a `?` that sat inside an already-dropped fragment is ignored.
pub open spec fn strip_markers(s: Seq<char>) -> Seq<char> {
    let hp = last_index_of(s, '#');
    let u1 = if hp >= 0 {
        s.take(hp)
    } else {
        s
    };
    let qp = last_index_of(s, '?');
    if 0 <= qp <= u1.len() {
        u1.take(qp)
    } else {
        u1
    }
}

/// Remove characters from the end while they are not ASCII digits.
pub open spec fn trim_trailing_nondigits(s: Seq<char>) -> Seq<char>
    decreases s.len(),
{
    if s.len() == 0 {
        s
    } else if is_digit(s.last()) {
        s
    } else {
        trim_trailing_nondigits(s.drop_last())
    }
}

pub open spec fn all_digits(s: Seq<char>) -> bool {
    forall|i: int| 0 <= i < s.len() ==> is_digit(s[i])
}

/// Value of a decimal digit string, most significant digit first.
pub open spec fn digits_value(s: Seq<char>) -> int
    decreases s.len(),
{
    if s.len() == 0 {
        0
    } else {
        digits_value(s.drop_last()) * 10 + digit_val(s.last())
    }
}

/// What `str::parse::<u32>` accepts: an optional leading `+`, then one or
/// more digits whose value fits; anything else reads as `0` here.
pub open spec fn spec_parse_u32(s: Seq<char>) -> int {
    let d = if s.len() > 0 && s[0] == '+' {
        s.drop_first()
    } else {
        s
    };
    if d.len() > 0 && all_digits(d) && digits_value(d) <= u32::MAX {
        digits_value(d)
    } else {
        0
    }
}

/// The parser, end to end: strip fragment and query, trim trailing
/// non-digits, then read an unsigned number from just after the last `/` of
/// the original URL. Every failure (no slash, the trimmed string no longer
/// reaches past that slash, or an unparseable tail) yields the sentinel `0`.
pub open spec fn spec_extract_issue_id(s: Seq<char>) -> int {
    let u = trim_trailing_nondigits(strip_markers(s));
    let ls = last_index_of(s, '/');
    if ls < 0 {
        0
    } else if ls + 1 > u.len() {
        0
    } else {
        spec_parse_u32(u.subrange(ls + 1, u.len() as int))
    }
}

proof fn lemma_digits_value_nonneg(s: Seq<char>)
    requires
        all_digits(s),
    ensures
        digits_value(s) >= 0,
    decreases s.len(),
{
    if s.len() > 0 {
        lemma_digits_value_nonneg(s.drop_last());
    }
}

/// A digit string is worth at least any of its prefixes.
proof fn lemma_digits_value_prefix(s: Seq<char>, i: int)
    requires
        all_digits(s),
        0 <= i <= s.len(),
    ensures
        digits_value(s.take(i)) <= digits_value(s),
    decreases s.len(),
{
    if i == s.len() {
        assert(s.take(i) =~= s);
    } else {
        assert(s.take(i) =~= s.drop_last().take(i));
        lemma_digits_value_prefix(s.drop_last(), i);
        lemma_digits_value_nonneg(s.drop_last());
    }
}

proof fn lemma_trim_append(s: Seq<char>, t: Seq<char>)
    requires
        forall|i: int| 0 <= i < t.len() ==> !is_digit(t[i]),
    ensures
        trim_trailing_nondigits(s + t) == trim_trailing_nondigits(s),
    decreases t.len(),
{
    if t.len() == 0 {
        assert(s + t =~= s);
    } else {
        assert((s + t).last() == t.last());
        assert((s + t).drop_last() =~= s + t.drop_last());
        lemma_trim_append(s, t.drop_last());
    }
}

proof fn lemma_trim_prefix(s: Seq<char>)
    ensures
        trim_trailing_nondigits(s).len() <= s.len(),
        trim_trailing_nondigits(s) == s.take(trim_trailing_nondigits(s).len() as int),
        trim_trailing_nondigits(s).len() > 0 ==> is_digit(trim_trailing_nondigits(s).last()),
    decreases s.len(),
{
    if s.len() == 0 {
        assert(s.take(0) =~= s);
    } else if is_digit(s.last()) {
        assert(s.take(s.len() as int) =~= s);
    } else {
        lemma_trim_prefix(s.drop_last());
        let k = trim_trailing_nondigits(s).len() as int;
        assert(s.drop_last().take(k) =~= s.take(k));
    }
}

/// Law: a URL whose last path segment is a number, followed by nothing but
/// non-digit characters (fragment, query, punctuation), parses to exactly
/// that number. The URL is `base + digits + suffix` with the final `/` at
/// the end of `base`; the suffix must stay inside the segment (no `/`), and
/// fragment or query markers may appear only in the suffix.
pub proof fn lemma_issue_id_of_numbered_url(base: Seq<char>, digits: Seq<char>, suffix: Seq<char>)
    requires
        base.len() > 0,
        base.last() == '/',
        forall|i: int| 0 <= i < base.len() ==> base[i] != '#' && base[i] != '?',
        digits.len() > 0,
        all_digits(digits),
        digits_value(digits) <= u32::MAX,
        forall|i: int| 0 <= i < suffix.len() ==> !is_digit(suffix[i]) && suffix[i] != '/',
    ensures
        spec_extract_issue_id(base + digits + suffix) == digits_value(digits),
{
    let bd = base + digits;
    let s = bd + suffix;
    assert(s =~= base + digits + suffix);
    assert(forall|i: int|
        0 <= i < digits.len() ==> digits[i] != '#' && digits[i] != '?' && digits[i] != '/');
    lemma_last_index_of(base, '#');
    lemma_last_index_of(base, '?');
    lemma_last_index_of(digits, '#');
    lemma_last_index_of(digits, '?');
    lemma_last_index_of(digits, '/');
    lemma_last_index_of(suffix, '#');
    lemma_last_index_of(suffix, '?');
    lemma_last_index_of(suffix, '/');
    lemma_last_index_of_append(base, digits, '#');
    lemma_last_index_of_append(base, digits, '?');
    lemma_last_index_of_append(base, digits, '/');
    lemma_last_index_of_append(bd, suffix, '#');
    lemma_last_index_of_append(bd, suffix, '?');
    lemma_last_index_of_append(bd, suffix, '/');
    assert(last_index_of(base, '#') == -1 && last_index_of(base, '?') == -1);
    assert(last_index_of(bd, '#') == -1 && last_index_of(bd, '?') == -1);

    // The fragment marker, if any, sits in the suffix; so does the query.
    let hp = last_index_of(s, '#');
    let u1 = if hp >= 0 {
        s.take(hp)
    } else {
        s
    };
    let k1: int = if hp >= 0 {
        hp - bd.len()
    } else {
        suffix.len() as int
    };
    assert(u1 =~= bd + suffix.take(k1));
    let qp = last_index_of(s, '?');
    let u2 = if 0 <= qp <= u1.len() {
        u1.take(qp)
    } else {
        u1
    };
    let k2: int = if 0 <= qp <= u1.len() {
        qp - bd.len()
    } else {
        k1
    };
    if 0 <= qp <= u1.len() {
        assert(qp >= bd.len());
        assert(u2 =~= bd + suffix.take(k2));
    }
    assert(u2 == strip_markers(s));
    assert(u2 =~= bd + suffix.take(k2));

    // Trimming removes exactly what is left of the suffix.
    lemma_trim_append(bd, suffix.take(k2));
    assert(bd.last() == digits.last());
    assert(trim_trailing_nondigits(bd) == bd);
    assert(trim_trailing_nondigits(strip_markers(s)) == bd);

    // The last slash of the whole URL ends `base`.
    assert(last_index_of(base, '/') == base.len() - 1);
    assert(last_index_of(s, '/') == base.len() - 1);

    let tail = bd.subrange(base.len() as int, bd.len() as int);
    assert(tail =~= digits);
    assert(digits[0] != '+');
    assert(spec_parse_u32(digits) == digits_value(digits));
}

/// Law: a URL whose final path segment holds no digit at all parses to the
/// sentinel `0`. The segment is everything after the last `/`; when the URL
/// has no `/`, the whole of it counts as the segment.
pub proof fn lemma_issue_id_zero_without_digits(url: Seq<char>)
    requires
        forall|i: int| last_index_of(url, '/') < i < url.len() ==> !is_digit(url[i]),
    ensures
        spec_extract_issue_id(url) == 0,
{
    let ls = last_index_of(url, '/');
    lemma_last_index_of(url, '/');
    if ls >= 0 {
        lemma_last_index_of(url, '#');
        lemma_last_index_of(url, '?');
        let u2 = strip_markers(url);
        assert(u2 =~= url.take(u2.len() as int));
        let u = trim_trailing_nondigits(u2);
        lemma_trim_prefix(u2);
        assert(u =~= url.take(u.len() as int));
        if u.len() > 0 {
            assert(is_digit(u.last()));
            assert(u.last() == url[u.len() - 1]);
            assert(u.len() - 1 <= ls);
        }
        if ls + 1 <= u.len() {
            assert(u.subrange(ls + 1, u.len() as int) =~= Seq::<char>::empty());
        }
    }
}

/// Number of digits to skip for a leading `+` sign.
fn parse_start(s: &str) -> (start: usize)
    ensures
        start as int == if s@.len() > 0 && s@[0] == '+' {
            1int
        } else {
            0int
        },
        start <= s@.len(),
{
    if s.unicode_len() > 0 && s.get_char(0) == '+' {
        1
    } else {
        0
    }
}

/// Reads `s` the way `str::parse::<u32>` does, with `0` for any rejection.
pub fn parse_u32_or_zero(s: &str) -> (r: u32)
    ensures
        r as int == spec_parse_u32(s@),
{
    let len = s.unicode_len();
    let start = parse_start(s);
    let ghost d = if s@.len() > 0 && s@[0] == '+' {
        s@.drop_first()
    } else {
        s@
    };
    proof {
        assert(d =~= s@.subrange(start as int, len as int));
    }
    if start == len {
        return 0;
    }
    let mut acc: u32 = 0;
    let mut i: usize = start;
    while i < len
        invariant
            start <= i <= len,
            len == s@.len(),
            start < len,
            d == s@.subrange(start as int, len as int),
            d == (if s@.len() > 0 && s@[0] == '+' {
                s@.drop_first()
            } else {
                s@
            }),
            forall|k: int| start <= k < i ==> is_digit(s@[k]),
            acc as int == digits_value(s@.subrange(start as int, i as int)),
        decreases len - i,
    {
        let c = s.get_char(i);
        if !char_is_digit(c) {
            proof {
                assert(d[i - start] == s@[i as int]);
                assert(!all_digits(d));
            }
            return 0;
        }
        let v = digit_value_of(c);
        let next: u64 = acc as u64 * 10 + v as u64;
        proof {
            assert(s@.subrange(start as int, i + 1).drop_last() =~= s@.subrange(
                start as int,
                i as int,
            ));
            assert(s@.subrange(start as int, i + 1).last() == s@[i as int]);
        }
        if next > u32::MAX as u64 {
            proof {
                assert(all_digits(s@.subrange(start as int, i + 1)));
                assert(d.take(i + 1 - start) =~= s@.subrange(start as int, i + 1));
                if all_digits(d) {
                    lemma_digits_value_prefix(d, i + 1 - start);
                }
            }
            return 0;
        }
        acc = next as u32;
        i = i + 1;
    }
    proof {
        assert(d =~= s@.subrange(start as int, len as int));
        assert(all_digits(d));
    }
    acc
}

/// Exec twin of `digit_val`.
fn digit_value_of(c: char) -> (r: u32)
    requires
        is_digit(c),
    ensures
        r as int == digit_val(c),
{
    if c == '0' {
        0
    } else if c == '1' {
        1
    } else if c == '2' {
        2
    } else if c == '3' {
        3
    } else if c == '4' {
        4
    } else if c == '5' {
        5
    } else if c == '6' {
        6
    } else if c == '7' {
        7
    } else if c == '8' {
        8
    } else {
        9
    }
}

/// Character count that remains once trailing non-digits go: the executable
/// side of `trim_trailing_nondigits`.
fn trim_end(s: &str) -> (end: usize)
    ensures
        end <= s@.len(),
        s@.take(end as int) == trim_trailing_nondigits(s@),
{
    let len = s.unicode_len();
    let mut end: usize = len;
    proof {
        assert(s@.take(len as int) =~= s@);
    }
    while end > 0
        invariant
            end <= len,
            len == s@.len(),
            trim_trailing_nondigits(s@) == trim_trailing_nondigits(s@.take(end as int)),
        decreases end,
    {
        let c = s.get_char(end - 1);
        proof {
            assert(s@.take(end as int).last() == s@[end - 1]);
        }
        if char_is_digit(c) {
            return end;
        }
        proof {
            assert(s@.take(end as int).drop_last() =~= s@.take(end - 1));
        }
        end = end - 1;
    }
    proof {
        assert(s@.take(0) =~= Seq::<char>::empty());
    }
    0
}

/// Extracts the numeric issue identifier referenced by a tracker URL, or
/// the sentinel `0` when the URL carries none the parser can read.
pub fn extract_issue_id(url: String) -> (r: u32)
    ensures
        r as int == spec_extract_issue_id(url@),
{
    let s: &str = url.as_str();
    let len = s.unicode_len();
    proof {
        lemma_last_index_of(s@, '#');
        lemma_last_index_of(s@, '?');
        lemma_last_index_of(s@, '/');
    }

    // Remove a fragment.
    let u1: &str = match str_last_index_of(s, '#') {
        Some(p) => s.substring_char(0, p),
        None => s,
    };
    proof {
        let hp = last_index_of(s@, '#');
        if hp >= 0 {
            assert(u1@ =~= s@.take(hp));
        }
    }

    // Remove a query, located in the original URL.
    let u1_len = u1.unicode_len();
    let u2: &str = match str_last_index_of(s, '?') {
        Some(q) => {
            if q <= u1_len {
                u1.substring_char(0, q)
            } else {
                u1
            }
        },
        None => u1,
    };
    proof {
        let qp = last_index_of(s@, '?');
        if 0 <= qp <= u1@.len() {
            assert(u2@ =~= u1@.take(qp));
        }
        assert(u2@ == strip_markers(s@));
    }

    // Trim trailing non-digits.
    let end = trim_end(u2);
    proof {
        assert(u2@.take(end as int) == trim_trailing_nondigits(strip_markers(s@)));
    }

    // Parse what follows the last slash of the original URL.
    match str_last_index_of(s, '/') {
        None => 0,
        Some(ls) => {
            if ls + 1 > end {
                0
            } else {
                let tail = u2.substring_char(ls + 1, end);
                proof {
                    assert(tail@ =~= trim_trailing_nondigits(strip_markers(s@)).subrange(
                        ls + 1,
                        end as int,
                    ));
                }
                parse_u32_or_zero(tail)
            }
        },
    }
}

} // verus!
