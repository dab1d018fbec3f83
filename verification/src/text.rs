//! Character and substring helpers shared by the parser, the relevance
//! filter and the extractor: ASCII case folding, digit tests, substring
//! search and last-index search.

use vstd::prelude::*;

verus! {

/// ASCII lower-casing of one character; every other character is unchanged.
pub open spec fn lower_char(c: char) -> char {
    if c == 'A' {
        'a'
    } else if c == 'B' {
        'b'
    } else if c == 'C' {
        'c'
    } else if c == 'D' {
        'd'
    } else if c == 'E' {
        'e'
    } else if c == 'F' {
        'f'
    } else if c == 'G' {
        'g'
    } else if c == 'H' {
        'h'
    } else if c == 'I' {
        'i'
    } else if c == 'J' {
        'j'
    } else if c == 'K' {
        'k'
    } else if c == 'L' {
        'l'
    } else if c == 'M' {
        'm'
    } else if c == 'N' {
        'n'
    } else if c == 'O' {
        'o'
    } else if c == 'P' {
        'p'
    } else if c == 'Q' {
        'q'
    } else if c == 'R' {
        'r'
    } else if c == 'S' {
        's'
    } else if c == 'T' {
        't'
    } else if c == 'U' {
        'u'
    } else if c == 'V' {
        'v'
    } else if c == 'W' {
        'w'
    } else if c == 'X' {
        'x'
    } else if c == 'Y' {
        'y'
    } else if c == 'Z' {
        'z'
    } else {
        c
    }
}

/// ASCII lower-casing of a whole character sequence.
pub open spec fn lower_seq(s: Seq<char>) -> Seq<char> {
    s.map_values(|c: char| lower_char(c))
}

/// Identity or ASCII lower-casing, selected by `ci`.
pub open spec fn fold_case(s: Seq<char>, ci: bool) -> Seq<char> {
    if ci {
        lower_seq(s)
    } else {
        s
    }
}

pub open spec fn is_digit(c: char) -> bool {
    c == '0' || c == '1' || c == '2' || c == '3' || c == '4' || c == '5' || c == '6' || c == '7'
        || c == '8' || c == '9'
}

/// Numeric value of a decimal digit.
pub open spec fn digit_val(c: char) -> int {
    if c == '0' {
        0
    } else if c == '1' {
        1
    } else if c == '2' {
        2
    } else if c == '3' {
        3
    } else if c == '4' {
        4
    } else if c == '5' {
        5
    } else if c == '6' {
        6
    } else if c == '7' {
        7
    } else if c == '8' {
        8
    } else if c == '9' {
        9
    } else {
        arbitrary()
    }
}

/// `n` occurs in `h` starting at position `i`.
pub open spec fn matches_at(h: Seq<char>, n: Seq<char>, i: int) -> bool {
    0 <= i && i + n.len() <= h.len() && h.subrange(i, i + n.len()) == n
}

/// `n` occurs somewhere in `h`.
pub open spec fn contains_seq(h: Seq<char>, n: Seq<char>) -> bool {
    exists|i: int| matches_at(h, n, i)
}

/// Index of the last occurrence of `c` in `s`, or `-1` when `s` lacks `c`.
pub open spec fn last_index_of(s: Seq<char>, c: char) -> int
    decreases s.len(),
{
    if s.len() == 0 {
        -1
    } else if s.last() == c {
        s.len() - 1
    } else {
        last_index_of(s.drop_last(), c)
    }
}

pub proof fn lemma_last_index_of(s: Seq<char>, c: char)
    ensures
        -1 <= last_index_of(s, c) < s.len(),
        last_index_of(s, c) >= 0 ==> s[last_index_of(s, c)] == c,
        forall|i: int| last_index_of(s, c) < i < s.len() ==> s[i] != c,
    decreases s.len(),
{
    if s.len() > 0 && s.last() != c {
        lemma_last_index_of(s.drop_last(), c);
        assert forall|i: int| last_index_of(s, c) < i < s.len() implies s[i] != c by {
            if i < s.len() - 1 {
                assert(s.drop_last()[i] == s[i]);
            }
        }
    }
}

pub proof fn lemma_last_index_of_append(a: Seq<char>, b: Seq<char>, c: char)
    ensures
        last_index_of(a + b, c) == if last_index_of(b, c) >= 0 {
            a.len() + last_index_of(b, c)
        } else {
            last_index_of(a, c)
        },
    decreases b.len(),
{
    if b.len() == 0 {
        assert(a + b =~= a);
    } else {
        assert((a + b).last() == b.last());
        if b.last() != c {
            assert((a + b).drop_last() =~= a + b.drop_last());
            lemma_last_index_of_append(a, b.drop_last(), c);
        }
    }
}

/// `s` ends with `t`.
pub open spec fn ends_with(s: Seq<char>, t: Seq<char>) -> bool {
    s.len() >= t.len() && s.subrange(s.len() - t.len(), s.len() as int) == t
}

/// Exec twin of `ends_with`.
pub fn str_ends_with(s: &str, t: &str) -> (r: bool)
    ensures
        r == ends_with(s@, t@),
{
    let sl = s.unicode_len();
    let tl = t.unicode_len();
    if tl > sl {
        return false;
    }
    let mut j: usize = 0;
    while j < tl
        invariant
            j <= tl,
            tl <= sl,
            sl == s@.len(),
            tl == t@.len(),
            forall|k: int| 0 <= k < j ==> s@[sl - tl + k] == t@[k],
        decreases tl - j,
    {
        if s.get_char(sl - tl + j) != t.get_char(j) {
            proof {
                assert(s@.subrange(sl - tl, sl as int)[j as int] == s@[sl - tl + j]);
            }
            return false;
        }
        j = j + 1;
    }
    proof {
        assert(s@.subrange(sl - tl, sl as int) =~= t@);
    }
    true
}

/// String equality by content.
pub fn str_equal(a: &str, b: &str) -> (r: bool)
    ensures
        r == (a@ == b@),
{
    let pa = String::from_str(a);
    let pb = String::from_str(b);
    pa == pb
}

/// Exec twin of `lower_char`.
pub fn to_lower(c: char) -> (r: char)
    ensures
        r == lower_char(c),
{
    if c == 'A' {
        'a'
    } else if c == 'B' {
        'b'
    } else if c == 'C' {
        'c'
    } else if c == 'D' {
        'd'
    } else if c == 'E' {
        'e'
    } else if c == 'F' {
        'f'
    } else if c == 'G' {
        'g'
    } else if c == 'H' {
        'h'
    } else if c == 'I' {
        'i'
    } else if c == 'J' {
        'j'
    } else if c == 'K' {
        'k'
    } else if c == 'L' {
        'l'
    } else if c == 'M' {
        'm'
    } else if c == 'N' {
        'n'
    } else if c == 'O' {
        'o'
    } else if c == 'P' {
        'p'
    } else if c == 'Q' {
        'q'
    } else if c == 'R' {
        'r'
    } else if c == 'S' {
        's'
    } else if c == 'T' {
        't'
    } else if c == 'U' {
        'u'
    } else if c == 'V' {
        'v'
    } else if c == 'W' {
        'w'
    } else if c == 'X' {
        'x'
    } else if c == 'Y' {
        'y'
    } else if c == 'Z' {
        'z'
    } else {
        c
    }
}

/// Exec digit test matching `is_digit`.
pub fn char_is_digit(c: char) -> (r: bool)
    ensures
        r == is_digit(c),
{
    c == '0' || c == '1' || c == '2' || c == '3' || c == '4' || c == '5' || c == '6' || c == '7'
        || c == '8' || c == '9'
}

/// Whether `n` occurs in `h` starting at character offset `i`, comparing
/// either exactly or after ASCII case folding.
fn str_matches_at(h: &str, n: &str, i: usize, ci: bool) -> (r: bool)
    requires
        i + n@.len() <= h@.len(),
    ensures
        r == matches_at(fold_case(h@, ci), fold_case(n@, ci), i as int),
{
    let hlen = h.unicode_len();
    let nlen = n.unicode_len();
    let mut j: usize = 0;
    while j < nlen
        invariant
            j <= nlen,
            nlen == n@.len(),
            hlen == h@.len(),
            i + nlen <= hlen,
            forall|k: int|
                0 <= k < j ==> fold_case(h@, ci)[i + k] == fold_case(n@, ci)[k],
        decreases nlen - j,
    {
        let hc = h.get_char(i + j);
        let nc = n.get_char(j);
        let same = if ci {
            to_lower(hc) == to_lower(nc)
        } else {
            hc == nc
        };
        if !same {
            proof {
                let fh = fold_case(h@, ci);
                let fn_ = fold_case(n@, ci);
                assert(fh[i + j] != fn_[j as int]);
                assert(fh.subrange(i as int, i + fn_.len())[j as int] == fh[i + j]);
            }
            return false;
        }
        j = j + 1;
    }
    proof {
        let fh = fold_case(h@, ci);
        let fn_ = fold_case(n@, ci);
        assert(fh.subrange(i as int, i + fn_.len()) =~= fn_);
    }
    true
}

/// Substring search: whether `n` occurs anywhere in `h`, comparing either
/// exactly (`ci == false`) or case-insensitively under ASCII folding.
pub fn str_contains(h: &str, n: &str, ci: bool) -> (r: bool)
    ensures
        r == contains_seq(fold_case(h@, ci), fold_case(n@, ci)),
{
    let hlen = h.unicode_len();
    let nlen = n.unicode_len();
    if nlen > hlen {
        return false;
    }
    if nlen == 0 {
        proof {
            assert(matches_at(fold_case(h@, ci), fold_case(n@, ci), 0)) by {
                assert(fold_case(h@, ci).subrange(0, 0) =~= fold_case(n@, ci));
            }
        }
        return true;
    }
    let mut i: usize = 0;
    while i <= hlen - nlen
        invariant
            0 < nlen <= hlen,
            hlen == h@.len(),
            nlen == n@.len(),
            i <= hlen - nlen + 1,
            forall|k: int| 0 <= k < i ==> !matches_at(fold_case(h@, ci), fold_case(n@, ci), k),
        decreases hlen - nlen + 1 - i,
    {
        if str_matches_at(h, n, i, ci) {
            return true;
        }
        i = i + 1;
    }
    false
}

/// Character offset of the last occurrence of `c` in `s`, if there is one:
/// the executable side of `last_index_of`.
pub fn str_last_index_of(s: &str, c: char) -> (r: Option<usize>)
    ensures
        r matches Some(i) ==> i as int == last_index_of(s@, c),
        r is None ==> last_index_of(s@, c) == -1,
{
    let len = s.unicode_len();
    let mut i: usize = len;
    proof {
        assert(s@.take(len as int) =~= s@);
    }
    while i > 0
        invariant
            i <= len,
            len == s@.len(),
            last_index_of(s@, c) == last_index_of(s@.take(i as int), c),
        decreases i,
    {
        let cur = s.get_char(i - 1);
        proof {
            assert(s@.take(i as int).last() == s@[i - 1]);
            if cur != c {
                assert(s@.take(i as int).drop_last() =~= s@.take(i - 1));
            }
        }
        if cur == c {
            return Some(i - 1);
        }
        i = i - 1;
    }
    proof {
        assert(s@.take(0) =~= Seq::<char>::empty());
    }
    None
}

} // verus!
