//! Line locator: maps a character offset in a text to a 1-based line number,
//! counting `'\n'` as the sole separator (a `'\r'` is ordinary content).

use vstd::prelude::*;

verus! {

/// Number of newline characters among the first `pos` characters of `s`.
pub open spec fn newline_count(s: Seq<char>, pos: int) -> nat
    decreases pos,
{
    if pos <= 0 {
        0
    } else {
        newline_count(s, pos - 1) + if 0 <= pos - 1 < s.len() && s[pos - 1] == '\n' {
            1nat
        } else {
            0nat
        }
    }
}

/// 1-based line number assigned to offset `pos`: one more than the number of
/// newlines among the first `pos - 1` characters. The newline that ends a
/// line, and the offset straight after it, still count as part of that line:
/// line `n + 1` starts two characters after the `n`-th newline.
pub open spec fn spec_line_number(s: Seq<char>, pos: int) -> int {
    1 + newline_count(s, pos - 1) as int
}

/// The locator's full contract: a line for every offset inside the text,
/// nothing for an offset at or past its end.
pub open spec fn spec_line_of(s: Seq<char>, pos: int) -> Option<int> {
    if pos >= s.len() {
        None
    } else {
        Some(spec_line_number(s, pos))
    }
}

/// Returns the 1-based line number containing character offset `pos`, or
/// `None` when `pos` lies at or beyond the end of `s`.
pub fn find_line_of_position(s: &str, pos: usize) -> (r: Option<usize>)
    ensures
        r is Some <==> pos < s@.len(),
        r matches Some(line) ==> spec_line_of(s@, pos as int) == Some(line as int),
{
    let n = s.unicode_len();
    if pos >= n {
        return None;
    }
    let limit: usize = if pos == 0 {
        0
    } else {
        pos - 1
    };
    let mut cnt: usize = 0;
    let mut i: usize = 0;
    while i < limit
        invariant
            i <= limit,
            limit < n,
            n == s@.len(),
            cnt == newline_count(s@, i as int),
            cnt <= i,
        decreases limit - i,
    {
        if s.get_char(i) == '\n' {
            cnt = cnt + 1;
        }
        i = i + 1;
    }
    Some(cnt + 1)
}

/// Offset just past the next newline at or after `from`, or the text's end
/// when no newline remains: where the next line starts.
pub open spec fn skip_line(s: Seq<char>, from: int) -> int
    decreases s.len() - from,
{
    if from < 0 || from >= s.len() {
        s.len() as int
    } else if s[from] == '\n' {
        from + 1
    } else {
        skip_line(s, from + 1)
    }
}

/// Start offset of 1-based line `k`.
pub open spec fn line_start(s: Seq<char>, k: int) -> int
    decreases k,
{
    if k <= 1 {
        0
    } else {
        skip_line(s, line_start(s, k - 1))
    }
}

/// End offset of line `k`, excluding the newline that closes it.
pub open spec fn line_end(s: Seq<char>, k: int) -> int {
    let st = line_start(s, k);
    let e = skip_line(s, st);
    if e > st && 0 <= e - 1 < s.len() && s[e - 1] == '\n' {
        e - 1
    } else {
        e
    }
}

/// The review snippet for a match on line `line`: the line before it (when
/// there is one) and the matched line itself, joined by their newline.
pub open spec fn spec_snippet(s: Seq<char>, line: int) -> Seq<char> {
    let a = if line >= 2 {
        line_start(s, line - 1)
    } else {
        line_start(s, 1)
    };
    s.subrange(a, line_end(s, line))
}

pub proof fn lemma_skip_line_bounds(s: Seq<char>, from: int)
    requires
        0 <= from <= s.len(),
    ensures
        from <= skip_line(s, from) <= s.len(),
        from < s.len() ==> from < skip_line(s, from),
    decreases s.len() - from,
{
    if from < s.len() && s[from] != '\n' {
        lemma_skip_line_bounds(s, from + 1);
    }
}

pub proof fn lemma_line_start_bounds(s: Seq<char>, k: int)
    ensures
        0 <= line_start(s, k) <= s.len(),
    decreases k,
{
    if k > 1 {
        lemma_line_start_bounds(s, k - 1);
        lemma_skip_line_bounds(s, line_start(s, k - 1));
    }
}

/// Executable side of `skip_line`.
fn skip_from(text: &str, from: usize) -> (r: usize)
    requires
        from <= text@.len(),
    ensures
        r as int == skip_line(text@, from as int),
        from <= r <= text@.len(),
{
    let len = text.unicode_len();
    let mut i = from;
    while i < len
        invariant
            from <= i <= len,
            len == text@.len(),
            skip_line(text@, from as int) == skip_line(text@, i as int),
        decreases len - i,
    {
        if text.get_char(i) == '\n' {
            return i + 1;
        }
        i = i + 1;
    }
    len
}

/// Executable side of `line_start`.
fn line_start_at(text: &str, k: usize) -> (r: usize)
    requires
        1 <= k,
    ensures
        r as int == line_start(text@, k as int),
        r <= text@.len(),
{
    let mut j: usize = 1;
    let mut pos: usize = 0;
    while j < k
        invariant
            1 <= j <= k,
            pos as int == line_start(text@, j as int),
            pos <= text@.len(),
        decreases k - j,
    {
        pos = skip_from(text, pos);
        j = j + 1;
    }
    pos
}

/// Builds the review snippet for a match on 1-based line `line`.
pub fn snippet_around(text: &str, line: usize) -> (r: String)
    requires
        1 <= line,
    ensures
        r@ == spec_snippet(text@, line as int),
{
    let prev: usize = if line >= 2 {
        line - 1
    } else {
        1
    };
    let a = line_start_at(text, prev);
    let st = if line >= 2 {
        skip_from(text, a)
    } else {
        a
    };
    proof {
        assert(st as int == line_start(text@, line as int));
    }
    let e = skip_from(text, st);
    let cut: bool = e > st && e >= 1 && e - 1 < text.unicode_len() && text.get_char(e - 1) == '\n';
    let b = if cut {
        e - 1
    } else {
        e
    };
    proof {
        assert(b as int == line_end(text@, line as int));
    }
    String::from_str(text.substring_char(a, b))
}

} // verus!
