//! The unit of evidence: one detected reference to a tracker issue inside a
//! scanned file, plus the deduplicating merge that builds a scan result.

use vstd::prelude::*;

verus! {

/// One detected reference to a tracker issue inside a scanned file.
/// Two occurrences are the same evidence exactly when all six fields agree;
/// that equality drives deduplication.
pub struct Found {
    /// Path relative to the scanned root, `/`-separated.
    pub file: String,
    /// The exact matched URL substring.
    pub url: String,
    /// The matched line together with the line before it, for human review.
    pub snippet: String,
    /// 1-based line number of the match's start offset.
    pub line: usize,
    /// Character offset of the match's start within the decoded text.
    pub start: usize,
    /// Character offset just past the match's end.
    pub end: usize,
}

/// Mathematical image of a `Found`.
#[verifier::ext_equal]
pub ghost struct FoundView {
    pub file: Seq<char>,
    pub url: Seq<char>,
    pub snippet: Seq<char>,
    pub line: int,
    pub start: int,
    pub end: int,
}

impl View for Found {
    type V = FoundView;

    open spec fn view(&self) -> FoundView {
        FoundView {
            file: self.file@,
            url: self.url@,
            snippet: self.snippet@,
            line: self.line as int,
            start: self.start as int,
            end: self.end as int,
        }
    }
}

impl DeepView for Found {
    type V = FoundView;

    open spec fn deep_view(&self) -> FoundView {
        self.view()
    }
}

impl Clone for Found {
    fn clone(&self) -> (r: Self)
        ensures
            r@ == self@,
    {
        Found {
            file: self.file.clone(),
            url: self.url.clone(),
            snippet: self.snippet.clone(),
            line: self.line,
            start: self.start,
            end: self.end,
        }
    }
}

/// Field-by-field equality; agrees with equality of the views.
pub fn found_eq(a: &Found, b: &Found) -> (r: bool)
    ensures
        r == (a@ == b@),
{
    let r = a.file == b.file && a.url == b.url && a.snippet == b.snippet && a.line == b.line
        && a.start == b.start && a.end == b.end;
    proof {
        if r {
            assert(a@ =~= b@);
        }
    }
    r
}

/// One step of the deduplicating fold: an occurrence already present is not
/// re-added, a new one goes to the back.
pub open spec fn merge_one(acc: Seq<FoundView>, f: FoundView) -> Seq<FoundView> {
    if acc.contains(f) {
        acc
    } else {
        acc.push(f)
    }
}

/// Deduplicating left fold of a whole stream of occurrences: the first copy
/// of each occurrence wins, later identical ones are no-ops.
pub open spec fn merge_stream(acc: Seq<FoundView>, xs: Seq<FoundView>) -> Seq<FoundView>
    decreases xs.len(),
{
    if xs.len() == 0 {
        acc
    } else {
        merge_stream(merge_one(acc, xs[0]), xs.drop_first())
    }
}

pub proof fn lemma_merge_stream_append(acc: Seq<FoundView>, a: Seq<FoundView>, b: Seq<FoundView>)
    ensures
        merge_stream(acc, a + b) == merge_stream(merge_stream(acc, a), b),
    decreases a.len(),
{
    if a.len() == 0 {
        assert(a + b =~= b);
    } else {
        assert((a + b)[0] == a[0]);
        assert((a + b).drop_first() =~= a.drop_first() + b);
        lemma_merge_stream_append(merge_one(acc, a[0]), a.drop_first(), b);
    }
}

/// The merged result holds exactly the occurrences that came from either side.
pub proof fn lemma_merge_stream_contains(acc: Seq<FoundView>, xs: Seq<FoundView>, f: FoundView)
    ensures
        merge_stream(acc, xs).contains(f) <==> acc.contains(f) || xs.contains(f),
    decreases xs.len(),
{
    if xs.len() == 0 {
        assert(!xs.contains(f));
    } else {
        lemma_merge_stream_contains(merge_one(acc, xs[0]), xs.drop_first(), f);
        assert(merge_one(acc, xs[0]).contains(f) <==> acc.contains(f) || xs[0] == f) by {
            if acc.contains(xs[0]) {
                if xs[0] == f {
                    assert(acc.contains(f));
                }
            } else {
                let p = acc.push(xs[0]);
                if acc.contains(f) {
                    let i = choose|i: int| 0 <= i < acc.len() && acc[i] == f;
                    assert(p[i] == f);
                }
                if xs[0] == f {
                    assert(p[acc.len() as int] == f);
                }
                if p.contains(f) && !acc.contains(f) && xs[0] != f {
                    let i = choose|i: int| 0 <= i < p.len() && p[i] == f;
                    if i < acc.len() {
                        assert(acc[i] == f);
                    }
                }
            }
        }
        assert(xs.contains(f) <==> xs[0] == f || xs.drop_first().contains(f)) by {
            if xs.contains(f) {
                let i = choose|i: int| 0 <= i < xs.len() && xs[i] == f;
                if i > 0 {
                    assert(xs.drop_first()[i - 1] == f);
                }
            }
            if xs.drop_first().contains(f) {
                let i = choose|i: int| 0 <= i < xs.drop_first().len() && xs.drop_first()[i] == f;
                assert(xs[i + 1] == f);
            }
        }
    }
}

/// Merging occurrences that are all present already changes nothing.
pub proof fn lemma_merge_stream_noop(acc: Seq<FoundView>, xs: Seq<FoundView>)
    requires
        forall|i: int| 0 <= i < xs.len() ==> acc.contains(#[trigger] xs[i]),
    ensures
        merge_stream(acc, xs) == acc,
    decreases xs.len(),
{
    if xs.len() > 0 {
        assert(acc.contains(xs[0]));
        assert(forall|i: int|
            0 <= i < xs.drop_first().len() ==> acc.contains(#[trigger] xs.drop_first()[i]));
        lemma_merge_stream_noop(acc, xs.drop_first());
    }
}

/// Law: the deduplicating merge is idempotent. Feeding the same stream of
/// occurrences a second time into an accumulator leaves the result exactly
/// as it was — re-scanning an unchanged tree cannot double the scan result.
pub proof fn lemma_merge_stream_idempotent(acc: Seq<FoundView>, xs: Seq<FoundView>)
    ensures
        merge_stream(merge_stream(acc, xs), xs) == merge_stream(acc, xs),
{
    let m = merge_stream(acc, xs);
    assert forall|i: int| 0 <= i < xs.len() implies m.contains(#[trigger] xs[i]) by {
        lemma_merge_stream_contains(acc, xs, xs[i]);
    }
    lemma_merge_stream_noop(m, xs);
}

/// Deduplicating merge of one occurrence into the running scan result.
pub fn merge_found(results: &mut Vec<Found>, f: Found)
    ensures
        final(results).deep_view() == merge_one(old(results).deep_view(), f@),
{
    let n = results.len();
    let mut i: usize = 0;
    while i < n
        invariant
            i <= n,
            n == results.len(),
            *results == *old(results),
            forall|k: int| 0 <= k < i ==> results.deep_view()[k] != f@,
        decreases n - i,
    {
        if found_eq(&results[i], &f) {
            proof {
                assert(old(results).deep_view()[i as int] == f@);
            }
            return;
        }
        i = i + 1;
    }
    proof {
        if old(results).deep_view().contains(f@) {
            let k = choose|k: int|
                0 <= k < old(results).deep_view().len() && old(results).deep_view()[k] == f@;
            assert(results.deep_view()[k] != f@);
        }
    }
    let ghost before = results.deep_view();
    results.push(f);
    proof {
        assert(results.deep_view() =~= before.push(f@));
    }
}

} // verus!
