//! Issue groups: the fold that associates workaround candidates with their
//! parsed issue identifier, the resolver step that keeps only groups whose
//! issue the tracker confirmed closed, and the report ordering by identifier.

use vstd::prelude::*;

use crate::filter::{is_relevant, spec_is_relevant};
use crate::occurrence::{Found, FoundView};
use crate::parse::{extract_issue_id, spec_extract_issue_id};

verus! {

/// All occurrences discovered for one issue identifier, in discovery order.
pub struct GroupEntry {
    pub id: u32,
    pub items: Vec<Found>,
}

/// Mathematical image of a `GroupEntry`.
#[verifier::ext_equal]
pub ghost struct GroupView {
    pub id: int,
    pub items: Seq<FoundView>,
}

impl View for GroupEntry {
    type V = GroupView;

    open spec fn view(&self) -> GroupView {
        GroupView { id: self.id as int, items: self.items.deep_view() }
    }
}

impl DeepView for GroupEntry {
    type V = GroupView;

    open spec fn deep_view(&self) -> GroupView {
        self.view()
    }
}

fn clone_found_vec(v: &Vec<Found>) -> (r: Vec<Found>)
    ensures
        r.deep_view() == v.deep_view(),
{
    let mut r: Vec<Found> = Vec::new();
    let mut i: usize = 0;
    while i < v.len()
        invariant
            i <= v@.len(),
            r.deep_view() == v.deep_view().take(i as int),
        decreases v@.len() - i,
    {
        let c = v[i].clone();
        proof {
            assert(c@ == v.deep_view()[i as int]);
        }
        let ghost before = r.deep_view();
        r.push(c);
        proof {
            assert(r.deep_view() =~= before.push(v.deep_view()[i as int]));
            assert(v.deep_view().take(i + 1) =~= before.push(v.deep_view()[i as int]));
        }
        i = i + 1;
    }
    proof {
        assert(v.deep_view().take(v@.len() as int) =~= v.deep_view());
    }
    r
}

impl Clone for GroupEntry {
    fn clone(&self) -> (r: Self)
        ensures
            r@ == self@,
    {
        let r = GroupEntry { id: self.id, items: clone_found_vec(&self.items) };
        proof {
            assert(r@ =~= self@);
        }
        r
    }
}

/// What one lookup against the tracker established for one issue: confirmed
/// closed, confirmed still open, or nothing (the lookup failed).
pub enum IssueStatus {
    Closed,
    Open,
    Unresolved,
}

/// One issue's lookup outcome.
pub struct IssueVerdict {
    pub id: u32,
    pub status: IssueStatus,
}

/// A group survives resolution only when its issue was confirmed closed;
/// an open issue and a failed lookup both drop it.
pub fn status_retains(st: &IssueStatus) -> (r: bool)
    ensures
        r == (st is Closed),
{
    match st {
        IssueStatus::Closed => true,
        IssueStatus::Open => false,
        IssueStatus::Unresolved => false,
    }
}

/// The verdicts confirm issue `id` as closed.
pub open spec fn closed_for(vs: Seq<IssueVerdict>, id: int) -> bool {
    exists|k: int| 0 <= k < vs.len() && vs[k].id == id && vs[k].status is Closed
}

/// There is a group for `id`.
pub open spec fn has_group(gs: Seq<GroupView>, id: int) -> bool {
    exists|k: int| 0 <= k < gs.len() && gs[k].id == id
}

/// One insertion: a new occurrence joins its issue's group, or opens a new
/// group at the back when the issue has none yet.
pub open spec fn spec_add(gs: Seq<GroupView>, id: int, f: FoundView) -> Seq<GroupView> {
    if has_group(gs, id) {
        let k = choose|k: int| 0 <= k < gs.len() && gs[k].id == id;
        gs.update(k, GroupView { id: id, items: gs[k].items.push(f) })
    } else {
        gs.push(GroupView { id: id, items: seq![f] })
    }
}

/// One fold step of the candidate grouping: a relevant occurrence joins the
/// group of its parsed issue identifier, an irrelevant one is passed over.
pub open spec fn spec_group_step(acc: Seq<GroupView>, f: FoundView) -> Seq<GroupView> {
    if spec_is_relevant(f.snippet) {
        spec_add(acc, spec_extract_issue_id(f.url), f)
    } else {
        acc
    }
}

/// The candidate grouping over a whole scan result, in discovery order.
pub open spec fn spec_group_fold(acc: Seq<GroupView>, found: Seq<FoundView>) -> Seq<GroupView>
    decreases found.len(),
{
    if found.len() == 0 {
        acc
    } else {
        spec_group_fold(spec_group_step(acc, found[0]), found.drop_first())
    }
}

proof fn lemma_group_fold_append(acc: Seq<GroupView>, a: Seq<FoundView>, b: Seq<FoundView>)
    ensures
        spec_group_fold(acc, a + b) == spec_group_fold(spec_group_fold(acc, a), b),
    decreases a.len(),
{
    if a.len() == 0 {
        assert(a + b =~= b);
    } else {
        assert((a + b)[0] == a[0]);
        assert((a + b).drop_first() =~= a.drop_first() + b);
        lemma_group_fold_append(spec_group_step(acc, a[0]), a.drop_first(), b);
    }
}

/// Retained groups after resolution: exactly those whose issue is closed.
pub open spec fn spec_retained(gs: Seq<GroupView>, vs: Seq<IssueVerdict>) -> Seq<GroupView> {
    gs.filter(|g: GroupView| closed_for(vs, g.id))
}

/// Ascending issue identifiers.
pub open spec fn sorted_by_id_spec(gs: Seq<GroupView>) -> bool {
    forall|i: int, j: int| 0 <= i <= j < gs.len() ==> gs[i].id <= gs[j].id
}

/// Mapping from issue identifier to the occurrences that cite it. Keys are
/// unique; a group keeps its occurrences in discovery order.
pub struct IssueGroups {
    pub entries: Vec<GroupEntry>,
}

impl IssueGroups {
    pub open spec fn gview(&self) -> Seq<GroupView> {
        self.entries.deep_view()
    }

    /// Well-formed: one group per issue identifier.
    pub open spec fn wf(&self) -> bool {
        forall|i: int, j: int|
            0 <= i < j < self.gview().len() ==> self.gview()[i].id != self.gview()[j].id
    }

    pub fn new() -> (r: IssueGroups)
        ensures
            r.gview() == Seq::<GroupView>::empty(),
            r.wf(),
    {
        let r = IssueGroups { entries: Vec::new() };
        proof {
            assert(r.gview() =~= Seq::<GroupView>::empty());
        }
        r
    }

    pub fn len(&self) -> (r: usize)
        ensures
            r == self.gview().len(),
    {
        self.entries.len()
    }

    /// Files `f` under issue `id`, preserving key uniqueness and order.
    pub fn add(&mut self, id: u32, f: Found)
        requires
            old(self).wf(),
        ensures
            final(self).wf(),
            final(self).gview() == spec_add(old(self).gview(), id as int, f@),
    {
        let n = self.entries.len();
        let mut i: usize = 0;
        while i < n
            invariant
                i <= n,
                n == self.entries@.len(),
                *self == *old(self),
                old(self).wf(),
                forall|k: int| 0 <= k < i ==> self.gview()[k].id != id as int,
            decreases n - i,
        {
            proof {
                assert(self.gview()[i as int] == self.entries@[i as int]@);
            }
            if self.entries[i].id == id {
                let ghost gs = self.gview();
                let ghost es0 = self.entries@;
                let mut g = self.entries.remove(i);
                let ghost items0 = g.items.deep_view();
                g.items.push(f);
                proof {
                    assert(g.items.deep_view() =~= items0.push(f@));
                    assert(g@ =~= GroupView { id: id as int, items: gs[i as int].items.push(f@) });
                }
                self.entries.insert(i, g);
                proof {
                    es0.remove_ensures(i as int);
                    es0.remove(i as int).insert_ensures(i as int, g);
                    assert(self.entries@ == es0.remove(i as int).insert(i as int, g));
                    let target = gs.update(
                        i as int,
                        GroupView { id: id as int, items: gs[i as int].items.push(f@) },
                    );
                    assert forall|k: int| 0 <= k < self.gview().len() implies self.gview()[k]
                        == target[k] by {
                        assert(self.gview()[k] == self.entries@[k]@);
                        if k < i as int {
                            assert(self.entries@[k] == es0.remove(i as int)[k]);
                            assert(es0.remove(i as int)[k] == es0[k]);
                        } else if k > i as int {
                            assert(self.entries@[k] == es0.remove(i as int)[k - 1]);
                            assert(es0.remove(i as int)[k - 1] == es0[k]);
                        }
                        assert(gs[k] == es0[k]@);
                    }
                    assert(self.gview() =~= target);
                    let k = choose|k: int| 0 <= k < gs.len() && gs[k].id == id as int;
                    assert(gs[i as int].id == id as int);
                    assert(k == i as int);
                    assert(self.gview() == spec_add(gs, id as int, f@));
                }
                return;
            }
            i = i + 1;
        }
        proof {
            if has_group(self.gview(), id as int) {
                let k = choose|k: int|
                    0 <= k < self.gview().len() && self.gview()[k].id == id as int;
                assert(self.gview()[k].id != id as int);
            }
        }
        let ghost gs = self.gview();
        let mut items: Vec<Found> = Vec::new();
        items.push(f);
        proof {
            assert(items.deep_view() =~= seq![f@]);
        }
        let e = GroupEntry { id, items };
        proof {
            assert(e@ =~= GroupView { id: id as int, items: seq![f@] });
        }
        self.entries.push(e);
        proof {
            assert(self.gview() =~= gs.push(GroupView { id: id as int, items: seq![f@] }));
        }
    }

    /// The distinct issue identifiers, in group order: the resolver makes
    /// exactly one tracker lookup for each of these.
    pub fn ids(&self) -> (r: Vec<u32>)
        ensures
            r@.len() == self.gview().len(),
            forall|i: int| 0 <= i < r@.len() ==> r@[i] as int == self.gview()[i].id,
    {
        let mut r: Vec<u32> = Vec::new();
        let mut i: usize = 0;
        while i < self.entries.len()
            invariant
                i <= self.entries@.len(),
                r@.len() == i,
                forall|k: int| 0 <= k < i ==> r@[k] as int == self.gview()[k].id,
            decreases self.entries@.len() - i,
        {
            r.push(self.entries[i].id);
            i = i + 1;
        }
        r
    }

    /// Resolver fold: keeps exactly the groups whose issue the verdicts
    /// confirm closed, in their original order; groups whose lookup failed
    /// or whose issue is open are absent from the result.
    pub fn retain_closed(&self, verdicts: &Vec<IssueVerdict>) -> (r: IssueGroups)
        ensures
            r.gview() == spec_retained(self.gview(), verdicts@),
            self.wf() ==> r.wf(),
    {
        let mut out: Vec<GroupEntry> = Vec::new();
        let mut i: usize = 0;
        let ghost pred = |g: GroupView| closed_for(verdicts@, g.id);
        proof {
            assert(self.gview().take(0).filter(pred) =~= out.deep_view());
        }
        while i < self.entries.len()
            invariant
                i <= self.entries@.len(),
                out.deep_view() == self.gview().take(i as int).filter(pred),
                pred == (|g: GroupView| closed_for(verdicts@, g.id)),
            decreases self.entries@.len() - i,
        {
            let keep = is_closed_for(verdicts, self.entries[i].id);
            let ghost before = out.deep_view();
            let ghost cur = self.gview()[i as int];
            proof {
                assert(cur == self.entries@[i as int]@);
                assert(self.gview().take(i + 1).drop_last() =~= self.gview().take(i as int));
                assert(self.gview().take(i + 1).last() == cur);
            }
            proof {
                assert(pred(cur) == closed_for(verdicts@, cur.id));
                assert(keep == pred(cur));
            }
            if keep {
                let c = self.entries[i].clone();
                proof {
                    assert(c@ == cur);
                }
                out.push(c);
                proof {
                    assert(out.deep_view() =~= before.push(cur));
                }
            }
            proof {
                reveal(Seq::filter);
                assert(out.deep_view() == self.gview().take(i + 1).filter(pred));
            }
            i = i + 1;
        }
        proof {
            assert(self.gview().take(self.gview().len() as int) =~= self.gview());
        }
        let r = IssueGroups { entries: out };
        proof {
            if self.wf() {
                assert forall|a: int, b: int| 0 <= a < b < r.gview().len() implies r.gview()[a].id
                    != r.gview()[b].id by {
                    lemma_filter_is_subsequence(self.gview(), pred, a, b);
                }
            }
        }
        r
    }

    /// Report order: the same groups, sorted by ascending issue identifier.
    pub fn sorted_by_id(&self) -> (r: IssueGroups)
        ensures
            sorted_by_id_spec(r.gview()),
            r.gview().len() == self.gview().len(),
            forall|g: GroupView| #[trigger] r.gview().contains(g) <==> self.gview().contains(g),
            self.wf() ==> r.wf(),
    {
        let n = self.entries.len();
        let mut out: Vec<GroupEntry> = Vec::new();
        let mut i: usize = 0;
        while i < n
            invariant
                i <= n,
                n == self.entries@.len(),
                sorted_by_id_spec(out.deep_view()),
                out.deep_view().len() == i,
                self.wf() ==> (forall|a: int, b: int|
                    0 <= a < b < out.deep_view().len() ==> out.deep_view()[a].id
                        != out.deep_view()[b].id),
                forall|g: GroupView| #[trigger] out.deep_view().contains(g) <==> self.gview().take(
                    i as int,
                ).contains(g),
            decreases n - i,
        {
            let e = self.entries[i].clone();
            let j = insert_pos(&out, e.id);
            let ghost before = out.deep_view();
            let ghost ev = e@;
            out.insert(j, e);
            proof {
                before.insert_ensures(j as int, ev);
                assert(out.deep_view() =~= before.insert(j as int, ev));
                lemma_insert_contains(before, j as int, ev);
                lemma_take_snoc_contains(self.gview(), i as int);
                assert(self.gview()[i as int] == ev);
                assert forall|a: int, b: int|
                    0 <= a <= b < out.deep_view().len() implies out.deep_view()[a].id
                    <= out.deep_view()[b].id by {
                    let s = out.deep_view();
                    if b < j {
                        assert(s[a] == before[a] && s[b] == before[b]);
                    } else if a > j {
                        assert(s[a] == before[a - 1] && s[b] == before[b - 1]);
                    } else if a < j && b == j {
                        assert(s[a] == before[a] && s[b] == ev);
                    } else if a == j && b > j {
                        assert(s[a] == ev && s[b] == before[b - 1]);
                    } else if a < j && b > j {
                        assert(s[a] == before[a] && s[b] == before[b - 1]);
                    }
                }
                if self.wf() {
                    assert forall|k: int| 0 <= k < before.len() implies before[k].id != ev.id by {
                        assert(before.contains(before[k]));
                        let taken = self.gview().take(i as int);
                        assert(taken.contains(before[k]));
                        let m = choose|m: int| 0 <= m < taken.len() && taken[m] == before[k];
                        assert(self.gview()[m] == before[k]);
                        assert(self.gview()[m].id != self.gview()[i as int].id);
                    }
                    assert forall|a: int, b: int|
                        0 <= a < b < out.deep_view().len() implies out.deep_view()[a].id
                        != out.deep_view()[b].id by {
                        let s = out.deep_view();
                        if b < j {
                            assert(s[a] == before[a] && s[b] == before[b]);
                        } else if a > j {
                            assert(s[a] == before[a - 1] && s[b] == before[b - 1]);
                        } else if a < j && b == j {
                            assert(s[a] == before[a] && s[b] == ev);
                        } else if a == j && b > j {
                            assert(s[a] == ev && s[b] == before[b - 1]);
                        } else if a < j && b > j {
                            assert(s[a] == before[a] && s[b] == before[b - 1]);
                        }
                    }
                }
            }
            i = i + 1;
        }
        proof {
            assert(self.gview().take(n as int) =~= self.gview());
        }
        IssueGroups { entries: out }
    }
}

/// Filtering keeps any two retained groups in their original relative order,
/// so distinct filtered positions come from distinct original positions.
proof fn lemma_filter_is_subsequence(
    gs: Seq<GroupView>,
    pred: spec_fn(GroupView) -> bool,
    a: int,
    b: int,
)
    requires
        0 <= a < b < gs.filter(pred).len(),
        forall|i: int, j: int| 0 <= i < j < gs.len() ==> gs[i].id != gs[j].id,
    ensures
        gs.filter(pred)[a].id != gs.filter(pred)[b].id,
    decreases gs.len(),
{
    reveal(Seq::filter);
    let fs = gs.filter(pred);
    if gs.len() > 0 {
        let prev = gs.drop_last().filter(pred);
        if b < prev.len() {
            assert forall|i: int, j: int|
                0 <= i < j < gs.drop_last().len() implies gs.drop_last()[i].id
                != gs.drop_last()[j].id by {
                assert(gs.drop_last()[i] == gs[i] && gs.drop_last()[j] == gs[j]);
            }
            lemma_filter_is_subsequence(gs.drop_last(), pred, a, b);
        } else {
            // the last filtered element is gs.last(); the one at `a` comes
            // from a strictly earlier original position
            assert(fs[b] == gs.last());
            lemma_filter_element_from(gs.drop_last(), pred, a);
        }
    }
}

/// Every filtered element equals some original element at or before the end.
proof fn lemma_filter_element_from(gs: Seq<GroupView>, pred: spec_fn(GroupView) -> bool, a: int)
    requires
        0 <= a < gs.filter(pred).len(),
    ensures
        exists|i: int| 0 <= i < gs.len() && gs[i] == gs.filter(pred)[a],
    decreases gs.len(),
{
    reveal(Seq::filter);
    if gs.len() > 0 {
        let prev = gs.drop_last().filter(pred);
        if a < prev.len() {
            lemma_filter_element_from(gs.drop_last(), pred, a);
            let i = choose|i: int| 0 <= i < gs.drop_last().len() && gs.drop_last()[i] == prev[a];
            assert(gs[i] == gs.filter(pred)[a]);
        } else {
            assert(gs[gs.len() - 1] == gs.filter(pred)[a]);
        }
    }
}

proof fn lemma_insert_contains(s: Seq<GroupView>, j: int, e: GroupView)
    requires
        0 <= j <= s.len(),
    ensures
        forall|g: GroupView| #[trigger] s.insert(j, e).contains(g) <==> (s.contains(g) || g == e),
{
    s.insert_ensures(j, e);
    let t = s.insert(j, e);
    assert forall|g: GroupView| #[trigger] t.contains(g) <==> (s.contains(g) || g == e) by {
        if t.contains(g) {
            let i = choose|i: int| 0 <= i < t.len() && t[i] == g;
            if i < j {
                assert(s[i] == g);
            } else if i > j {
                assert(t[(i - 1) + 1] == s[i - 1]);
            }
        }
        if s.contains(g) {
            let i = choose|i: int| 0 <= i < s.len() && s[i] == g;
            if i < j {
                assert(t[i] == g);
            } else {
                assert(t[i + 1] == g);
            }
        }
        if g == e {
            assert(t[j] == g);
        }
    }
}

proof fn lemma_take_snoc_contains(s: Seq<GroupView>, i: int)
    requires
        0 <= i < s.len(),
    ensures
        forall|g: GroupView| #[trigger] s.take(i + 1).contains(g) <==> (s.take(i).contains(g) || g
            == s[i]),
{
    assert forall|g: GroupView| #[trigger] s.take(i + 1).contains(g) <==> (s.take(i).contains(g)
        || g == s[i]) by {
        if s.take(i + 1).contains(g) {
            let t = s.take(i + 1);
            let k = choose|k: int| 0 <= k < t.len() && t[k] == g;
            if k < i {
                assert(s.take(i)[k] == g);
            }
        }
        if s.take(i).contains(g) {
            let k = choose|k: int| 0 <= k < s.take(i).len() && s.take(i)[k] == g;
            assert(s.take(i + 1)[k] == g);
        }
        if g == s[i] {
            assert(s.take(i + 1)[i] == g);
        }
    }
}

/// First position whose group identifier exceeds `id`: where an entry with
/// identifier `id` belongs in a sorted vector.
fn insert_pos(out: &Vec<GroupEntry>, id: u32) -> (j: usize)
    ensures
        j <= out@.len(),
        forall|k: int| 0 <= k < j ==> out.deep_view()[k].id <= id as int,
        j < out@.len() ==> out.deep_view()[j as int].id > id as int,
{
    let n = out.len();
    let mut i: usize = 0;
    while i < n
        invariant
            i <= n,
            n == out@.len(),
            forall|k: int| 0 <= k < i ==> out.deep_view()[k].id <= id as int,
        decreases n - i,
    {
        proof {
            assert(out.deep_view()[i as int] == out@[i as int]@);
        }
        if out[i].id > id {
            return i;
        }
        i = i + 1;
    }
    n
}

/// Whether the verdicts confirm `id` as closed.
fn is_closed_for(verdicts: &Vec<IssueVerdict>, id: u32) -> (r: bool)
    ensures
        r == closed_for(verdicts@, id as int),
{
    let mut i: usize = 0;
    while i < verdicts.len()
        invariant
            i <= verdicts@.len(),
            forall|k: int|
                0 <= k < i ==> !(verdicts@[k].id == id as int && verdicts@[k].status is Closed),
        decreases verdicts@.len() - i,
    {
        if verdicts[i].id == id && status_retains(&verdicts[i].status) {
            return true;
        }
        i = i + 1;
    }
    false
}

/// Groups a scan result: each occurrence whose snippet passes the relevance
/// filter joins the group of its parsed issue identifier; everything else
/// is passed over. Discovery order is kept both across and inside groups.
pub fn group_candidates(found: &Vec<Found>) -> (r: IssueGroups)
    ensures
        r.wf(),
        r.gview() == spec_group_fold(Seq::<GroupView>::empty(), found.deep_view()),
{
    let mut r = IssueGroups::new();
    let mut i: usize = 0;
    while i < found.len()
        invariant
            i <= found@.len(),
            r.wf(),
            r.gview() == spec_group_fold(Seq::<GroupView>::empty(), found.deep_view().take(i as int)),
        decreases found@.len() - i,
    {
        let ghost fv = found.deep_view()[i as int];
        let ghost acc0 = r.gview();
        proof {
            assert(fv == found@[i as int]@);
        }
        let f = &found[i];
        if is_relevant(f.snippet.as_str()) {
            let url = f.url.clone();
            let id = extract_issue_id(url);
            let c = f.clone();
            proof {
                assert(c@ == fv);
                assert(id as int == spec_extract_issue_id(fv.url));
            }
            r.add(id, c);
        }
        proof {
            assert(r.gview() == spec_group_step(acc0, fv));
            let s = found.deep_view();
            assert(s.take(i + 1) =~= s.take(i as int) + seq![s[i as int]]);
            lemma_group_fold_append(Seq::<GroupView>::empty(), s.take(i as int), seq![s[i as int]]);
            let one = seq![s[i as int]];
            assert(one.drop_first() =~= Seq::<FoundView>::empty());
            assert(spec_group_fold(acc0, one) == spec_group_fold(
                spec_group_step(acc0, fv),
                one.drop_first(),
            ));
            assert(spec_group_fold(spec_group_step(acc0, fv), one.drop_first()) == spec_group_step(
                acc0,
                fv,
            ));
        }
        i = i + 1;
    }
    proof {
        assert(found.deep_view().take(found@.len() as int) =~= found.deep_view());
    }
    r
}

} // verus!
