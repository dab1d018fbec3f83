//! Tree walker: depth-first traversal of an in-memory image of a directory
//! tree. It applies the exclusion rules, extracts at most one occurrence per
//! file, and merges everything into the running scan result with
//! deduplication. Listing and reading the real file system happens outside;
//! the walk over what was read is verified here.

use vstd::prelude::*;

use crate::extract::{extract_occurrence, spec_extract};
use crate::occurrence::{
    lemma_merge_stream_append, lemma_merge_stream_idempotent, merge_found, merge_one, merge_stream,
    Found, FoundView,
};
use crate::pattern::UrlPattern;
use crate::text::{ends_with, str_ends_with, str_equal};

verus! {

/// An in-memory image of one file-system entry. A file's content is its
/// decoded text, or nothing when its bytes were not valid text (such a file
/// contributes no occurrence, by design).
pub enum FsNode {
    Dir { name: String, entries: Vec<FsNode> },
    File { name: String, content: Option<String> },
}

/// A directory is entered unless its name marks it hidden (a leading `.`)
/// or it is the fixed build-output directory.
pub open spec fn spec_descend_dir(name: Seq<char>) -> bool {
    !(name.len() > 0 && name[0] == '.') && name != "artifacts"@
}

/// A file is scanned unless its name ends in a binary-artifact extension.
pub open spec fn spec_scan_file(name: Seq<char>) -> bool {
    !ends_with(name, ".dll"@) && !ends_with(name, ".pdb"@) && !ends_with(name, ".exe"@)
        && !ends_with(name, ".lib"@)
}

/// Exec twin of `spec_descend_dir`.
pub fn dir_should_descend(name: &str) -> (r: bool)
    ensures
        r == spec_descend_dir(name@),
{
    if name.unicode_len() > 0 && name.get_char(0) == '.' {
        return false;
    }
    !str_equal(name, "artifacts")
}

/// Exec twin of `spec_scan_file`.
pub fn file_should_scan(name: &str) -> (r: bool)
    ensures
        r == spec_scan_file(name@),
{
    !str_ends_with(name, ".dll") && !str_ends_with(name, ".pdb") && !str_ends_with(name, ".exe")
        && !str_ends_with(name, ".lib")
}

/// The scan-root-relative path of a child named `name` under `prefix`.
pub open spec fn child_path(prefix: Seq<char>, name: Seq<char>) -> Seq<char> {
    if prefix.len() == 0 {
        name
    } else {
        prefix + "/"@ + name
    }
}

fn child_path_of(prefix: &str, name: &str) -> (r: String)
    ensures
        r@ == child_path(prefix@, name@),
{
    if prefix.unicode_len() == 0 {
        String::from_str(name)
    } else {
        let mut s = String::from_str(prefix);
        s.append("/");
        s.append(name);
        s
    }
}

/// The occurrences one entry contributes, in traversal order, duplicates
/// included: nothing from an excluded directory or file, at most one
/// occurrence per scanned file, children of an entered directory in order.
pub open spec fn entry_stream(node: FsNode, prefix: Seq<char>) -> Seq<FoundView>
    decreases node,
{
    match node {
        FsNode::File { name, content } => {
            if spec_scan_file(name@) {
                match content {
                    Some(text) => match spec_extract(child_path(prefix, name@), text@) {
                        Some(fv) => seq![fv],
                        None => Seq::empty(),
                    },
                    None => Seq::empty(),
                }
            } else {
                Seq::empty()
            }
        },
        FsNode::Dir { name, entries } => {
            if spec_descend_dir(name@) {
                list_stream(entries@, child_path(prefix, name@))
            } else {
                Seq::empty()
            }
        },
    }
}

/// The concatenated streams of a directory's entries.
pub open spec fn list_stream(entries: Seq<FsNode>, prefix: Seq<char>) -> Seq<FoundView>
    decreases entries,
{
    if entries.len() == 0 {
        Seq::empty()
    } else {
        entry_stream(entries[0], prefix) + list_stream(entries.drop_first(), prefix)
    }
}

proof fn lemma_merge_stream_single(acc: Seq<FoundView>, f: FoundView)
    ensures
        merge_stream(acc, seq![f]) == merge_one(acc, f),
{
    let one = seq![f];
    assert(one.drop_first() =~= Seq::<FoundView>::empty());
    assert(merge_stream(acc, one) == merge_stream(merge_one(acc, f), one.drop_first()));
    assert(merge_stream(merge_one(acc, f), one.drop_first()) == merge_one(acc, f));
}

proof fn lemma_list_stream_single(x: FsNode, prefix: Seq<char>)
    ensures
        list_stream(seq![x], prefix) == entry_stream(x, prefix),
{
    let one = seq![x];
    assert(one.drop_first() =~= Seq::<FsNode>::empty());
    assert(list_stream(one, prefix) == entry_stream(x, prefix) + list_stream(
        one.drop_first(),
        prefix,
    ));
    assert(list_stream(one.drop_first(), prefix) == Seq::<FoundView>::empty());
    assert(entry_stream(x, prefix) + Seq::<FoundView>::empty() =~= entry_stream(x, prefix));
}

proof fn lemma_list_stream_append(a: Seq<FsNode>, b: Seq<FsNode>, prefix: Seq<char>)
    ensures
        list_stream(a + b, prefix) == list_stream(a, prefix) + list_stream(b, prefix),
    decreases a.len(),
{
    if a.len() == 0 {
        assert(a + b =~= b);
        assert(Seq::<FoundView>::empty() + list_stream(b, prefix) =~= list_stream(b, prefix));
    } else {
        assert((a + b)[0] == a[0]);
        assert((a + b).drop_first() =~= a.drop_first() + b);
        lemma_list_stream_append(a.drop_first(), b, prefix);
        assert(entry_stream(a[0], prefix) + (list_stream(a.drop_first(), prefix) + list_stream(
            b,
            prefix,
        )) =~= (entry_stream(a[0], prefix) + list_stream(a.drop_first(), prefix)) + list_stream(
            b,
            prefix,
        ));
    }
}

/// Law: an excluded directory contributes nothing, whatever it holds —
/// a file below `.git`, `artifacts` or any other skipped directory is
/// never visited.
pub proof fn lemma_excluded_dir_contributes_nothing(
    name: String,
    entries: Vec<FsNode>,
    prefix: Seq<char>,
)
    requires
        !spec_descend_dir(name@),
    ensures
        entry_stream(FsNode::Dir { name, entries }, prefix) == Seq::<FoundView>::empty(),
{
}

/// Law: re-scanning an unchanged tree is a no-op. Merging a tree's stream
/// into a result that already merged that same stream leaves it untouched.
pub proof fn lemma_rescan_unchanged(acc: Seq<FoundView>, entries: Seq<FsNode>, prefix: Seq<char>)
    ensures
        merge_stream(merge_stream(acc, list_stream(entries, prefix)), list_stream(entries, prefix))
            == merge_stream(acc, list_stream(entries, prefix)),
{
    lemma_merge_stream_idempotent(acc, list_stream(entries, prefix));
}

/// Walks one entry, merging its occurrences into `results`.
fn scan_entry(pat: &UrlPattern, node: &FsNode, prefix: &str, results: &mut Vec<Found>)
    ensures
        final(results).deep_view() == merge_stream(
            old(results).deep_view(),
            entry_stream(*node, prefix@),
        ),
    decreases *node,
{
    match node {
        FsNode::File { name, content } => {
            let ghost stream = entry_stream(*node, prefix@);
            if file_should_scan(name.as_str()) {
                match content {
                    Option::Some(text) => {
                        let path = child_path_of(prefix, name.as_str());
                        match extract_occurrence(pat, path.as_str(), text.as_str()) {
                            Option::Some(f) => {
                                proof {
                                    assert(stream =~= seq![f@]);
                                    lemma_merge_stream_single(results.deep_view(), f@);
                                }
                                merge_found(results, f);
                            },
                            Option::None => {},
                        }
                    },
                    Option::None => {},
                }
            }
        },
        FsNode::Dir { name, entries } => {
            if dir_should_descend(name.as_str()) {
                let path = child_path_of(prefix, name.as_str());
                proof {
                    assert(decreases_to!(*node => *entries));
                }
                scan_list(pat, entries, path.as_str(), results);
            }
        },
    }
}

/// Walks a directory's entries in listing order.
fn scan_list(pat: &UrlPattern, entries: &Vec<FsNode>, prefix: &str, results: &mut Vec<Found>)
    ensures
        final(results).deep_view() == merge_stream(
            old(results).deep_view(),
            list_stream(entries@, prefix@),
        ),
    decreases entries@,
{
    let ghost acc0 = results.deep_view();
    let n = entries.len();
    let mut i: usize = 0;
    proof {
        assert(entries@.take(0) =~= Seq::<FsNode>::empty());
    }
    while i < n
        invariant
            i <= n,
            n == entries@.len(),
            results.deep_view() == merge_stream(acc0, list_stream(entries@.take(i as int), prefix@)),
        decreases n - i,
    {
        let ghost before = results.deep_view();
        scan_entry(pat, &entries[i], prefix, results);
        proof {
            let es = entries@;
            let one = seq![es[i as int]];
            assert(es.take(i + 1) =~= es.take(i as int) + one);
            lemma_list_stream_append(es.take(i as int), one, prefix@);
            lemma_list_stream_single(es[i as int], prefix@);
            lemma_merge_stream_append(
                acc0,
                list_stream(es.take(i as int), prefix@),
                entry_stream(es[i as int], prefix@),
            );
        }
        i = i + 1;
    }
    proof {
        assert(entries@.take(n as int) =~= entries@);
    }
}

/// Scans a whole tree image: every occurrence found under the root's
/// entries, in depth-first traversal order, merged into `results` with
/// first-occurrence-wins deduplication. Paths are built relative to the
/// root, `/`-separated.
pub fn scan_tree(pat: &UrlPattern, root_entries: &Vec<FsNode>, results: &mut Vec<Found>)
    ensures
        final(results).deep_view() == merge_stream(
            old(results).deep_view(),
            list_stream(root_entries@, Seq::<char>::empty()),
        ),
{
    proof {
        reveal_strlit("");
        assert(""@ =~= Seq::<char>::empty());
    }
    scan_list(pat, root_entries, "", results);
}

} // verus!
