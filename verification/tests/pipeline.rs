use issue_sweep::extract::extract_occurrence;
use issue_sweep::filter::is_relevant;
use issue_sweep::groups::{group_candidates, IssueStatus, IssueVerdict};
use issue_sweep::occurrence::{merge_found, Found};
use issue_sweep::pattern::UrlPattern;
use issue_sweep::walk::{dir_should_descend, file_should_scan, scan_tree, FsNode};

fn file(name: &str, text: &str) -> FsNode {
    FsNode::File { name: name.to_string(), content: Some(text.to_string()) }
}

fn dir(name: &str, entries: Vec<FsNode>) -> FsNode {
    FsNode::Dir { name: name.to_string(), entries }
}

fn sample_found() -> Found {
    Found {
        file: "src/a.cs".to_string(),
        url: "https://github.com/dotnet/runtime/issues/9".to_string(),
        snippet: "// fix later".to_string(),
        line: 3,
        start: 11,
        end: 54,
    }
}

#[test]
fn merging_the_same_occurrence_twice_keeps_one() {
    let mut results: Vec<Found> = Vec::new();
    merge_found(&mut results, sample_found());
    merge_found(&mut results, sample_found());
    assert_eq!(results.len(), 1);
}

#[test]
fn rescanning_an_unchanged_tree_changes_nothing() {
    let pat = UrlPattern::new();
    let tree = vec![
        file("a.cs", "// fix for https://github.com/dotnet/runtime/issues/42\nmore"),
        dir("sub", vec![file("b.cs", "// workaround https://github.com/dotnet/runtime/issues/7\n")]),
    ];
    let mut results: Vec<Found> = Vec::new();
    scan_tree(&pat, &tree, &mut results);
    let first_pass = results.len();
    assert_eq!(first_pass, 2);
    scan_tree(&pat, &tree, &mut results);
    assert_eq!(results.len(), first_pass);
    assert_eq!(results[0].file, "a.cs");
    assert_eq!(results[1].file, "sub/b.cs");
}

#[test]
fn relevance_filter_is_case_insensitive() {
    assert!(is_relevant("Temporarily disabled"));
    assert!(is_relevant("TEMPORARILY disabled"));
    assert!(is_relevant("see [ActiveIssue(123)]"));
    assert!(!is_relevant("nothing of note"));
}

#[test]
fn end_to_end_closed_issue_is_reported() {
    let pat = UrlPattern::new();
    let tree = vec![file("src/a.cs", "// fix for https://github.com/dotnet/runtime/issues/42\n")];
    let mut results: Vec<Found> = Vec::new();
    scan_tree(&pat, &tree, &mut results);
    let groups = group_candidates(&results);
    let verdicts = vec![IssueVerdict { id: 42, status: IssueStatus::Closed }];
    let retained = groups.retain_closed(&verdicts).sorted_by_id();
    assert_eq!(retained.entries.len(), 1);
    assert_eq!(retained.entries[0].id, 42);
    assert_eq!(retained.entries[0].items.len(), 1);
    assert_eq!(retained.entries[0].items[0].file, "src/a.cs");
}

#[test]
fn end_to_end_open_issue_is_dropped() {
    let pat = UrlPattern::new();
    let tree = vec![file("src/a.cs", "// fix for https://github.com/dotnet/runtime/issues/42\n")];
    let mut results: Vec<Found> = Vec::new();
    scan_tree(&pat, &tree, &mut results);
    let groups = group_candidates(&results);
    let verdicts = vec![IssueVerdict { id: 42, status: IssueStatus::Open }];
    let retained = groups.retain_closed(&verdicts);
    assert_eq!(retained.entries.len(), 0);
}

#[test]
fn end_to_end_failed_lookup_is_dropped() {
    let pat = UrlPattern::new();
    let tree = vec![file("src/a.cs", "// fix for https://github.com/dotnet/runtime/issues/42\n")];
    let mut results: Vec<Found> = Vec::new();
    scan_tree(&pat, &tree, &mut results);
    let groups = group_candidates(&results);
    let verdicts = vec![IssueVerdict { id: 42, status: IssueStatus::Unresolved }];
    let retained = groups.retain_closed(&verdicts);
    assert_eq!(retained.entries.len(), 0);
}

#[test]
fn excluded_directories_are_never_visited() {
    let pat = UrlPattern::new();
    let hot = "// fix for https://github.com/dotnet/runtime/issues/42\n";
    let tree = vec![
        dir(".git", vec![file("a.cs", hot)]),
        dir("artifacts", vec![file("b.cs", hot)]),
        dir(".hidden", vec![file("c.cs", hot)]),
    ];
    let mut results: Vec<Found> = Vec::new();
    scan_tree(&pat, &tree, &mut results);
    assert_eq!(results.len(), 0);
    assert!(!dir_should_descend(".git"));
    assert!(!dir_should_descend("artifacts"));
    assert!(dir_should_descend("src"));
}

#[test]
fn binary_artifacts_are_never_scanned() {
    let pat = UrlPattern::new();
    let hot = "// fix for https://github.com/dotnet/runtime/issues/42\n";
    let tree = vec![file("a.dll", hot), file("b.pdb", hot), file("c.exe", hot), file("d.lib", hot)];
    let mut results: Vec<Found> = Vec::new();
    scan_tree(&pat, &tree, &mut results);
    assert_eq!(results.len(), 0);
    assert!(!file_should_scan("a.dll"));
    assert!(file_should_scan("a.cs"));
}

#[test]
fn non_text_files_are_silently_skipped() {
    let pat = UrlPattern::new();
    let tree = vec![FsNode::File { name: "blob.bin".to_string(), content: None }];
    let mut results: Vec<Found> = Vec::new();
    scan_tree(&pat, &tree, &mut results);
    assert_eq!(results.len(), 0);
}

#[test]
fn extractor_reports_exact_match_and_position() {
    let pat = UrlPattern::new();
    let text = "one\n// fix https://github.com/dotnet/runtime/issues/7 end\ntwo";
    let f = extract_occurrence(&pat, "x/y.cs", text).unwrap();
    assert_eq!(f.url, "https://github.com/dotnet/runtime/issues/7");
    assert_eq!(f.file, "x/y.cs");
    assert_eq!(f.line, 2);
    assert_eq!(f.start, 11);
    assert_eq!(f.end, 11 + f.url.chars().count());
    assert_eq!(f.snippet, "one\n// fix https://github.com/dotnet/runtime/issues/7 end");
}

#[test]
fn extractor_ignores_urls_outside_the_tracker() {
    let pat = UrlPattern::new();
    let text = "// fix https://example.com/other/issues/7\n";
    assert!(extract_occurrence(&pat, "a.cs", text).is_none());
}

#[test]
fn extractor_reports_nothing_without_a_url() {
    let pat = UrlPattern::new();
    assert!(extract_occurrence(&pat, "a.cs", "plain text only").is_none());
}

#[test]
fn irrelevant_snippets_are_not_grouped() {
    let mut f = sample_found();
    f.snippet = "nothing of note".to_string();
    let groups = group_candidates(&vec![f]);
    assert_eq!(groups.entries.len(), 0);
}

#[test]
fn grouping_collects_occurrences_by_issue() {
    let a = sample_found();
    let mut b = sample_found();
    b.file = "src/b.cs".to_string();
    let mut c = sample_found();
    c.url = "https://github.com/dotnet/runtime/issues/11".to_string();
    let groups = group_candidates(&vec![a, b, c]);
    assert_eq!(groups.entries.len(), 2);
    assert_eq!(groups.entries[0].id, 9);
    assert_eq!(groups.entries[0].items.len(), 2);
    assert_eq!(groups.entries[1].id, 11);
    assert_eq!(groups.entries[1].items.len(), 1);
}

#[test]
fn report_order_is_ascending_by_issue() {
    let mut a = sample_found();
    a.url = "https://github.com/dotnet/runtime/issues/30".to_string();
    let mut b = sample_found();
    b.url = "https://github.com/dotnet/runtime/issues/12".to_string();
    let mut c = sample_found();
    c.url = "https://github.com/dotnet/runtime/issues/99".to_string();
    let groups = group_candidates(&vec![a, b, c]);
    let verdicts = vec![
        IssueVerdict { id: 30, status: IssueStatus::Closed },
        IssueVerdict { id: 12, status: IssueStatus::Closed },
        IssueVerdict { id: 99, status: IssueStatus::Closed },
    ];
    let sorted = groups.retain_closed(&verdicts).sorted_by_id();
    let ids: Vec<u32> = sorted.ids();
    assert_eq!(ids, vec![12, 30, 99]);
}

#[test]
fn snippet_includes_the_preceding_line() {
    let pat = UrlPattern::new();
    let text = "// the next line needs work\n// fix https://github.com/dotnet/runtime/issues/3\nrest";
    let f = extract_occurrence(&pat, "a.cs", text).unwrap();
    assert_eq!(
        f.snippet,
        "// the next line needs work\n// fix https://github.com/dotnet/runtime/issues/3"
    );
}
