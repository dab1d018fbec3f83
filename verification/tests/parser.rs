use issue_sweep::parse::extract_issue_id;

#[test]
fn test_extract_last_issue_id() {
    let input = "https://github.com/dotnet/runtime/issues/123";
    let expected = 123;
    let actual = extract_issue_id(input.to_string());

    assert_eq!(expected, actual);
}

#[test]
fn test_extract_last_issue_id_with_special_char() {
    let input = "https://github.com/dotnet/runtime/issues/123).#123";
    let expected = 123;
    let actual = extract_issue_id(input.to_string());

    assert_eq!(expected, actual);
}

#[test]
fn extract_id_plain_tracker_url() {
    assert_eq!(extract_issue_id("https://tracker/x/issues/123".to_string()), 123);
}

#[test]
fn extract_id_trailing_punctuation() {
    assert_eq!(extract_issue_id("https://tracker/x/issues/123).#123".to_string()), 123);
}

#[test]
fn extract_id_query_then_fragment() {
    assert_eq!(
        extract_issue_id("https://github.com/dotnet/runtime/issues/123?tab=all#comment".to_string()),
        123
    );
}

#[test]
fn extract_id_fragment_then_query() {
    assert_eq!(
        extract_issue_id("https://github.com/dotnet/runtime/issues/123#frag?x=1".to_string()),
        123
    );
}

#[test]
fn extract_id_no_digits_in_last_segment() {
    assert_eq!(extract_issue_id("https://github.com/dotnet/runtime/issues/abc".to_string()), 0);
}

#[test]
fn extract_id_no_slash_at_all() {
    assert_eq!(extract_issue_id("nothing-here".to_string()), 0);
}

#[test]
fn extract_id_digits_only_before_last_slash() {
    assert_eq!(extract_issue_id("https://tracker/x42/issues/abc".to_string()), 0);
}

#[test]
fn extract_id_value_too_large_for_u32() {
    assert_eq!(extract_issue_id("https://tracker/x/issues/99999999999".to_string()), 0);
}

#[test]
fn extract_id_zero_is_the_sentinel() {
    assert_eq!(extract_issue_id("https://tracker/x/issues/0".to_string()), 0);
}
