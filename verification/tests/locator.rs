use issue_sweep::lines::find_line_of_position;

#[test]
fn test_find_line_of_position() {
    let code = "Line 1\n                           Line 2\n                           Line 3";
    let pos = 8;
    let expected = 2;
    let actual = find_line_of_position(code, pos).unwrap();

    assert_eq!(actual, expected);
}

#[test]
fn locator_offset_at_text_length_is_not_found() {
    let code = "Line 1\nLine 2";
    assert_eq!(find_line_of_position(code, code.chars().count()), None);
}

#[test]
fn locator_offset_past_text_length_is_not_found() {
    assert_eq!(find_line_of_position("short", 100), None);
}

#[test]
fn locator_offset_zero_is_line_one() {
    assert_eq!(find_line_of_position("a\nb", 0), Some(1));
}

#[test]
fn locator_newline_counts_toward_the_line_it_ends() {
    // offsets 0..=7 belong to line 1 under the locator's convention: the
    // line break and the position straight after it still report line 1
    let code = "Line 1\nLine 2\nLine 3";
    assert_eq!(find_line_of_position(code, 6), Some(1));
    assert_eq!(find_line_of_position(code, 7), Some(1));
    assert_eq!(find_line_of_position(code, 8), Some(2));
}

#[test]
fn locator_counts_carriage_returns_as_content() {
    let code = "a\r\nbb";
    assert_eq!(find_line_of_position(code, 4), Some(2));
}
