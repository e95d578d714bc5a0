use enforcer::clean::{
    normalize_line_endings, remove_trailing_whitespaces, replace_win_line_endings,
    space_tabs_conversion, to_spaces, LineEnding, TabStrategy,
};

#[test]
fn test_clean_does_not_remove_trailing_newline() {
    let content = "1\n2\n3\n4\n5\n";
    let cleaned = remove_trailing_whitespaces(content, &LineEnding::LF);
    assert!(cleaned.eq(content));
}

#[test]
fn test_clean_trailing_whitespace() {
    let content = "1 \n2";
    let cleaned = remove_trailing_whitespaces(content, &LineEnding::LF);
    assert!(cleaned.eq("1\n2"));
}

#[test]
fn test_clean_win_line_endings() {
    let content = "1\r\n2";
    let cleaned = replace_win_line_endings(content);
    assert!(cleaned.eq("1\n2"));
}

#[test]
fn test_clean_trailing_tabs() {
    let content = "1\t\n2";
    let cleaned = remove_trailing_whitespaces(content, &LineEnding::LF);
    assert!(cleaned.eq("1\n2"));
}

#[test]
fn test_convert_line_with_leading_tab() {
    let converted = to_spaces("\t    a", 4);
    assert_eq!(converted, "        a");
}

#[test]
fn test_convert_line_with_tab_at_end_of_spaces() {
    let converted = to_spaces("    \tA", 4);
    assert_eq!(converted, "        A");
}

#[test]
fn test_tabs_to_spaces() {
    let line1 = "\t\tfoo";
    let line2 = "\t\tbar";
    let text_with_tabs_newline = [line1, line2].join("\n");
    let text_with_tabs_cr_ln = [line1, line2].join("\r\n");
    let expected_ln = "        foo\n        bar";
    let cleaned_ln = space_tabs_conversion(
        text_with_tabs_newline.as_str(),
        TabStrategy::Untabify,
        LineEnding::LF,
    );
    assert_eq!(cleaned_ln, expected_ln);
    let expected_cr_ln = "        foo\r\n        bar";
    let cleaned_cr_ln = space_tabs_conversion(
        text_with_tabs_cr_ln.as_str(),
        TabStrategy::Untabify,
        LineEnding::CRLF,
    );
    assert_eq!(cleaned_cr_ln, expected_cr_ln);
}

#[test]
fn test_mixed_tabs_and_spaces_to_spaces() {
    let line1 = "\t\tfoo";
    let line2 = "       bar";
    let text_with_tabs_newline = [line1, line2].join("\n");
    let text_with_tabs_cr_ln = [line1, line2].join("\r\n");
    let expected_ln = "        foo\n       bar";
    let cleaned_ln = space_tabs_conversion(
        text_with_tabs_newline.as_str(),
        TabStrategy::Untabify,
        LineEnding::LF,
    );
    assert_eq!(cleaned_ln, expected_ln);
    let expected_cr_ln = "        foo\r\n       bar";
    let cleaned_cr_ln = space_tabs_conversion(
        text_with_tabs_cr_ln.as_str(),
        TabStrategy::Untabify,
        LineEnding::CRLF,
    );
    assert_eq!(cleaned_cr_ln, expected_cr_ln);
}

#[test]
fn test_tabs_and_spaces_in_one_line() {
    let line1 = " \t\tfoo";
    let line2 = "\t\tbar";
    let text_with_tabs_newline = [line1, line2].join("\n");
    let text_with_tabs_cr_ln = [line1, line2].join("\r\n");
    let expected_ln = "        foo\n        bar";
    let cleaned_ln = space_tabs_conversion(
        text_with_tabs_newline.as_str(),
        TabStrategy::Untabify,
        LineEnding::LF,
    );
    assert_eq!(cleaned_ln, expected_ln);
    let expected_cr_ln = "        foo\r\n        bar";
    let cleaned_cr_ln = space_tabs_conversion(
        text_with_tabs_cr_ln.as_str(),
        TabStrategy::Untabify,
        LineEnding::CRLF,
    );
    assert_eq!(cleaned_cr_ln, expected_cr_ln);
}

#[test]
fn test_no_change_on_empty_string() {
    let converted = to_spaces("", 4);
    assert_eq!(converted, "");
}

#[test]
fn test_tabs_at_end() {
    let converted = to_spaces("foobarbaz\t", 4);
    assert_eq!(converted, "foobarbaz   ");
}

#[test]
fn test_tabs_in_middle() {
    let converted = to_spaces("foo\tbar\tbaz", 4);
    assert_eq!(converted, "foo bar baz");
}

#[test]
fn test_one_tab_to_spaces() {
    let converted = to_spaces("\tfoo", 2);
    assert_eq!(converted, "  foo");
}

#[test]
fn test_two_tabs_to_spaces() {
    let converted = to_spaces("\t\tfoo", 2);
    assert_eq!(converted, "    foo");
}

#[test]
fn test_change_mixed_tabs_and_spaces() {
    let converted = to_spaces(" \t foo", 2);
    assert_eq!(converted, "   foo");
}

#[test]
fn test_tab_expansion_at_stop_width_four() {
    let converted = to_spaces("\tfoo", 4);
    assert_eq!(converted, "    foo");
}

#[test]
fn test_remove_trailing_keeps_missing_final_newline() {
    let cleaned = remove_trailing_whitespaces("a \nb", &LineEnding::LF);
    assert_eq!(cleaned, "a\nb");
    assert!(!cleaned.ends_with('\n'));
}

#[test]
fn test_remove_trailing_unicode_whitespace() {
    let cleaned = remove_trailing_whitespaces("a\u{a0}\nb", &LineEnding::LF);
    assert_eq!(cleaned, "a\nb");
}

#[test]
fn test_conversion_keeps_final_newline_presence() {
    let converted = space_tabs_conversion("", TabStrategy::Untabify, LineEnding::LF);
    assert_eq!(converted, "");
    let converted = space_tabs_conversion("\ta", TabStrategy::Untabify, LineEnding::LF);
    assert_eq!(converted, "    a");
    let converted = space_tabs_conversion("\ta\n", TabStrategy::Untabify, LineEnding::LF);
    assert_eq!(converted, "    a\n");
}

#[test]
fn test_normalize_to_crlf_target() {
    let normalized = normalize_line_endings("a\nb\r\nc", &LineEnding::CRLF);
    assert_eq!(normalized, "a\r\nb\r\nc");
    let twice = normalize_line_endings(normalized.as_str(), &LineEnding::CRLF);
    assert_eq!(twice, normalized);
}

#[test]
fn test_conversion_is_idempotent_on_sample() {
    let once = space_tabs_conversion("\t\tfoo\r\nbar", TabStrategy::Untabify, LineEnding::LF);
    assert_eq!(once, "        foo\nbar");
    let twice = space_tabs_conversion(once.as_str(), TabStrategy::Untabify, LineEnding::LF);
    assert_eq!(twice, once);
}

#[test]
fn test_trailing_removal_is_idempotent_on_sample() {
    let once = remove_trailing_whitespaces("a \nb\t\n \n", &LineEnding::LF);
    assert_eq!(once, "a\nb\n\n");
    let twice = remove_trailing_whitespaces(once.as_str(), &LineEnding::LF);
    assert_eq!(twice, once);
}

#[test]
fn test_win_line_endings_exhaustive() {
    let cleaned = replace_win_line_endings("\r\r\n");
    assert_eq!(cleaned, "\n");
    let cleaned = replace_win_line_endings("a\rb");
    assert_eq!(cleaned, "a\rb");
}
