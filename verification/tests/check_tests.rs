use enforcer::check::{
    check_content, check_path, InfoLevel, Issue, LogEvent, HAS_ILLEGAL_CHARACTERS, HAS_TABS,
    HAS_WINDOWS_LINE_ENDINGS, LINE_TOO_LONG, TRAILING_SPACES,
};
use enforcer::clean::{LineEnding, TabStrategy};

#[test]
fn test_check_good_content() {
    let content = " 1\n";
    let (check, _) = check_content(content, InfoLevel::Quiet, None, TabStrategy::Untabify);
    assert!((check & TRAILING_SPACES) == 0);
    assert!((check & HAS_TABS) == 0);
    assert!((check & HAS_ILLEGAL_CHARACTERS) == 0);
}

#[test]
fn test_check_good_content_with_tabs() {
    let content = "\t1\n";
    let (check, _) = check_content(content, InfoLevel::Quiet, None, TabStrategy::Tabify);
    assert!((check & TRAILING_SPACES) == 0);
    assert!((check & HAS_TABS) == 0);
    assert!((check & HAS_ILLEGAL_CHARACTERS) == 0);
}

#[test]
fn test_check_good_content_with_box_drawing() {
    let content = r#"
                     ▲
                     │
                     ▼
            ┌────────S────────┐
            │░░░░░░░░░░░░░░░░░│
            │░Internal memory░│
            │░░░░░░░░░░░░░░░░░│
            └─────────────────┘
            "#;

    let (check, _) = check_content(content, InfoLevel::Quiet, None, TabStrategy::Tabify);

    // There are trailing spaces in the string literal, but otherwise it's good
    assert!((check & HAS_TABS) == 0);
    assert!((check & HAS_ILLEGAL_CHARACTERS) == 0);
}

#[test]
fn test_check_bad_content_with_illegal_characters() {
    let content = r#"
            Бл҃же́нъ мꙋ́жъ, и҆́же не и҆́де на совѣ́тъ нечести́выхъ,
            и҆ на пꙋтѝ грѣ́шныхъ не ста̀, и҆ на сѣда́лищи гꙋби́телей
            не сѣ́де: но въ зако́нѣ гдⷭ҇ни во́лѧ є҆гѡ̀, и҆ въ зако́нѣ
            є҆гѡ̀ поꙋчи́тсѧ де́нь и҆ но́щь."#;

    let (check, _) = check_content(content, InfoLevel::Quiet, None, TabStrategy::Tabify);

    assert!((check & TRAILING_SPACES) == 0);
    assert!((check & HAS_TABS) == 0);
    assert!((check & HAS_ILLEGAL_CHARACTERS) != 0);
}

#[test]
fn test_check_bad_content_with_tabs() {
    let content = "\t1\n";
    let (check, _) = check_content(content, InfoLevel::Quiet, None, TabStrategy::Untabify);
    assert!((check & TRAILING_SPACES) == 0);
    assert!((check & HAS_TABS) == 1);
    assert!((check & HAS_ILLEGAL_CHARACTERS) == 0);
}

#[test]
fn test_check_bad_content_with_win_line_endings() {
    let content = "1\r\n2\r\n";
    let (check, _) = check_content(content, InfoLevel::Quiet, None, TabStrategy::Untabify);
    assert!((check & TRAILING_SPACES) == 0);
    assert!((check & HAS_TABS) == 0);
    assert!((check & HAS_WINDOWS_LINE_ENDINGS) > 0);
    assert!((check & HAS_ILLEGAL_CHARACTERS) == 0);
}

#[test]
fn test_check_content_trailing_ws() {
    let content = "1 \n";
    let (check, _) = check_content(content, InfoLevel::Quiet, None, TabStrategy::Untabify);
    assert!((check & TRAILING_SPACES) > 0);
    assert!((check & HAS_TABS) == 0);
    assert!((check & HAS_ILLEGAL_CHARACTERS) == 0);
}

#[test]
fn test_check_content_trailing_tabs() {
    let content = "1\t\n";
    let (check, _) = check_content(content, InfoLevel::Quiet, None, TabStrategy::Untabify);
    assert!((check & TRAILING_SPACES) > 0);
    assert!((check & HAS_TABS) > 0);
    assert!((check & HAS_ILLEGAL_CHARACTERS) == 0);
}

#[test]
fn test_line_too_long() {
    let content = "1234567890\n";
    let (check, _) = check_content(content, InfoLevel::Quiet, Some(5), TabStrategy::Tabify);
    assert!((check & TRAILING_SPACES) == 0);
    assert!((check & HAS_TABS) == 0);
    assert!((check & HAS_ILLEGAL_CHARACTERS) == 0);
    assert!((check & LINE_TOO_LONG) > 0);
}

#[test]
fn test_line_not_too_long() {
    let content = "1234567890\n";
    let (check, _) = check_content(content, InfoLevel::Quiet, Some(10), TabStrategy::Tabify);
    assert!((check & TRAILING_SPACES) == 0);
    assert!((check & HAS_TABS) == 0);
    assert!((check & HAS_ILLEGAL_CHARACTERS) == 0);
    assert!((check & LINE_TOO_LONG) == 0);
}

#[test]
fn test_line_of_eleven_bytes_against_limits() {
    let content = "12345678901\n";
    let (check, _) = check_content(content, InfoLevel::Quiet, Some(5), TabStrategy::Untabify);
    assert!((check & LINE_TOO_LONG) > 0);
    let (check, _) = check_content(content, InfoLevel::Quiet, Some(11), TabStrategy::Untabify);
    assert!((check & LINE_TOO_LONG) == 0);
}

#[test]
fn test_fully_compliant_content_has_zero_bitmask() {
    let content = "fn main() {\n    let x = 1;\n}\n";
    let (check, events) = check_content(content, InfoLevel::Quiet, Some(80), TabStrategy::Untabify);
    assert_eq!(check, 0);
    assert!(events.is_empty());
}

#[test]
fn test_line_length_counts_utf8_bytes() {
    // Three box-drawing characters take nine bytes.
    let content = "───\n";
    let (check, _) = check_content(content, InfoLevel::Quiet, Some(8), TabStrategy::Untabify);
    assert!((check & LINE_TOO_LONG) > 0);
    let (check, _) = check_content(content, InfoLevel::Quiet, Some(9), TabStrategy::Untabify);
    assert!((check & LINE_TOO_LONG) == 0);
}

#[test]
fn test_verbose_events_per_line() {
    let content = "1 \n\t2\n";
    let (check, events) = check_content(content, InfoLevel::Verbose, None, TabStrategy::Untabify);
    assert!((check & TRAILING_SPACES) > 0);
    assert!((check & HAS_TABS) > 0);
    assert_eq!(
        events,
        vec![
            LogEvent::Line { line: 1, issue: Issue::TrailingSpaces },
            LogEvent::Line { line: 2, issue: Issue::Tabs },
        ]
    );
}

#[test]
fn test_normal_events_one_per_rule() {
    let content = "1 \n2 \n\t3\r\n";
    let (_, events) = check_content(content, InfoLevel::Normal, None, TabStrategy::Untabify);
    assert_eq!(
        events,
        vec![
            LogEvent::SomeLines { issue: Issue::TrailingSpaces },
            LogEvent::SomeLines { issue: Issue::Tabs },
            LogEvent::SomeLines { issue: Issue::WindowsLineEndings },
        ]
    );
}

#[test]
fn test_check_path_invalid_utf8() {
    let buf: Vec<u8> = vec![0xff, 0xfe, 0x31];
    let outcome = check_path(
        &buf,
        false,
        InfoLevel::Quiet,
        None,
        TabStrategy::Untabify,
        LineEnding::LF,
    );
    assert_eq!(outcome.flags, HAS_ILLEGAL_CHARACTERS);
    assert!(!outcome.decoded);
    assert!(outcome.events.is_empty());
    assert!(outcome.rewrite.is_none());
}

#[test]
fn test_check_path_cleans_trailing_whitespace() {
    let buf = b"hello \nworld\n";
    let outcome = check_path(
        buf,
        true,
        InfoLevel::Quiet,
        None,
        TabStrategy::Untabify,
        LineEnding::LF,
    );
    assert!((outcome.flags & TRAILING_SPACES) > 0);
    assert_eq!(outcome.rewrite.as_deref(), Some("hello\nworld\n"));
}

#[test]
fn test_check_path_cleaning_notices_at_verbose() {
    let buf = b"a \n\tb\n";
    let outcome = check_path(
        buf,
        true,
        InfoLevel::Verbose,
        None,
        TabStrategy::Untabify,
        LineEnding::LF,
    );
    let tail = &outcome.events[outcome.events.len() - 2..];
    assert_eq!(
        tail,
        &[
            LogEvent::Cleaning { issue: Issue::TrailingSpaces },
            LogEvent::Cleaning { issue: Issue::Tabs },
        ]
    );
    assert_eq!(outcome.rewrite.as_deref(), Some("a\n    b\n"));
}

#[test]
fn test_clean_to_configured_crlf_target() {
    let outcome = check_path(
        b"a \r\nb\r\n",
        true,
        InfoLevel::Quiet,
        None,
        TabStrategy::Untabify,
        LineEnding::CRLF,
    );
    assert_eq!(outcome.rewrite.as_deref(), Some("a\r\nb\r\n"));
    let outcome = check_path(
        b"a \nb\n",
        true,
        InfoLevel::Quiet,
        None,
        TabStrategy::Untabify,
        LineEnding::CRLF,
    );
    assert_eq!(outcome.rewrite.as_deref(), Some("a\r\nb\r\n"));
}

#[test]
fn test_crlf_cleaning_is_exhaustive() {
    let first = check_path(
        b"\r\r\n",
        true,
        InfoLevel::Quiet,
        None,
        TabStrategy::Untabify,
        LineEnding::LF,
    );
    assert_eq!(first.flags, HAS_WINDOWS_LINE_ENDINGS);
    let cleaned = first.rewrite.unwrap();
    assert_eq!(cleaned, "\n");
    let second = check_path(
        cleaned.as_bytes(),
        true,
        InfoLevel::Quiet,
        None,
        TabStrategy::Untabify,
        LineEnding::LF,
    );
    assert_eq!(second.flags, 0);
}

#[test]
fn test_encoding_errors_reported_per_line() {
    let buf: Vec<u8> = vec![b'o', b'k', b'\n', 0xff, 0xfe, b'\n', b'a', b'\n', 0xff];
    let outcome = check_path(
        &buf,
        false,
        InfoLevel::Normal,
        None,
        TabStrategy::Untabify,
        LineEnding::LF,
    );
    assert_eq!(outcome.flags, HAS_ILLEGAL_CHARACTERS);
    assert_eq!(
        outcome.events,
        vec![
            LogEvent::BadEncodingLine { line: 2 },
            LogEvent::BadEncodingLine { line: 4 },
        ]
    );
}

#[test]
fn test_clean_is_idempotent_on_sample() {
    let buf = b"one \n\ttwo\t\nthree\r\n";
    let first = check_path(
        buf,
        true,
        InfoLevel::Quiet,
        None,
        TabStrategy::Untabify,
        LineEnding::LF,
    );
    let once = first.rewrite.unwrap();
    let second = check_path(
        once.as_bytes(),
        true,
        InfoLevel::Quiet,
        None,
        TabStrategy::Untabify,
        LineEnding::LF,
    );
    assert_eq!(second.rewrite.unwrap(), once);
}

#[test]
fn test_clean_preserves_trailing_newline_presence() {
    let with_newline = check_path(
        b"x \n",
        true,
        InfoLevel::Quiet,
        None,
        TabStrategy::Untabify,
        LineEnding::LF,
    );
    assert!(with_newline.rewrite.unwrap().ends_with('\n'));
    let without_newline = check_path(
        b"x \ny",
        true,
        InfoLevel::Quiet,
        None,
        TabStrategy::Untabify,
        LineEnding::LF,
    );
    assert!(!without_newline.rewrite.unwrap().ends_with('\n'));
}
