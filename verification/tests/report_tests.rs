use enforcer::check::{check_path, InfoLevel, HAS_TABS, TRAILING_SPACES};
use enforcer::clean::{LineEnding, TabStrategy};
use enforcer::report::{sink_step, Findings};

#[test]
fn test_record_counts_each_set_flag() {
    let mut f = Findings::new();
    f.record(HAS_TABS | TRAILING_SPACES);
    f.record(0);
    assert_eq!(f.had_tabs, 1);
    assert_eq!(f.had_trailing_ws, 1);
    assert_eq!(f.had_illegals, 0);
    assert_eq!(f.checked_files, 2);
    assert_eq!(f.total_errors(), 2);
}

#[test]
fn test_verdict_zero_only_when_clean() {
    let mut f = Findings::new();
    assert_eq!(f.verdict(), 0);
    f.record(HAS_TABS);
    assert_eq!(f.verdict(), 1);
}

#[test]
fn test_sink_step_decisions() {
    assert_eq!(sink_step(Some(Some("x".to_string()))), (false, Some("x".to_string())));
    assert_eq!(sink_step(Some(None)), (true, None));
    assert_eq!(sink_step(None), (false, None));
}

// A whole scan in miniature: one candidate file with a trailing-space line
// and no other violation, checked with cleaning on; a second pass over the
// cleaned content finds nothing.
#[test]
fn test_scan_clean_rescan() {
    let buf = b"int main() { \n    return 0;\n}\n";
    let mut findings = Findings::new();
    let outcome = check_path(
        buf,
        true,
        InfoLevel::Quiet,
        None,
        TabStrategy::Untabify,
        LineEnding::LF,
    );
    findings.record(outcome.flags);
    assert_eq!(findings.checked_files, 1);
    assert_eq!(findings.had_trailing_ws, 1);
    assert_eq!(findings.total_errors(), 1);
    assert_eq!(findings.verdict(), 1);

    let cleaned = outcome.rewrite.unwrap();
    assert_eq!(cleaned, "int main() {\n    return 0;\n}\n");

    let mut second = Findings::new();
    let again = check_path(
        cleaned.as_bytes(),
        true,
        InfoLevel::Quiet,
        None,
        TabStrategy::Untabify,
        LineEnding::LF,
    );
    second.record(again.flags);
    assert_eq!(again.flags, 0);
    assert_eq!(again.rewrite.unwrap(), cleaned);
    assert_eq!(second.checked_files, 1);
    assert_eq!(second.total_errors(), 0);
    assert_eq!(second.verdict(), 0);
}
