//! Scripts and what their runs come to.

use temporal::osascript::{
    chrome_open_script, poll, script_output, should_retry, terminal_open_script, OsaError, Poll,
    CHROME_LIST_SCRIPT, TERMINAL_LIST_SCRIPT,
};

#[test]
fn successful_runs_yield_trimmed_output() {
    assert_eq!(script_output(true, Some(0), &b" [1]\n".to_vec(), &vec![]), Ok("[1]".into()));
}

#[test]
fn failed_runs_yield_their_error_output() {
    let err = script_output(false, Some(1), &vec![], &b"no app\n".to_vec()).unwrap_err();
    assert_eq!(err, OsaError::Failed { status: 1, stderr: "no app".into() });
    assert_eq!(err.message(), "osascript exited with 1: no app");
    let killed = script_output(false, None, &vec![], &vec![]).unwrap_err();
    assert_eq!(killed.message(), "osascript exited with -1: ");
    assert_eq!(
        OsaError::Spawn { reason: "gone".into() }.message(),
        "osascript failed to spawn: gone"
    );
    assert_eq!(
        OsaError::BadJson { reason: "eof".into() }.message(),
        "osascript output was not valid JSON: eof"
    );
}

#[test]
fn transient_failures_are_tried_three_times() {
    let transient = OsaError::Failed { status: 1, stderr: String::new() };
    assert!(should_retry(&transient, 0));
    assert!(should_retry(&transient, 1));
    assert!(!should_retry(&transient, 2));
    assert!(should_retry(&OsaError::Spawn { reason: String::new() }, 0));
    let bad = OsaError::BadJson { reason: String::new() };
    assert!(!bad.is_retryable());
    assert!(!should_retry(&bad, 0));
}

#[test]
fn scripts_bind_their_data() {
    let chrome = chrome_open_script("{\"urls\":[]}");
    assert!(chrome.starts_with("\nconst data = {\"urls\":[]};\nconst chrome = Application(\"Google Chrome\");"));
    assert!(chrome.ends_with("JSON.stringify(\"ok\");\n"));
    let terminal = terminal_open_script("{}");
    assert!(terminal.contains("data.cwd.replace(/'/g, `'\\\\''`)"));
    assert!(CHROME_LIST_SCRIPT.contains("activeTabIndex: w.activeTabIndex()"));
    assert!(TERMINAL_LIST_SCRIPT.contains("tty: t.tty()"));
}

#[test]
fn waiting_ends_with_the_result_or_the_deadline() {
    assert_eq!(poll(true, false), Poll::Ready);
    assert_eq!(poll(true, true), Poll::Ready);
    assert_eq!(poll(false, true), Poll::TimedOut);
    assert_eq!(poll(false, false), Poll::Wait);
}
