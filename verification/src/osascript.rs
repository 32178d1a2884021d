//! Scripts for automation (JXA) and what their runs come to.

use vstd::prelude::*;

use crate::text;
use crate::text::{decimal_of, lossy_text, trim};

verus! {

/// How often a script is tried.
pub const RETRY_ATTEMPTS: u32 = 3;

/// Lists the browser's windows, tabs and bounds as JSON.
pub const CHROME_LIST_SCRIPT: &'static str = r#"
const app = Application("Google Chrome");
JSON.stringify(app.windows().map(w => ({
    bounds: w.bounds(),
    activeTabIndex: w.activeTabIndex(),
    tabs: w.tabs().map(t => ({url: t.url() || "", title: t.title() || ""}))
})));
"#;

/// Lists the terminal's windows, ttys and bounds as JSON.
pub const TERMINAL_LIST_SCRIPT: &'static str = r#"
const app = Application("Terminal");
JSON.stringify(app.windows().map(w => ({
    bounds: w.bounds(),
    tabs: w.tabs().map(t => ({tty: t.tty() || "", selected: t.selected()}))
})));
"#;

/// Binds the data of a script.
pub const DATA_BINDING: &'static str = "\nconst data = ";

/// Opens a browser window on the bound data.
pub const CHROME_OPEN_SCRIPT: &'static str = r#";
const chrome = Application("Google Chrome");
chrome.includeStandardAdditions = true;
const win = chrome.Window().make();
win.tabs[0].url = data.urls[0];
for (let i = 1; i < data.urls.length; i++) {
    win.tabs.push(chrome.Tab({url: data.urls[i]}));
}
win.activeTabIndex = Math.min(data.active, data.urls.length);
if (data.bounds.width > 0) { win.bounds = data.bounds; }
chrome.activate();
JSON.stringify("ok");
"#;

/// Opens a terminal window on the bound data.
pub const TERMINAL_OPEN_SCRIPT: &'static str = r#";
const term = Application("Terminal");
const quoted = "'" + data.cwd.replace(/'/g, `'\\''`) + "'";
const tab = term.doScript("cd " + quoted);
if (data.bounds.width > 0) {
    term.windows[0].bounds = data.bounds;
}
term.activate();
JSON.stringify("ok");
"#;

/// The script that opens a browser window. Addresses come in as JSON data, so
/// that they never touch script-string escaping.
pub fn chrome_open_script(data: &str) -> (r: String)
    ensures
        r@ == DATA_BINDING@ + data@ + CHROME_OPEN_SCRIPT@,
{
    DATA_BINDING.to_owned().concat(data).concat(CHROME_OPEN_SCRIPT)
}

/// The script that opens a terminal window in a directory, which comes in as
/// JSON data.
pub fn terminal_open_script(data: &str) -> (r: String)
    ensures
        r@ == DATA_BINDING@ + data@ + TERMINAL_OPEN_SCRIPT@,
{
    DATA_BINDING.to_owned().concat(data).concat(TERMINAL_OPEN_SCRIPT)
}

/// Why a script did not yield a value.
#[derive(Debug, PartialEq)]
pub enum OsaError {
    /// It could not be run, or did not end in time.
    Spawn { reason: String },
    /// It ended with an error.
    Failed { status: i32, stderr: String },
    /// It ended well, but its output is not the JSON expected.
    BadJson { reason: String },
}

/// What an `OsaError` says: its texts as character sequences, its lists as sequences.
#[verifier::ext_equal]
pub enum OsaErrorView {
    Spawn { reason: Seq<char> },
    Failed { status: i32, stderr: Seq<char> },
    BadJson { reason: Seq<char> },
}

impl DeepView for OsaError {
    type V = OsaErrorView;

    open spec fn deep_view(&self) -> OsaErrorView {
        match self {
            OsaError::Spawn { reason } => OsaErrorView::Spawn {
                reason: reason.deep_view(),
            },
            OsaError::Failed { status, stderr } => OsaErrorView::Failed {
                status: *status,
                stderr: stderr.deep_view(),
            },
            OsaError::BadJson { reason } => OsaErrorView::BadJson {
                reason: reason.deep_view(),
            },
        }
    }
}

impl Clone for OsaError {
    fn clone(&self) -> (r: Self)
        ensures
            r.deep_view() == self.deep_view(),
    {
        match self {
            OsaError::Spawn { reason } => OsaError::Spawn {
                reason: reason.clone(),
            },
            OsaError::Failed { status, stderr } => OsaError::Failed {
                status: *status,
                stderr: stderr.clone(),
            },
            OsaError::BadJson { reason } => OsaError::BadJson {
                reason: reason.clone(),
            },
        }
    }
}

/// A number with its sign, in decimal.
pub open spec fn signed(n: i32) -> Seq<char> {
    if n < 0 {
        "-"@ + text::decimal(-n as nat)
    } else {
        text::decimal(n as nat)
    }
}

/// What an error says.
pub open spec fn osa_message(e: OsaErrorView) -> Seq<char> {
    match e {
        OsaErrorView::Spawn { reason } => "osascript failed to spawn: "@ + reason,
        OsaErrorView::Failed { status, stderr } => "osascript exited with "@ + signed(status)
            + ": "@ + stderr,
        OsaErrorView::BadJson { reason } => "osascript output was not valid JSON: "@ + reason,
    }
}

fn signed_text(n: i32) -> (r: String)
    ensures
        r@ == signed(n),
{
    if n < 0 {
        "-".to_owned().concat(decimal_of((-(n as i64)) as u128).as_str())
    } else {
        decimal_of(n as u128)
    }
}

impl OsaError {
    /// Whether retrying might help: a transient spawn or exit failure can
    /// succeed on a later attempt, but bad output from a successful run won't
    /// change.
    pub fn is_retryable(&self) -> (r: bool)
        ensures
            r == !(self.deep_view() is BadJson),
    {
        match self {
            OsaError::BadJson { reason: _ } => false,
            _ => true,
        }
    }

    /// The message for a warning or a client.
    pub fn message(&self) -> (r: String)
        ensures
            r@ == osa_message(self.deep_view()),
    {
        match self {
            OsaError::Spawn { reason } => "osascript failed to spawn: ".to_owned().concat(
                reason.as_str(),
            ),
            OsaError::Failed { status, stderr } => "osascript exited with ".to_owned().concat(
                signed_text(*status).as_str(),
            ).concat(": ").concat(stderr.as_str()),
            OsaError::BadJson { reason } =>
                "osascript output was not valid JSON: ".to_owned().concat(reason.as_str()),
        }
    }
}

/// What a run comes to: the trimmed output, which should be JSON, or an error
/// with the exit code (-1 when there is none) and the trimmed error output.
pub fn script_output(success: bool, code: Option<i32>, stdout: &Vec<u8>, stderr: &Vec<u8>) -> (r:
    Result<String, OsaError>)
    ensures
        match r {
            Ok(json) => success && json@ == text::trimmed(text::lossy(stdout@)),
            Err(e) => !success && e.deep_view() == (OsaErrorView::Failed {
                status: match code {
                    Some(c) => c,
                    None => (-1) as i32,
                },
                stderr: text::trimmed(text::lossy(stderr@)),
            }),
        },
{
    if success {
        Ok(trim(lossy_text(stdout).as_str()))
    } else {
        let status: i32 = match code {
            Some(c) => c,
            None => -1,
        };
        Err(OsaError::Failed { status, stderr: trim(lossy_text(stderr).as_str()) })
    }
}

/// Whether a script that failed is run again; `attempt` counts from 0.
pub open spec fn retries(e: OsaErrorView, attempt: u32) -> bool {
    !(e is BadJson) && attempt + 1 < RETRY_ATTEMPTS
}

/// Decides whether a script that failed is run again.
pub fn should_retry(e: &OsaError, attempt: u32) -> (r: bool)
    ensures
        r == retries(e.deep_view(), attempt),
{
    e.is_retryable() && attempt < RETRY_ATTEMPTS - 1
}

/// What one look at something that is waited for comes to.
#[derive(Debug, Clone, Copy, PartialEq, Eq, Structural)]
pub enum Poll {
    /// It has come.
    Ready,
    /// It has not, and the deadline has passed.
    TimedOut,
    /// It has not yet: look again later.
    Wait,
}

/// Decides how a wait goes on. What has come counts even behind the deadline.
pub fn poll(ready: bool, expired: bool) -> (r: Poll)
    ensures
        ready ==> r == Poll::Ready,
        !ready && expired ==> r == Poll::TimedOut,
        !ready && !expired ==> r == Poll::Wait,
{
    if ready {
        Poll::Ready
    } else if expired {
        Poll::TimedOut
    } else {
        Poll::Wait
    }
}

/// Retrying ends: the last attempt is never followed by another, and output
/// that does not decode is never asked for again.
pub proof fn retrying_is_bounded(e: OsaErrorView, attempt: u32)
    ensures
        attempt >= RETRY_ATTEMPTS - 1 ==> !retries(e, attempt),
        e is BadJson ==> !retries(e, attempt),
{
}

/// A script is tried three times at most, and again only where it may help: never
/// where it ran and its output was wrong.
pub proof fn scripts_are_tried_three_times(e: OsaErrorView, attempt: u32)
    ensures
        retries(e, attempt) <==> (e is Spawn || e is Failed) && attempt < 2,
{
}

/// A failure is told by its kind and reason; a script that ended badly with its
/// signed exit status.
pub proof fn script_failures_are_told(reason: Seq<char>, status: i32)
    ensures
        osa_message(OsaErrorView::Spawn { reason }) == "osascript failed to spawn: "@ + reason,
        osa_message(OsaErrorView::BadJson { reason }) == "osascript output was not valid JSON: "@
            + reason,
        status >= 0 ==> osa_message(OsaErrorView::Failed { status, stderr: reason })
            == "osascript exited with "@ + text::decimal(status as nat) + ": "@ + reason,
        status < 0 ==> osa_message(OsaErrorView::Failed { status, stderr: reason })
            == "osascript exited with "@ + ("-"@ + text::decimal((0 - status) as nat)) + ": "@
            + reason,
{
}

/// What a script printed is its result where it ended well, trimmed; else what it
/// complained of is its failure, with its status or -1 where it has none.
pub proof fn scripts_answer_by_their_output(
    success: bool,
    code: Option<i32>,
    stdout: &Vec<u8>,
    stderr: &Vec<u8>,
    r: Result<String, OsaError>,
)
    requires
        call_ensures(script_output, (success, code, stdout, stderr), r),
    ensures
        r is Ok <==> success,
        r matches Ok(json) ==> json@ == text::trimmed(text::lossy(stdout@)),
        r matches Err(e) ==> (e.deep_view() matches OsaErrorView::Failed { status, stderr: said }
            && said == text::trimmed(text::lossy(stderr@)) && status == if code is Some {
            code->0 as int
        } else {
            -1int
        }),
{
}

} // verus!
