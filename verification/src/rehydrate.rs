//! Rehydration: what recreating captured nodes on the live desktop takes, and
//! what is refused.
//!
//! A payload arrives over the socket and is not held against storage, so what
//! reaches a browser or a launcher is filtered here: addresses by an allowlist
//! of schemes, bundle ids by their shape, paths behind an end-of-options mark.

use vstd::prelude::*;

use crate::doubles;
use crate::order;
use crate::text;
use crate::text::{
    chars_of, decimal_of, digit_char, find_char, letter, lossy_text, quote, str_eq, trim,
};
use crate::types::{
    BrowserTab, BrowserTabView, NodePayload, NodePayloadView, PreflightNode,
    PreflightNodeView, TerminalTab, TerminalTabView, WindowGeometry, WindowNode, WindowNodeView,
};

verus! {

/// Whether a character may stand in a URI scheme.
pub open spec fn is_scheme_char(c: char) -> bool {
    text::is_letter(c) || text::is_digit(c) || c == '+' || c == '-' || c == '.'
}

/// ALPHA *( ALPHA / DIGIT / "+" / "-" / "." )
pub open spec fn is_scheme(s: Seq<char>) -> bool {
    &&& s.len() > 0
    &&& text::is_letter(s[0])
    &&& forall|i: int| 0 <= i < s.len() ==> is_scheme_char(#[trigger] s[i])
}

/// The lowercase form of an ASCII letter; any other character as it is.
pub open spec fn ascii_lower(c: char) -> char {
    if 'A' <= c <= 'Z' {
        (c as int + 32) as char
    } else {
        c
    }
}

/// The scheme a URL starts with, in lower case: what stands before its first
/// ':', when that is a scheme.
pub open spec fn scheme_of(url: Seq<char>) -> Option<Seq<char>> {
    let at = text::find_from(url, ':', 0);
    if at < url.len() && is_scheme(url.take(at)) {
        Some(url.take(at).map_values(|c: char| ascii_lower(c)))
    } else {
        None
    }
}

/// URL schemes a browser is allowed to reopen.
pub open spec fn allowed_schemes() -> Seq<Seq<char>> {
    seq!["http"@, "https"@, "chrome"@, "chrome-extension"@, "about"@]
}

/// Whether a URL has an allowlisted scheme.
pub open spec fn is_allowed(url: Seq<char>) -> bool {
    scheme_of(url) matches Some(s) && allowed_schemes().contains(s)
}

fn scheme_char(c: char) -> (r: bool)
    ensures
        r == is_scheme_char(c),
{
    letter(c) || digit_char(c) || c == '+' || c == '-' || c == '.'
}

fn lower_char(c: char) -> (r: char)
    ensures
        r == ascii_lower(c),
{
    if 'A' <= c && c <= 'Z' {
        (c as u8 + 32u8) as char
    } else {
        c
    }
}

/// Extracts the lowercased URI scheme, or `None` if the text doesn't start with
/// a valid scheme. Deliberately does not trim leading whitespace: a leading
/// space means no scheme, so `" javascript:"` is rejected, not normalized.
pub fn uri_scheme(url: &str) -> (r: Option<String>)
    ensures
        r.deep_view() == scheme_of(url@),
{
    let v = chars_of(url);
    let at: usize = find_char(&v, ':', 0);
    if at >= v.len() {
        return None;
    }
    let ghost s = url@.take(at as int);
    if at == 0 || !letter(v[0]) {
        assert(at > 0 ==> s[0] == v@[0]);
        return None;
    }
    let mut out = String::new();
    let mut i: usize = 0;
    assert(out@ =~= s.take(0).map_values(|c: char| ascii_lower(c)));
    while i < at
        invariant
            i <= at < v@.len(),
            v@ == url@,
            at == text::find_from(url@, ':', 0),
            s == url@.take(at as int),
            forall|j: int| 0 <= j < i ==> is_scheme_char(#[trigger] s[j]),
            out@ == s.take(i as int).map_values(|c: char| ascii_lower(c)),
        decreases at - i,
    {
        let c = v[i];
        assert(s[i as int] == c);
        if !scheme_char(c) {
            assert(!is_scheme(s));
            return None;
        }
        out.push(lower_char(c));
        proof {
            text::lemma_take_step(s, i as int);
            assert(out@ =~= s.take(i + 1).map_values(|c: char| ascii_lower(c)));
        }
        i = i + 1;
    }
    assert(s.take(at as int) =~= s);
    assert(s[0] == v@[0]);
    Some(out)
}

/// True if `url` has an allowlisted scheme safe for a browser to reopen.
pub fn is_allowed_url(url: &str) -> (r: bool)
    ensures
        r == is_allowed(url@),
{
    match uri_scheme(url) {
        None => false,
        Some(s) => {
            let t = s.as_str();
            let hit = str_eq(t, "http") || str_eq(t, "https") || str_eq(t, "chrome") || str_eq(
                t,
                "chrome-extension",
            ) || str_eq(t, "about");
            proof {
                let a = allowed_schemes();
                assert(a[0] == "http"@ && a[1] == "https"@ && a[2] == "chrome"@ && a[3]
                    == "chrome-extension"@ && a[4] == "about"@);
            }
            hit
        },
    }
}

/// What a URL that may be reopened looks like: an allowlisted scheme in any
/// letter case, a ':', then the rest. Nothing may stand before the scheme.
pub proof fn allowed_url_starts_with_its_scheme(url: Seq<char>)
    requires
        is_allowed(url),
    ensures
        exists|n: int|
            0 < n < url.len() && #[trigger] url[n] == ':' && text::is_letter(url[0])
                && allowed_schemes().contains(
                url.take(n).map_values(|c: char| ascii_lower(c)),
            ),
{
    let n = text::find_from(url, ':', 0);
    text::lemma_find_from(url, ':', 0);
    assert(url.take(n)[0] == url[0]);
    assert(url[n] == ':');
}

/// Addresses that read local files, run scripts or carry inline documents are
/// never reopened, whatever the letter case of their scheme.
pub proof fn local_script_and_inline_urls_are_refused(url: Seq<char>)
    ensures
        scheme_of(url) == Some("file"@) ==> !is_allowed(url),
        scheme_of(url) == Some("javascript"@) ==> !is_allowed(url),
        scheme_of(url) == Some("data"@) ==> !is_allowed(url),
{
    reveal_strlit("file");
    reveal_strlit("javascript");
    reveal_strlit("data");
    reveal_strlit("http");
    reveal_strlit("https");
    reveal_strlit("chrome");
    reveal_strlit("chrome-extension");
    reveal_strlit("about");
    let a = allowed_schemes();
    assert(a[0][0] == 'h' && a[1][0] == 'h' && a[2][0] == 'c' && a[3][0] == 'c' && a[4][0] == 'a');
    assert("file"@[0] == 'f' && "javascript"@[0] == 'j' && "data"@[0] == 'd');
    assert forall|i: int| 0 <= i < a.len() implies a[i] != "file"@ && a[i] != "javascript"@ && a[i]
        != "data"@ by {
        assert(i == 0 || i == 1 || i == 2 || i == 3 || i == 4);
    }
}

/// Whether a character may stand in a bundle identifier.
pub open spec fn is_bundle_char(c: char) -> bool {
    text::is_letter(c) || text::is_digit(c) || c == '.' || c == '-'
}

/// The shape of a bundle identifier: letters, digits, dots and hyphens, with
/// at least one dot, and no hyphen in front.
pub open spec fn is_bundle_shaped(s: Seq<char>) -> bool {
    &&& s.len() > 0
    &&& s[0] != '-'
    &&& s.contains('.')
    &&& forall|i: int| 0 <= i < s.len() ==> is_bundle_char(#[trigger] s[i])
}

/// True if `s` has the shape of a bundle identifier (reverse-DNS). Rejects
/// strings shaped like flags and quote characters that would break the
/// argument they are put in, without hardcoding an app allowlist.
pub fn looks_like_bundle_id(s: &str) -> (r: bool)
    ensures
        r == is_bundle_shaped(s@),
{
    let v = chars_of(s);
    if v.len() == 0 || v[0] == '-' {
        return false;
    }
    let mut dotted = false;
    let mut i: usize = 0;
    while i < v.len()
        invariant
            i <= v@.len(),
            v@ == s@,
            dotted == exists|j: int| 0 <= j < i && v@[j] == '.',
            forall|j: int| 0 <= j < i ==> is_bundle_char(#[trigger] v@[j]),
        decreases v@.len() - i,
    {
        let c = v[i];
        if !(letter(c) || digit_char(c) || c == '.' || c == '-') {
            assert(!is_bundle_char(v@[i as int]));
            return false;
        }
        if c == '.' {
            dotted = true;
        }
        i = i + 1;
    }
    dotted
}

/// A bundle identifier cannot be read as a flag, and cannot close the quotes
/// it is put between.
pub proof fn bundle_shape_is_inert(s: Seq<char>)
    requires
        is_bundle_shaped(s),
    ensures
        s[0] != '-',
        !s.contains('\''),
        !s.contains('"'),
        !s.contains(' '),
{
    if s.contains('\'') {
        let i = choose|i: int| 0 <= i < s.len() && s[i] == '\'';
        assert(is_bundle_char(s[i]));
    }
    if s.contains('"') {
        let i = choose|i: int| 0 <= i < s.len() && s[i] == '"';
        assert(is_bundle_char(s[i]));
    }
    if s.contains(' ') {
        let i = choose|i: int| 0 <= i < s.len() && s[i] == ' ';
        assert(is_bundle_char(s[i]));
    }
}

/// What restoring one node takes.
#[derive(Debug, PartialEq)]
pub enum NodePlan {
    /// There is nothing to open.
    Nothing,
    /// Open one browser window on these addresses and select the `active`-th of
    /// them, counted from 1; below 1 where the captured index was negative.
    Chrome { urls: Vec<String>, active: i64 },
    /// Open one terminal window in each of these directories.
    Terminal { cwds: Vec<String> },
    /// Open a folder in an editor, then its files.
    Editor { app_name: String, folder_path: String, open_files: Vec<String> },
    /// Launch an app by its bundle id.
    Generic { bundle_id: String },
}

/// What a `NodePlan` says: its texts as character sequences, its lists as sequences.
#[verifier::ext_equal]
pub enum NodePlanView {
    Nothing,
    Chrome { urls: Seq<Seq<char>>, active: i64 },
    Terminal { cwds: Seq<Seq<char>> },
    Editor { app_name: Seq<char>, folder_path: Seq<char>, open_files: Seq<Seq<char>> },
    Generic { bundle_id: Seq<char> },
}

impl DeepView for NodePlan {
    type V = NodePlanView;

    open spec fn deep_view(&self) -> NodePlanView {
        match self {
            NodePlan::Nothing => NodePlanView::Nothing,
            NodePlan::Chrome { urls, active } => NodePlanView::Chrome {
                urls: urls.deep_view(),
                active: *active,
            },
            NodePlan::Terminal { cwds } => NodePlanView::Terminal {
                cwds: cwds.deep_view(),
            },
            NodePlan::Editor { app_name, folder_path, open_files } => NodePlanView::Editor {
                app_name: app_name.deep_view(),
                folder_path: folder_path.deep_view(),
                open_files: open_files.deep_view(),
            },
            NodePlan::Generic { bundle_id } => NodePlanView::Generic {
                bundle_id: bundle_id.deep_view(),
            },
        }
    }
}

impl Clone for NodePlan {
    fn clone(&self) -> (r: Self)
        ensures
            r.deep_view() == self.deep_view(),
    {
        match self {
            NodePlan::Nothing => NodePlan::Nothing,
            NodePlan::Chrome { urls, active } => NodePlan::Chrome {
                urls: urls.clone(),
                active: *active,
            },
            NodePlan::Terminal { cwds } => NodePlan::Terminal {
                cwds: cwds.clone(),
            },
            NodePlan::Editor { app_name, folder_path, open_files } => NodePlan::Editor {
                app_name: app_name.clone(),
                folder_path: folder_path.clone(),
                open_files: open_files.clone(),
            },
            NodePlan::Generic { bundle_id } => NodePlan::Generic {
                bundle_id: bundle_id.clone(),
            },
        }
    }
}

/// The addresses of the tabs that may be reopened, in order.
pub open spec fn reopened(tabs: Seq<BrowserTabView>) -> Seq<Seq<char>> {
    text::gathered(
        tabs,
        |t: BrowserTabView|
            if is_allowed(t.url) {
                seq![t.url]
            } else {
                Seq::empty()
            },
    )
}

/// Which of the reopened tabs is selected, counted from 1: the active one. Where
/// that one is not reopened, the tab at the place it had, or the last one when
/// there are fewer.
pub open spec fn active_place(tabs: Seq<BrowserTabView>, active: i32) -> int {
    if 0 <= active < tabs.len() && is_allowed(tabs[active as int].url) {
        reopened(tabs.take(active as int)).len() as int + 1
    } else if active + 1 <= reopened(tabs).len() {
        active + 1
    } else {
        reopened(tabs).len() as int
    }
}

/// The working directories of the tabs that have one, in order.
pub open spec fn directories(tabs: Seq<TerminalTabView>) -> Seq<Seq<char>> {
    text::gathered(
        tabs,
        |t: TerminalTabView|
            if t.cwd.len() > 0 {
                seq![t.cwd]
            } else {
                Seq::empty()
            },
    )
}

/// What restoring a node takes, or why it is refused.
pub open spec fn plan_of(node: WindowNodeView) -> Result<NodePlanView, Seq<char>> {
    match node.payload {
        NodePayloadView::Browser { tabs, active_tab_index } => if tabs.len() == 0 {
            Ok(NodePlanView::Nothing)
        } else if reopened(tabs).len() == 0 {
            Err("all "@ + text::decimal(tabs.len()) + " tab(s) had a disallowed URL scheme"@)
        } else {
            Ok(
                NodePlanView::Chrome {
                    urls: reopened(tabs),
                    active: active_place(tabs, active_tab_index) as i64,
                },
            )
        },
        NodePayloadView::Terminal { tabs } => Ok(
            NodePlanView::Terminal { cwds: directories(tabs) },
        ),
        NodePayloadView::Editor { folder_path, open_files } => Ok(
            NodePlanView::Editor { app_name: node.app_name, folder_path, open_files },
        ),
        NodePayloadView::Generic => if is_bundle_shaped(node.bundle_id) {
            Ok(NodePlanView::Generic { bundle_id: node.bundle_id })
        } else {
            Err(text::quoted(node.bundle_id) + " is not a valid bundle id"@)
        },
    }
}

fn reopened_urls(tabs: &Vec<BrowserTab>) -> (r: Vec<String>)
    ensures
        r.deep_view() == reopened(tabs.deep_view()),
{
    let ghost all = tabs.deep_view();
    let ghost f = |t: BrowserTabView|
        if is_allowed(t.url) {
            seq![t.url]
        } else {
            Seq::empty()
        };
    let mut out: Vec<String> = Vec::new();
    let mut i: usize = 0;
    assert(out.deep_view() =~= text::gathered(all.take(0), f));
    while i < tabs.len()
        invariant
            i <= tabs.len(),
            all == tabs.deep_view(),
            f == (|t: BrowserTabView|
                if is_allowed(t.url) {
                    seq![t.url]
                } else {
                    Seq::empty()
                }),
            out.deep_view() == text::gathered(all.take(i as int), f),
        decreases tabs.len() - i,
    {
        let ghost before = out.deep_view();
        if is_allowed_url(tabs[i].url.as_str()) {
            out.push(tabs[i].url.clone());
        }
        proof {
            text::lemma_take_step(all, i as int);
            assert(out.deep_view() =~= before + f(all[i as int]));
        }
        i = i + 1;
    }
    assert(all.take(all.len() as int) =~= all);
    out
}

fn place_of_active(tabs: &Vec<BrowserTab>, active: i32, kept: usize) -> (r: i64)
    requires
        kept == reopened(tabs.deep_view()).len(),
    ensures
        r == active_place(tabs.deep_view(), active),
{
    let ghost all = tabs.deep_view();
    let ghost f = |t: BrowserTabView|
        if is_allowed(t.url) {
            seq![t.url]
        } else {
            Seq::empty()
        };
    if active < 0 || active as usize >= tabs.len() || !is_allowed_url(
        tabs[active as usize].url.as_str(),
    ) {
        let next: i64 = active as i64 + 1;
        return if next <= 0 || next as u64 <= kept as u64 {
            next
        } else {
            kept as i64
        };
    }
    let at: usize = active as usize;
    let mut place: i64 = 1;
    let mut i: usize = 0;
    assert(reopened(all.take(0)).len() == 0);
    while i < at
        invariant
            i <= at < tabs.len(),
            at <= i32::MAX,
            all == tabs.deep_view(),
            f == (|t: BrowserTabView|
                if is_allowed(t.url) {
                    seq![t.url]
                } else {
                    Seq::empty()
                }),
            place == reopened(all.take(i as int)).len() + 1,
            place <= i + 1,
        decreases at - i,
    {
        proof {
            text::lemma_take_step(all, i as int);
            assert(reopened(all.take(i + 1)) == reopened(all.take(i as int)) + f(all[i as int]));
        }
        if is_allowed_url(tabs[i].url.as_str()) {
            place = place + 1;
        }
        i = i + 1;
    }
    place
}

fn open_directories(tabs: &Vec<TerminalTab>) -> (r: Vec<String>)
    ensures
        r.deep_view() == directories(tabs.deep_view()),
{
    let ghost all = tabs.deep_view();
    let ghost f = |t: TerminalTabView|
        if t.cwd.len() > 0 {
            seq![t.cwd]
        } else {
            Seq::empty()
        };
    let mut out: Vec<String> = Vec::new();
    let mut i: usize = 0;
    assert(out.deep_view() =~= text::gathered(all.take(0), f));
    while i < tabs.len()
        invariant
            i <= tabs.len(),
            all == tabs.deep_view(),
            f == (|t: TerminalTabView|
                if t.cwd.len() > 0 {
                    seq![t.cwd]
                } else {
                    Seq::empty()
                }),
            out.deep_view() == text::gathered(all.take(i as int), f),
        decreases tabs.len() - i,
    {
        let ghost before = out.deep_view();
        if !tabs[i].cwd.as_str().is_empty() {
            out.push(tabs[i].cwd.clone());
        }
        proof {
            text::lemma_take_step(all, i as int);
            assert(out.deep_view() =~= before + f(all[i as int]));
        }
        i = i + 1;
    }
    assert(all.take(all.len() as int) =~= all);
    out
}

/// Works out what restoring a node takes. Tabs whose scheme isn't allowlisted
/// are dropped and the rest kept; a window left without tabs is refused, and so
/// is a bundle id of the wrong shape. The active tab stays the one selected as
/// long as it is kept.
pub fn rehydrate_node(node: &WindowNode) -> (r: Result<NodePlan, String>)
    ensures
        match r {
            Ok(plan) => plan_of(node.deep_view()) == Ok::<NodePlanView, Seq<char>>(
                plan.deep_view(),
            ),
            Err(m) => plan_of(node.deep_view()) == Err::<NodePlanView, Seq<char>>(m@),
        },
{
    match &node.payload {
        NodePayload::Browser { tabs, active_tab_index } => {
            if tabs.len() == 0 {
                return Ok(NodePlan::Nothing);
            }
            let urls = reopened_urls(tabs);
            if urls.len() == 0 {
                return Err(
                    "all ".to_owned().concat(decimal_of(tabs.len() as u128).as_str()).concat(
                        " tab(s) had a disallowed URL scheme",
                    ),
                );
            }
            let active: i64 = place_of_active(tabs, *active_tab_index, urls.len());
            Ok(NodePlan::Chrome { urls, active })
        },
        NodePayload::Terminal { tabs } => Ok(NodePlan::Terminal { cwds: open_directories(tabs) }),
        NodePayload::Editor { folder_path, open_files } => Ok(
            NodePlan::Editor {
                app_name: node.app_name.clone(),
                folder_path: folder_path.clone(),
                open_files: open_files.clone(),
            },
        ),
        NodePayload::Generic => {
            if looks_like_bundle_id(node.bundle_id.as_str()) {
                Ok(NodePlan::Generic { bundle_id: node.bundle_id.clone() })
            } else {
                Err(quote(node.bundle_id.as_str()).concat(" is not a valid bundle id"))
            }
        },
    }
}

/// Whatever a plan lets through has been vetted: every address it opens has an
/// allowlisted scheme, and every bundle id it launches has the right shape.
pub proof fn plans_are_vetted(node: WindowNodeView)
    ensures
        plan_of(node) matches Ok(NodePlanView::Chrome { urls, active }) ==> urls.len() > 0 && (
        forall|i: int| 0 <= i < urls.len() ==> is_allowed(#[trigger] urls[i])),
        plan_of(node) matches Ok(NodePlanView::Generic { bundle_id }) ==> is_bundle_shaped(
            bundle_id,
        ),
{
    if let NodePayloadView::Browser { tabs, active_tab_index } = node.payload {
        let f = |t: BrowserTabView|
            if is_allowed(t.url) {
                seq![t.url]
            } else {
                Seq::empty()
            };
        let urls = reopened(tabs);
        assert forall|i: int| 0 <= i < urls.len() implies is_allowed(#[trigger] urls[i]) by {
            let from = text::lemma_gathered_from(tabs, f, i);
        }
    }
}

proof fn lemma_reopened_split(tabs: Seq<BrowserTabView>, k: int)
    requires
        0 <= k < tabs.len(),
    ensures
        reopened(tabs) == reopened(tabs.take(k)) + (if is_allowed(tabs[k].url) {
            seq![tabs[k].url]
        } else {
            Seq::empty()
        }) + reopened(tabs.skip(k + 1)),
{
    let f = |t: BrowserTabView|
        if is_allowed(t.url) {
            seq![t.url]
        } else {
            Seq::empty()
        };
    text::lemma_take_step(tabs, k);
    text::lemma_gathered_add(tabs.take(k + 1), tabs.skip(k + 1), f);
    assert(tabs =~= tabs.take(k + 1) + tabs.skip(k + 1));
}

/// The tab selected is one of those opened, unless the captured index was
/// negative. It is the one that was active, as long as that one is kept, however
/// many before it are dropped.
pub proof fn active_tab_stays_selected(node: WindowNodeView)
    ensures
        plan_of(node) matches Ok(NodePlanView::Chrome { urls, active }) ==> (
        node.payload matches NodePayloadView::Browser { tabs, active_tab_index } && ({
            &&& active <= urls.len()
            &&& 0 <= active_tab_index ==> 1 <= active
            &&& 0 <= active_tab_index < tabs.len() && is_allowed(tabs[active_tab_index as int].url)
                ==> urls[active - 1] == tabs[active_tab_index as int].url && urls.take(active - 1)
                == reopened(tabs.take(active_tab_index as int))
        })),
{
    if let NodePayloadView::Browser { tabs, active_tab_index } = node.payload {
        let f = |t: BrowserTabView|
            if is_allowed(t.url) {
                seq![t.url]
            } else {
                Seq::empty()
            };
        let urls = reopened(tabs);
        if 0 <= active_tab_index < tabs.len() && is_allowed(tabs[active_tab_index as int].url) {
            let k = active_tab_index as int;
            lemma_reopened_split(tabs, k);
            let head = reopened(tabs.take(k));
            lemma_gathered_at_most_one(tabs.take(k), f);
            assert(urls[head.len() as int] == tabs[k].url);
            assert(urls.take(head.len() as int) =~= head);
        }
    }
}

/// Arguments that open a folder in an editor. The end-of-options mark keeps a
/// path that begins with '-' from being read as a flag.
pub fn editor_open_args(app_name: &str, folder_path: &str) -> (r: Vec<String>)
    ensures
        r.deep_view() == seq!["-a"@, app_name@, "--"@, folder_path@],
{
    let mut args: Vec<String> = Vec::new();
    args.push("-a".to_owned());
    args.push(app_name.to_owned());
    args.push("--".to_owned());
    args.push(folder_path.to_owned());
    assert(args.deep_view() =~= seq!["-a"@, app_name@, "--"@, folder_path@]);
    args
}

/// Arguments that reopen files in an editor's window without stealing focus
/// for each, behind the same end-of-options mark.
pub fn editor_file_args(app_name: &str, open_files: &Vec<String>) -> (r: Vec<String>)
    ensures
        r.deep_view() == seq!["-a"@, app_name@, "-g"@, "--"@] + open_files.deep_view(),
{
    let mut args: Vec<String> = Vec::new();
    args.push("-a".to_owned());
    args.push(app_name.to_owned());
    args.push("-g".to_owned());
    args.push("--".to_owned());
    assert(args.deep_view() =~= seq!["-a"@, app_name@, "-g"@, "--"@]);
    let ghost head = args.deep_view();
    let mut files = open_files.clone();
    args.append(&mut files);
    assert(args.deep_view() =~= head + open_files.deep_view());
    args
}

/// What came of opening a folder in an editor.
pub fn editor_result(app_name: &str, success: bool, status: &str) -> (r: Result<(), String>)
    ensures
        text::verdict(r) == if success {
            Ok(())
        } else {
            Err("open -a "@ + app_name@ + " exited with "@ + status@)
        },
{
    if success {
        Ok(())
    } else {
        Err("open -a ".to_owned().concat(app_name).concat(" exited with ").concat(status))
    }
}

/// The Spotlight query for an installed bundle.
pub fn installed_query(bundle_id: &str) -> (r: String)
    ensures
        r@ == "kMDItemCFBundleIdentifier == '"@ + bundle_id@ + "'"@,
{
    "kMDItemCFBundleIdentifier == '".to_owned().concat(bundle_id).concat("'")
}

/// Reads the answer to that query: anything but whitespace means installed. No
/// answer at all (`None`) doesn't block the launch attempt.
pub fn bundle_is_installed(answer: Option<Vec<u8>>) -> (r: bool)
    ensures
        r == match answer {
            Some(bytes) => text::trimmed(text::lossy(bytes@)).len() > 0,
            None => true,
        },
{
    match answer {
        Some(bytes) => {
            let out = trim(lossy_text(&bytes).as_str());
            !out.as_str().is_empty()
        },
        None => true,
    }
}

/// Refuses to launch what isn't installed.
pub fn require_installed(bundle_id: &str, installed: bool) -> (r: Result<(), String>)
    ensures
        text::verdict(r) == if installed {
            Ok(())
        } else {
            Err(bundle_id@ + " is not installed"@)
        },
{
    if installed {
        Ok(())
    } else {
        Err(bundle_id.to_owned().concat(" is not installed"))
    }
}

/// What came of launching an app, with its trimmed error output on failure.
pub fn launch_result(success: bool, stderr: &Vec<u8>) -> (r: Result<(), String>)
    ensures
        text::verdict(r) == if success {
            Ok(())
        } else {
            Err("launch failed: "@ + text::trimmed(text::lossy(stderr@)))
        },
{
    if success {
        Ok(())
    } else {
        let reason = trim(lossy_text(stderr).as_str());
        Err("launch failed: ".to_owned().concat(reason.as_str()))
    }
}

/// Whether a launched app's window is worth placing: its geometry was captured
/// and the Accessibility grant is there.
pub fn wants_placement(geometry: &WindowGeometry, trusted: bool) -> (r: bool)
    ensures
        r == (doubles::below(0, geometry.width) && trusted),
{
    doubles::is_below(0, geometry.width) && trusted
}

/// How often placing a window is tried: one that was just opened can reject it
/// before it is fully interactive.
pub const PLACE_ATTEMPTS: u32 = 3;

/// Decides whether placing a window is tried again; `attempt` counts from 0.
pub fn retries_placement(placed: bool, attempt: u32) -> (r: bool)
    ensures
        r == (!placed && attempt + 1 < PLACE_ATTEMPTS),
{
    !placed && attempt < PLACE_ATTEMPTS - 1
}

/// The test for one bundle id.
pub open spec fn is_bundle(bundle_id: Seq<char>) -> spec_fn(Seq<char>) -> bool {
    |id: Seq<char>| id == bundle_id
}

/// The first of `pids` whose bundle id (`ids`, entry for entry) is the one
/// looked for.
pub fn pid_for_bundle(pids: &Vec<i32>, ids: &Vec<String>, bundle_id: &str) -> (r: Option<i32>)
    requires
        pids.len() == ids.len(),
    ensures
        r == ({
            let at = order::first_where(ids.deep_view(), is_bundle(bundle_id@), 0);
            if at < ids.len() {
                Some(pids@[at])
            } else {
                None
            }
        }),
{
    let mut i: usize = 0;
    while i < ids.len()
        invariant
            i <= ids.len(),
            pids.len() == ids.len(),
            order::first_where(ids.deep_view(), is_bundle(bundle_id@), 0) == order::first_where(
                ids.deep_view(),
                is_bundle(bundle_id@),
                i as int,
            ),
        decreases ids.len() - i,
    {
        assert(ids.deep_view()[i as int] == ids[i as int]@);
        if str_eq(ids[i].as_str(), bundle_id) {
            assert(is_bundle(bundle_id@)(ids.deep_view()[i as int]));
            return Some(pids[i]);
        }
        i = i + 1;
    }
    None
}

/// One node's rehydration lifecycle, reported as it happens.
#[derive(Debug, PartialEq)]
pub enum NodeEvent {
    Started { index: usize, app_name: String },
    Finished { index: usize, node_id: String, app_name: String, ok: bool, message: Option<String> },
}

/// What a `NodeEvent` says: its texts as character sequences, its lists as sequences.
#[verifier::ext_equal]
pub enum NodeEventView {
    Started { index: usize, app_name: Seq<char> },
    Finished {
        index: usize,
        node_id: Seq<char>,
        app_name: Seq<char>,
        ok: bool,
        message: Option<Seq<char>>,
    },
}

impl DeepView for NodeEvent {
    type V = NodeEventView;

    open spec fn deep_view(&self) -> NodeEventView {
        match self {
            NodeEvent::Started { index, app_name } => NodeEventView::Started {
                index: *index,
                app_name: app_name.deep_view(),
            },
            NodeEvent::Finished { index, node_id, app_name, ok, message } => NodeEventView::Finished {
                index: *index,
                node_id: node_id.deep_view(),
                app_name: app_name.deep_view(),
                ok: *ok,
                message: message.deep_view(),
            },
        }
    }
}

impl Clone for NodeEvent {
    fn clone(&self) -> (r: Self)
        ensures
            r.deep_view() == self.deep_view(),
    {
        match self {
            NodeEvent::Started { index, app_name } => NodeEvent::Started {
                index: *index,
                app_name: app_name.clone(),
            },
            NodeEvent::Finished { index, node_id, app_name, ok, message } => NodeEvent::Finished {
                index: *index,
                node_id: node_id.clone(),
                app_name: app_name.clone(),
                ok: *ok,
                message: message.clone(),
            },
        }
    }
}

/// What came of a whole payload; a node's failure doesn't stop the rest.
#[derive(Debug, PartialEq)]
pub struct RehydrationOutcome {
    /// How many nodes came back.
    pub restored: usize,
    /// One line per node that did not.
    pub failures: Vec<String>,
}

/// What a `RehydrationOutcome` says: its texts as character sequences, its lists as sequences.
#[verifier::ext_equal]
pub struct RehydrationOutcomeView {
    pub restored: usize,
    pub failures: Seq<Seq<char>>,
}

impl DeepView for RehydrationOutcome {
    type V = RehydrationOutcomeView;

    open spec fn deep_view(&self) -> RehydrationOutcomeView {
        RehydrationOutcomeView {
            restored: self.restored,
            failures: self.failures.deep_view(),
        }
    }
}

impl Clone for RehydrationOutcome {
    fn clone(&self) -> (r: Self)
        ensures
            r.deep_view() == self.deep_view(),
    {
        RehydrationOutcome {
            restored: self.restored,
            failures: self.failures.clone(),
        }
    }
}

/// The event before a node is restored.
pub fn started(index: usize, node: &WindowNode) -> (r: NodeEvent)
    ensures
        r.deep_view() == (NodeEventView::Started { index, app_name: node.deep_view().app_name }),
{
    NodeEvent::Started { index, app_name: node.app_name.clone() }
}

/// The event after a node was restored or failed.
pub open spec fn finished_event(
    index: usize,
    node: WindowNodeView,
    result: Result<(), Seq<char>>,
) -> NodeEventView {
    NodeEventView::Finished {
        index,
        node_id: node.node_id,
        app_name: node.app_name,
        ok: result is Ok,
        message: match result {
            Ok(()) => None,
            Err(m) => Some(m),
        },
    }
}

/// The outcome once one more node was restored or failed.
pub open spec fn tallied(
    outcome: RehydrationOutcomeView,
    node: WindowNodeView,
    result: Result<(), Seq<char>>,
) -> RehydrationOutcomeView {
    match result {
        Ok(()) => RehydrationOutcomeView {
            restored: (outcome.restored + 1) as usize,
            failures: outcome.failures,
        },
        Err(m) => RehydrationOutcomeView {
            restored: outcome.restored,
            failures: outcome.failures.push(node.app_name + ": "@ + m),
        },
    }
}

/// The outcome before any node.
pub fn no_outcome() -> (r: RehydrationOutcome)
    ensures
        r.deep_view() == (RehydrationOutcomeView { restored: 0, failures: Seq::empty() }),
{
    let r = RehydrationOutcome { restored: 0, failures: Vec::new() };
    assert(r.failures.deep_view() =~= Seq::<Seq<char>>::empty());
    r
}

/// Books what came of one node and tells of it. Failures are collected; they
/// don't abort the rest of the payload.
pub fn finished(
    outcome: &mut RehydrationOutcome,
    index: usize,
    node: &WindowNode,
    result: Result<(), String>,
) -> (r: NodeEvent)
    requires
        old(outcome).restored < usize::MAX,
    ensures
        r.deep_view() == finished_event(index, node.deep_view(), text::verdict(result)),
        final(outcome).deep_view() == tallied(
            old(outcome).deep_view(),
            node.deep_view(),
            text::verdict(result),
        ),
{
    match result {
        Ok(()) => {
            outcome.restored = outcome.restored + 1;
            NodeEvent::Finished {
                index,
                node_id: node.node_id.clone(),
                app_name: node.app_name.clone(),
                ok: true,
                message: None,
            }
        },
        Err(e) => {
            let ghost before = outcome.failures.deep_view();
            outcome.failures.push(node.app_name.clone().concat(": ").concat(e.as_str()));
            assert(outcome.failures.deep_view() =~= before.push(node.app_name@ + ": "@ + e@));
            NodeEvent::Finished {
                index,
                node_id: node.node_id.clone(),
                app_name: node.app_name.clone(),
                ok: false,
                message: Some(e),
            }
        },
    }
}

/// The outcome of a payload whose nodes ended as `results` says.
pub open spec fn outcome_of(
    nodes: Seq<WindowNodeView>,
    results: Seq<Result<(), Seq<char>>>,
) -> RehydrationOutcomeView
    decreases nodes.len(),
{
    if nodes.len() == 0 || results.len() == 0 {
        RehydrationOutcomeView { restored: 0, failures: Seq::empty() }
    } else {
        tallied(
            outcome_of(nodes.drop_last(), results.drop_last()),
            nodes.last(),
            results.last(),
        )
    }
}

/// Every node is accounted for, as restored or as a failure, whatever happened
/// to the others.
pub proof fn every_node_is_accounted_for(
    nodes: Seq<WindowNodeView>,
    results: Seq<Result<(), Seq<char>>>,
)
    requires
        nodes.len() == results.len(),
        nodes.len() <= usize::MAX,
    ensures
        outcome_of(nodes, results).restored + outcome_of(nodes, results).failures.len()
            == nodes.len(),
    decreases nodes.len(),
{
    if nodes.len() > 0 {
        every_node_is_accounted_for(nodes.drop_last(), results.drop_last());
    }
}

/// How many browser tabs of a node were captured.
pub open spec fn captured_tabs(node: WindowNodeView) -> nat {
    match node.payload {
        NodePayloadView::Browser { tabs, active_tab_index } => tabs.len(),
        _ => 0,
    }
}

/// How many of them would be skipped for their scheme.
pub open spec fn skipped_tabs(node: WindowNodeView) -> nat {
    match node.payload {
        NodePayloadView::Browser { tabs, active_tab_index } => (tabs.len() - reopened(
            tabs,
        ).len()) as nat,
        _ => 0,
    }
}

/// What the user should know before committing to a node.
pub open spec fn preflight_issues(
    node: WindowNodeView,
    installed: bool,
    clamped: bool,
) -> Seq<Seq<char>> {
    (match plan_of(node) {
        Err(m) => seq![m],
        Ok(plan) => Seq::empty(),
    }) + (if installed {
        Seq::empty()
    } else {
        seq![node.bundle_id + " is not installed"@]
    }) + (if clamped {
        seq!["window will be moved onto an active display"@]
    } else {
        Seq::empty()
    }) + (if 0 < skipped_tabs(node) < captured_tabs(node) {
        seq![text::decimal(skipped_tabs(node)) + " tab(s) will be skipped"@]
    } else {
        Seq::empty()
    })
}

proof fn lemma_gathered_at_most_one<A>(s: Seq<A>, f: spec_fn(A) -> Seq<Seq<char>>)
    requires
        forall|a: A| (#[trigger] f(a)).len() <= 1,
    ensures
        text::gathered(s, f).len() <= s.len(),
    decreases s.len(),
{
    if s.len() > 0 {
        lemma_gathered_at_most_one(s.drop_last(), f);
    }
}

/// Dry-runs a node: what restoring it would do, without launching anything.
/// `installed` says whether the owning app was found, `clamped` whether its
/// window would move.
pub fn preflight_node(node: &WindowNode, installed: bool, clamped: bool) -> (r: PreflightNode)
    requires
        captured_tabs(node.deep_view()) <= u32::MAX,
    ensures
        r.deep_view() == (PreflightNodeView {
            node_id: node.deep_view().node_id,
            app_name: node.deep_view().app_name,
            adapter: node.adapter,
            installed,
            geometry_clamped: clamped,
            total_tabs: captured_tabs(node.deep_view()) as u32,
            skipped_tabs: skipped_tabs(node.deep_view()) as u32,
            issues: preflight_issues(node.deep_view(), installed, clamped),
        }),
{
    let mut total: u32 = 0;
    let mut skipped: u32 = 0;
    if let NodePayload::Browser { tabs, active_tab_index: _ } = &node.payload {
        let urls = reopened_urls(tabs);
        proof {
            let f = |t: BrowserTabView|
                if is_allowed(t.url) {
                    seq![t.url]
                } else {
                    Seq::empty()
                };
            lemma_gathered_at_most_one(tabs.deep_view(), f);
        }
        total = tabs.len() as u32;
        skipped = (tabs.len() - urls.len()) as u32;
    }
    let mut issues: Vec<String> = Vec::new();
    if let Err(m) = rehydrate_node(node) {
        issues.push(m);
    }
    let ghost i1 = issues.deep_view();
    assert(i1 =~= match plan_of(node.deep_view()) {
        Err(m) => seq![m],
        Ok(plan) => Seq::empty(),
    });
    if !installed {
        issues.push(node.bundle_id.clone().concat(" is not installed"));
    }
    if clamped {
        issues.push("window will be moved onto an active display".to_owned());
    }
    if 0 < skipped && skipped < total {
        issues.push(decimal_of(skipped as u128).concat(" tab(s) will be skipped"));
    }
    assert(issues.deep_view() =~= preflight_issues(node.deep_view(), installed, clamped));
    PreflightNode {
        node_id: node.node_id.clone(),
        app_name: node.app_name.clone(),
        adapter: node.adapter,
        installed,
        geometry_clamped: clamped,
        total_tabs: total,
        skipped_tabs: skipped,
        issues,
    }
}

/// A terminal window is reopened directory for directory: one window for each
/// captured tab whose directory is known, in the order of the tabs, however often
/// a directory occurs.
pub proof fn every_captured_directory_is_reopened(tabs: Seq<TerminalTabView>)
    ensures
        ({
            let known = tabs.filter(|t: TerminalTabView| t.cwd.len() > 0);
            &&& directories(tabs).len() == known.len()
            &&& forall|k: int|
                0 <= k < known.len() ==> #[trigger] directories(tabs)[k] == known[k].cwd
        }),
{
    let keep = |t: TerminalTabView| t.cwd.len() > 0;
    let read = |t: TerminalTabView| t.cwd;
    let f = |t: TerminalTabView|
        if t.cwd.len() > 0 {
            seq![t.cwd]
        } else {
            Seq::empty()
        };
    text::lemma_gathered_kept(tabs, f, keep, read);
    assert(directories(tabs) == text::gathered(tabs, f));
}

/// A browser window is reopened address for address: each captured tab whose
/// address is allowed, in the order of the tabs, however often it occurs.
pub proof fn every_allowed_tab_is_reopened(tabs: Seq<BrowserTabView>)
    ensures
        ({
            let allowed = tabs.filter(|t: BrowserTabView| is_allowed(t.url));
            &&& reopened(tabs).len() == allowed.len()
            &&& forall|k: int|
                0 <= k < allowed.len() ==> #[trigger] reopened(tabs)[k] == allowed[k].url
        }),
{
    let keep = |t: BrowserTabView| is_allowed(t.url);
    let read = |t: BrowserTabView| t.url;
    let f = |t: BrowserTabView|
        if is_allowed(t.url) {
            seq![t.url]
        } else {
            Seq::empty()
        };
    text::lemma_gathered_kept(tabs, f, keep, read);
    assert(reopened(tabs) == text::gathered(tabs, f));
}

/// What is planned for a window is what was captured of it. A browser reopens its
/// allowed tabs, fails where there are tabs but none is allowed, and has nothing
/// to do without tabs; a terminal reopens its known directories; an editor its
/// folder and files; any other app is launched by its id where that is one.
pub proof fn plans_follow_the_capture(node: WindowNodeView)
    ensures
        match node.payload {
            NodePayloadView::Browser { tabs, active_tab_index: _ } => {
                let allowed = tabs.filter(|t: BrowserTabView| is_allowed(t.url));
                if tabs.len() == 0 {
                    plan_of(node) == Ok::<NodePlanView, Seq<char>>(NodePlanView::Nothing)
                } else if allowed.len() == 0 {
                    plan_of(node) == Err::<NodePlanView, Seq<char>>(
                        "all "@ + text::decimal(tabs.len())
                            + " tab(s) had a disallowed URL scheme"@,
                    )
                } else {
                    plan_of(node) matches Ok(NodePlanView::Chrome { urls, active: _ })
                        && urls.len() == allowed.len() && forall|k: int|
                        0 <= k < urls.len() ==> #[trigger] urls[k] == allowed[k].url
                }
            },
            NodePayloadView::Terminal { tabs } => {
                let known = tabs.filter(|t: TerminalTabView| t.cwd.len() > 0);
                plan_of(node) matches Ok(NodePlanView::Terminal { cwds }) && cwds.len()
                    == known.len() && forall|k: int|
                    0 <= k < cwds.len() ==> #[trigger] cwds[k] == known[k].cwd
            },
            NodePayloadView::Editor { folder_path, open_files } => plan_of(node) == Ok::<
                NodePlanView,
                Seq<char>,
            >(NodePlanView::Editor { app_name: node.app_name, folder_path, open_files }),
            NodePayloadView::Generic => if is_bundle_shaped(node.bundle_id) {
                plan_of(node) == Ok::<NodePlanView, Seq<char>>(
                    NodePlanView::Generic { bundle_id: node.bundle_id },
                )
            } else {
                plan_of(node) == Err::<NodePlanView, Seq<char>>(
                    text::quoted(node.bundle_id) + " is not a valid bundle id"@,
                )
            },
        },
{
    match node.payload {
        NodePayloadView::Browser { tabs, active_tab_index: _ } => {
            every_allowed_tab_is_reopened(tabs);
        },
        NodePayloadView::Terminal { tabs } => {
            every_captured_directory_is_reopened(tabs);
        },
        _ => {},
    }
}

/// Where the active tab is not reopened, the selection is the place it had among
/// the captured tabs, or the last tab where fewer are left.
pub proof fn dropped_active_tab_leaves_its_place(node: WindowNodeView)
    ensures
        plan_of(node) matches Ok(NodePlanView::Chrome { urls, active }) ==> (
        node.payload matches NodePayloadView::Browser { tabs, active_tab_index } && (!(0
            <= active_tab_index < tabs.len() && is_allowed(tabs[active_tab_index as int].url))
            ==> active == if active_tab_index + 1 < urls.len() {
            active_tab_index + 1
        } else {
            urls.len() as int
        })),
{
    if let NodePayloadView::Browser { tabs, active_tab_index } = node.payload {
        lemma_gathered_at_most_one(
            tabs,
            |t: BrowserTabView|
                if is_allowed(t.url) {
                    seq![t.url]
                } else {
                    Seq::empty()
                },
        );
        if active_tab_index + 1 > reopened(tabs).len() {
            assert(reopened(tabs).len() <= i32::MAX);
        }
    }
}

/// Whether a text is `name`, in whatever case its letters are.
pub open spec fn is_spelled(s: Seq<char>, name: Seq<char>) -> bool {
    s.len() == name.len() && forall|i: int|
        0 <= i < s.len() ==> (#[trigger] s[i]) == name[i] || 'A' <= s[i] <= 'Z' && s[i] as int + 32
            == name[i] as int
}

/// An address is allowed if its scheme, in any case, is one of http, https,
/// chrome, chrome-extension and about, and never otherwise; without a scheme it
/// is not.
#[verifier::rlimit(40)]
pub proof fn allowed_schemes_are_these(scheme: Seq<char>, rest: Seq<char>)
    requires
        !scheme.contains(':'),
    ensures
        !is_allowed(scheme),
        is_allowed(scheme.push(':') + rest) <==> is_spelled(scheme, "http"@) || is_spelled(
            scheme,
            "https"@,
        ) || is_spelled(scheme, "chrome"@) || is_spelled(scheme, "chrome-extension"@) || is_spelled(
            scheme,
            "about"@,
        ),
{
    let url = scheme.push(':') + rest;
    text::before_the_first(scheme, ':', rest);
    text::lemma_find_from(url, ':', 0);
    text::lemma_find_from(scheme, ':', 0);
    let at = text::find_from(url, ':', 0);
    assert(url.take(at).len() == scheme.len());
    let bare = text::find_from(scheme, ':', 0);
    if bare < scheme.len() {
        assert(scheme[bare] == ':');
    }
    let lowered = scheme.map_values(|c: char| ascii_lower(c));
    reveal_strlit("http");
    reveal_strlit("https");
    reveal_strlit("chrome");
    reveal_strlit("chrome-extension");
    reveal_strlit("about");
    lemma_spelled(scheme, "http"@);
    lemma_spelled(scheme, "https"@);
    lemma_spelled(scheme, "chrome"@);
    lemma_spelled(scheme, "chrome-extension"@);
    lemma_spelled(scheme, "about"@);
    let all = allowed_schemes();
    assert(all[0] == "http"@ && all[1] == "https"@ && all[2] == "chrome"@ && all[3]
        == "chrome-extension"@ && all[4] == "about"@);
    assert(allowed_schemes().contains(lowered) <==> lowered == "http"@ || lowered == "https"@
        || lowered == "chrome"@ || lowered == "chrome-extension"@ || lowered == "about"@);
    if allowed_schemes().contains(lowered) {
        assert forall|i: int| 0 <= i < scheme.len() implies is_scheme_char(#[trigger] scheme[i]) by {
            assert(lowered[i] == ascii_lower(scheme[i]));
            assert('a' <= lowered[i] <= 'z' || lowered[i] == '-');
        }
        assert(lowered[0] == ascii_lower(scheme[0]));
        assert(is_scheme(scheme));
    }
}

proof fn lemma_spelled(s: Seq<char>, name: Seq<char>)
    requires
        forall|i: int| 0 <= i < name.len() ==> !('A' <= #[trigger] name[i] <= 'Z'),
    ensures
        is_spelled(s, name) <==> s.map_values(|c: char| ascii_lower(c)) == name,
{
    let lowered = s.map_values(|c: char| ascii_lower(c));
    if is_spelled(s, name) {
        assert forall|i: int| 0 <= i < s.len() implies lowered[i] == name[i] by {
            assert(lowered[i] == ascii_lower(s[i]));
        }
        assert(lowered =~= name);
    }
    if lowered == name {
        assert forall|i: int| 0 <= i < s.len() implies (#[trigger] s[i]) == name[i] || 'A' <= s[i]
            <= 'Z' && s[i] as int + 32 == name[i] as int by {
            assert(lowered[i] == ascii_lower(s[i]));
        }
    }
}

/// A bundle id is made of letters, digits, dots and hyphens, with a dot in it and
/// no hyphen first; whatever is made so is taken for one.
pub proof fn bundle_ids_are_dotted_names(s: Seq<char>)
    ensures
        is_bundle_shaped(s) <==> s.contains('.') && s[0] != '-' && forall|i: int|
            0 <= i < s.len() ==> 'a' <= #[trigger] s[i] <= 'z' || 'A' <= s[i] <= 'Z' || '0' <= s[i]
                <= '9' || s[i] == '.' || s[i] == '-',
{
}

/// After one more window the outcome counts it where it came back; else it lists
/// the window's app with the reason, behind those before.
pub proof fn outcomes_grow_window_by_window(
    nodes: Seq<WindowNodeView>,
    results: Seq<Result<(), Seq<char>>>,
    node: WindowNodeView,
    result: Result<(), Seq<char>>,
)
    requires
        nodes.len() == results.len(),
        nodes.len() < usize::MAX,
    ensures
        outcome_of(Seq::empty(), Seq::empty()).restored == 0,
        outcome_of(Seq::empty(), Seq::empty()).failures.len() == 0,
        ({
            let before = outcome_of(nodes, results);
            let after = outcome_of(nodes.push(node), results.push(result));
            match result {
                Ok(()) => after.restored == before.restored + 1 && after.failures
                    == before.failures,
                Err(m) => after.restored == before.restored && after.failures
                    == before.failures.push(node.app_name + ": "@ + m),
            }
        }),
{
    assert(nodes.push(node).drop_last() =~= nodes);
    assert(results.push(result).drop_last() =~= results);
    every_node_is_accounted_for(nodes, results);
}

/// What a client is told of a window that is done names the window and its app,
/// and gives the reason exactly where it did not come back.
pub proof fn finished_windows_are_reported(
    index: usize,
    node: WindowNodeView,
    result: Result<(), Seq<char>>,
)
    ensures
        finished_event(index, node, result) matches NodeEventView::Finished {
            index: at,
            node_id,
            app_name,
            ok,
            message,
        } && at == index && node_id == node.node_id && app_name == node.app_name && (ok <==> result
            is Ok) && (message is None <==> ok) && (result matches Err(m)
            ==> message == Some(m)),
{
}

/// A preview counts the tabs of a browser window and those of them that are not
/// allowed. It warns of what will fail, of an app that is not installed, of a
/// window that will be moved, and of tabs that will be skipped where others come
/// back, in this order and of nothing else.
pub proof fn previews_warn_of_what_will_happen(
    node: WindowNodeView,
    installed: bool,
    clamped: bool,
)
    ensures
        node.payload matches NodePayloadView::Browser { tabs, active_tab_index: _ }
            ==> captured_tabs(node) == tabs.len() && skipped_tabs(node) == tabs.filter(
            |t: BrowserTabView| !is_allowed(t.url),
        ).len(),
        !(node.payload is Browser) ==> captured_tabs(node) == 0 && skipped_tabs(node) == 0,
        ({
            let issues = preflight_issues(node, installed, clamped);
            let failing = if plan_of(node) is Err {
                1int
            } else {
                0int
            };
            let missing = if installed {
                0int
            } else {
                1int
            };
            let moved = if clamped {
                1int
            } else {
                0int
            };
            let partial = 0 < skipped_tabs(node) < captured_tabs(node);
            &&& issues.len() == failing + missing + moved + if partial {
                1int
            } else {
                0int
            }
            &&& plan_of(node) matches Err(m) ==> issues[0] == m
            &&& !installed ==> issues[failing] == node.bundle_id + " is not installed"@
            &&& clamped ==> issues[failing + missing]
                == "window will be moved onto an active display"@
            &&& partial ==> issues[failing + missing + moved] == text::decimal(skipped_tabs(node))
                + " tab(s) will be skipped"@
        }),
{
    if let NodePayloadView::Browser { tabs, active_tab_index: _ } = node.payload {
        every_allowed_tab_is_reopened(tabs);
        lemma_parted(tabs, |t: BrowserTabView| is_allowed(t.url), |t: BrowserTabView|
            !is_allowed(t.url));
    }
}

proof fn lemma_parted<A>(s: Seq<A>, a: spec_fn(A) -> bool, b: spec_fn(A) -> bool)
    requires
        forall|x: A| #[trigger] a(x) == !b(x),
    ensures
        s.filter(a).len() + s.filter(b).len() == s.len(),
    decreases s.len(),
{
    reveal(Seq::filter);
    if s.len() > 0 {
        lemma_parted(s.drop_last(), a, b);
        assert(a(s.last()) == !b(s.last()));
    }
}

/// The scheme of an address is what stands before its first colon, in lower case,
/// where that starts with a letter and is made of letters, digits and `+-.`;
/// without a colon there is none.
pub proof fn schemes_stand_before_the_colon(scheme: Seq<char>, rest: Seq<char>)
    requires
        !scheme.contains(':'),
    ensures
        scheme_of(scheme) is None,
        scheme_of(scheme.push(':') + rest) is Some <==> scheme.len() > 0 && ('a' <= scheme[0] <= 'z'
            || 'A' <= scheme[0] <= 'Z') && forall|i: int|
            0 <= i < scheme.len() ==> 'a' <= #[trigger] scheme[i] <= 'z' || 'A' <= scheme[i] <= 'Z'
                || '0' <= scheme[i] <= '9' || scheme[i] == '+' || scheme[i] == '-' || scheme[i]
                == '.',
        scheme_of(scheme.push(':') + rest) matches Some(s) ==> is_spelled(scheme, s) && forall|
            i: int,
        |
            0 <= i < s.len() ==> !('A' <= #[trigger] s[i] <= 'Z'),
{
    let url = scheme.push(':') + rest;
    text::before_the_first(scheme, ':', rest);
    text::lemma_find_from(url, ':', 0);
    text::lemma_find_from(scheme, ':', 0);
    let at = text::find_from(url, ':', 0);
    assert(url.take(at).len() == scheme.len());
    let bare = text::find_from(scheme, ':', 0);
    if bare < scheme.len() {
        assert(scheme[bare] == ':');
    }
    let lowered = scheme.map_values(|c: char| ascii_lower(c));
    assert forall|i: int| 0 <= i < lowered.len() implies !('A' <= #[trigger] lowered[i] <= 'Z') by {
        assert(lowered[i] == ascii_lower(scheme[i]));
    }
    lemma_spelled(scheme, lowered);
}

/// A process is found by the id of its app: the first one listed under it.
pub proof fn processes_are_found_by_app(
    pids: &Vec<i32>,
    ids: &Vec<String>,
    bundle_id: &str,
    r: Option<i32>,
    k: int,
)
    requires
        pids.len() == ids.len(),
        call_ensures(pid_for_bundle, (pids, ids, bundle_id), r),
        0 <= k <= ids.len(),
        forall|m: int| 0 <= m < k ==> (#[trigger] ids.deep_view()[m]) != bundle_id@,
        k < ids.len() ==> ids.deep_view()[k] == bundle_id@,
    ensures
        k == ids.len() ==> r is None,
        k < ids.len() ==> r == Some(pids@[k]),
{
    let all = ids.deep_view();
    let pred = is_bundle(bundle_id@);
    order::lemma_first_where(all, pred, 0);
    let at = order::first_where(all, pred, 0);
    if at < all.len() {
        assert(pred(all[at]));
    }
    if k < all.len() {
        assert(pred(all[k]));
    }
}

/// A window is placed where it has a size and placing is permitted, and placing is
/// tried three times at most, until it succeeds.
pub proof fn windows_are_placed_where_permitted(
    geometry: &WindowGeometry,
    trusted: bool,
    wanted: bool,
    placed: bool,
    attempt: u32,
    again: bool,
)
    requires
        call_ensures(wants_placement, (geometry, trusted), wanted),
        call_ensures(retries_placement, (placed, attempt), again),
    ensures
        wanted <==> trusted && doubles::below(0, geometry.width),
        again <==> !placed && attempt < 2,
{
}

/// An app counts as installed where the search names it or could not be run.
pub proof fn unsearchable_apps_count_as_installed(answer: Option<Vec<u8>>, installed: bool)
    requires
        call_ensures(bundle_is_installed, (answer,), installed),
    ensures
        answer is None ==> installed,
        answer matches Some(bytes) ==> (installed <==> exists|i: int|
            0 <= i < text::lossy(bytes@).len() && !text::is_space(
                #[trigger] text::lossy(bytes@)[i],
            )),
{
    if let Some(bytes) = answer {
        let said = text::lossy(bytes@);
        let (a, b) = text::trimming_drops_outer_space(said);
        if a < b {
            assert(!text::is_space(said[a]));
        }
    }
}

/// A window that came back adds one to those restored; one that did not adds its
/// app and the reason behind the failures so far. Nothing else changes.
pub proof fn each_window_is_tallied_once(
    outcome: RehydrationOutcomeView,
    node: WindowNodeView,
    result: Result<(), Seq<char>>,
)
    requires
        outcome.restored < usize::MAX,
    ensures
        result is Ok ==> tallied(outcome, node, result).restored == outcome.restored + 1
            && tallied(outcome, node, result).failures == outcome.failures,
        result matches Err(m) ==> tallied(outcome, node, result).restored == outcome.restored
            && tallied(outcome, node, result).failures == outcome.failures.push(
            node.app_name + ": "@ + m,
        ),
{
}

/// A preview names the window, its app and adapter, and says what it was told of
/// it.
pub proof fn previews_describe_their_window(
    node: &WindowNode,
    installed: bool,
    clamped: bool,
    r: PreflightNode,
)
    requires
        captured_tabs(node.deep_view()) <= u32::MAX,
        call_ensures(preflight_node, (node, installed, clamped), r),
    ensures
        r.deep_view().node_id == node.deep_view().node_id,
        r.deep_view().app_name == node.deep_view().app_name,
        r.deep_view().adapter == node.deep_view().adapter,
        r.deep_view().installed == installed,
        r.deep_view().geometry_clamped == clamped,
        r.deep_view().total_tabs == captured_tabs(node.deep_view()),
        r.deep_view().skipped_tabs == skipped_tabs(node.deep_view()),
        r.deep_view().issues == preflight_issues(node.deep_view(), installed, clamped),
{
    if let NodePayloadView::Browser { tabs, active_tab_index: _ } = node.deep_view().payload {
        every_allowed_tab_is_reopened(tabs);
        lemma_parted(
            tabs,
            |t: BrowserTabView| is_allowed(t.url),
            |t: BrowserTabView| !is_allowed(t.url),
        );
    }
}

/// A folder is opened with the app that showed it, and files in the background
/// with it; what is opened stands behind `--`, where it is no option.
pub proof fn opened_paths_are_no_options(
    app_name: &str,
    folder_path: &str,
    open_files: &Vec<String>,
    folder_args: Vec<String>,
    file_args: Vec<String>,
)
    requires
        call_ensures(editor_open_args, (app_name, folder_path), folder_args),
        call_ensures(editor_file_args, (app_name, open_files), file_args),
    ensures
        folder_args.deep_view() == seq!["-a"@, app_name@, "--"@, folder_path@],
        file_args.deep_view().take(4) == seq!["-a"@, app_name@, "-g"@, "--"@],
        file_args.deep_view().skip(4) == open_files.deep_view(),
{
    assert(file_args.deep_view().take(4) =~= seq!["-a"@, app_name@, "-g"@, "--"@]);
    assert(file_args.deep_view().skip(4) =~= open_files.deep_view());
}

/// An app that is not installed, a launch that failed and an editor that did not
/// open are told as such; nothing is told of what went well.
pub proof fn failed_launches_are_told(
    bundle_id: &str,
    installed: bool,
    required: Result<(), String>,
    success: bool,
    stderr: &Vec<u8>,
    launched: Result<(), String>,
    app_name: &str,
    status: &str,
    opened: Result<(), String>,
)
    requires
        call_ensures(require_installed, (bundle_id, installed), required),
        call_ensures(launch_result, (success, stderr), launched),
        call_ensures(editor_result, (app_name, success, status), opened),
    ensures
        required is Ok <==> installed,
        required matches Err(m) ==> m@ == bundle_id@ + " is not installed"@,
        launched is Ok <==> success,
        launched matches Err(m) ==> m@ == "launch failed: "@ + text::trimmed(text::lossy(stderr@)),
        opened is Ok <==> success,
        opened matches Err(m) ==> m@ == "open -a "@ + app_name@ + " exited with "@ + status@,
{
}

} // verus!
