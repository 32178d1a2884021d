//! State extraction: turns what the desktop reports into window nodes.
//!
//! Specialized adapters (browser, terminal, editors) capture deep state; every
//! other visible app degrades to a generic node (bundle id and geometry).

use std::collections::HashMap;

use vstd::prelude::*;

use crate::bundle;
use crate::bundle::{file_name, AppIdentity, AppIdentityView};
use crate::doubles;
use crate::grouping;
use crate::order;
use crate::text;
use crate::text::{
    chars_of, decimal_of, holds, lossy_text, parse_number, split_lines, str_eq, string_of, trim,
};
use crate::types::{
    AdapterKind, BrowserTab, BrowserTabView, NodePayload, NodePayloadView, TerminalTab,
    TerminalTabView, WindowGeometry, WindowNode, WindowNodeView,
};

verus! {

broadcast use vstd::std_specs::hash::group_hash_axioms;

pub const CHROME_BUNDLE_ID: &'static str = "com.google.Chrome";

pub const TERMINAL_BUNDLE_ID: &'static str = "com.apple.Terminal";

pub const VSCODE_BUNDLE_ID: &'static str = "com.microsoft.VSCode";

pub const CURSOR_BUNDLE_ID: &'static str = "com.todesktop.230313mzl4w4u92";

/// Windows narrower than this (100.0) are status items, tooltips or popovers.
pub const MIN_WIDTH: u64 = 0x4059_0000_0000_0000;

/// And so are windows lower than this (80.0).
pub const MIN_HEIGHT: u64 = 0x4054_0000_0000_0000;

/// What was read off the live desktop. Extraction always succeeds overall;
/// per-adapter failures become warnings.
#[derive(Debug, PartialEq)]
pub struct ExtractionReport {
    pub nodes: Vec<WindowNode>,
    pub warnings: Vec<String>,
}

/// What an `ExtractionReport` says: its texts as character sequences, its lists as sequences.
#[verifier::ext_equal]
pub struct ExtractionReportView {
    pub nodes: Seq<WindowNodeView>,
    pub warnings: Seq<Seq<char>>,
}

impl DeepView for ExtractionReport {
    type V = ExtractionReportView;

    open spec fn deep_view(&self) -> ExtractionReportView {
        ExtractionReportView {
            nodes: self.nodes.deep_view(),
            warnings: self.warnings.deep_view(),
        }
    }
}

impl Clone for ExtractionReport {
    fn clone(&self) -> (r: Self)
        ensures
            r.deep_view() == self.deep_view(),
    {
        ExtractionReport {
            nodes: self.nodes.clone(),
            warnings: self.warnings.clone(),
        }
    }
}

/// One browser window as its scripting interface lists it.
#[derive(Debug, PartialEq)]
pub struct ChromeWindow {
    pub bounds: WindowGeometry,
    /// Counted from 1.
    pub active_tab_index: i32,
    pub tabs: Vec<BrowserTab>,
}

/// What a `ChromeWindow` says: its texts as character sequences, its lists as sequences.
#[verifier::ext_equal]
pub struct ChromeWindowView {
    pub bounds: WindowGeometry,
    pub active_tab_index: i32,
    pub tabs: Seq<BrowserTabView>,
}

impl DeepView for ChromeWindow {
    type V = ChromeWindowView;

    open spec fn deep_view(&self) -> ChromeWindowView {
        ChromeWindowView {
            bounds: self.bounds,
            active_tab_index: self.active_tab_index,
            tabs: self.tabs.deep_view(),
        }
    }
}

impl Clone for ChromeWindow {
    fn clone(&self) -> (r: Self)
        ensures
            r.deep_view() == self.deep_view(),
    {
        ChromeWindow {
            bounds: self.bounds,
            active_tab_index: self.active_tab_index,
            tabs: self.tabs.clone(),
        }
    }
}

/// A browser's active tab, counted from 0 and held to the tabs there are.
pub open spec fn active_tab(one_based: i32, count: nat) -> int {
    if one_based - 1 < 0 {
        0
    } else if one_based - 1 > count - 1 {
        count - 1
    } else {
        one_based - 1
    }
}

/// The node of a browser window; none for a window without tabs.
pub open spec fn chrome_node_of(w: ChromeWindowView) -> Seq<WindowNodeView> {
    if w.tabs.len() == 0 {
        Seq::empty()
    } else {
        let active = active_tab(w.active_tab_index, w.tabs.len());
        seq![
            WindowNodeView {
                node_id: Seq::empty(),
                bundle_id: CHROME_BUNDLE_ID@,
                app_name: "Google Chrome"@,
                window_title: w.tabs[active].title,
                geometry: w.bounds,
                adapter: AdapterKind::Chrome,
                payload: NodePayloadView::Browser {
                    tabs: w.tabs,
                    active_tab_index: active as i32,
                },
            },
        ]
    }
}

/// Turns a browser window into a node, if it has tabs. Its active tab, which
/// the browser counts from 1, is counted from 0 and held to the tabs there are.
pub fn chrome_node(w: &ChromeWindow) -> (r: Option<WindowNode>)
    requires
        w.active_tab_index > i32::MIN,
        w.tabs.len() <= i32::MAX,
    ensures
        chrome_node_of(w.deep_view()) == match r {
            Some(node) => seq![node.deep_view()],
            None => Seq::empty(),
        },
{
    if w.tabs.len() == 0 {
        return None;
    }
    let last: i32 = w.tabs.len() as i32 - 1;
    let wanted: i32 = w.active_tab_index - 1;
    let active: i32 = if wanted < 0 {
        0
    } else if wanted > last {
        last
    } else {
        wanted
    };
    let node = WindowNode {
        node_id: String::new(),
        bundle_id: CHROME_BUNDLE_ID.to_owned(),
        app_name: "Google Chrome".to_owned(),
        window_title: w.tabs[active as usize].title.clone(),
        geometry: w.bounds,
        adapter: AdapterKind::Chrome,
        payload: NodePayload::Browser { tabs: w.tabs.clone(), active_tab_index: active },
    };
    assert(node.deep_view() =~= chrome_node_of(w.deep_view())[0]);
    Some(node)
}

/// A captured browser window has an active tab that exists, and is titled after
/// it.
pub proof fn active_tab_exists(w: ChromeWindowView)
    requires
        w.tabs.len() > 0,
    ensures
        0 <= active_tab(w.active_tab_index, w.tabs.len()) < w.tabs.len(),
        chrome_node_of(w)[0].window_title == w.tabs[active_tab(
            w.active_tab_index,
            w.tabs.len(),
        )].title,
{
}

/// One terminal tab as its scripting interface lists it, with the working
/// directory found for its tty.
#[derive(Debug, PartialEq)]
pub struct TerminalSession {
    pub tty: String,
    pub selected: bool,
    pub cwd: Option<String>,
}

/// What a `TerminalSession` says: its texts as character sequences, its lists as sequences.
#[verifier::ext_equal]
pub struct TerminalSessionView {
    pub tty: Seq<char>,
    pub selected: bool,
    pub cwd: Option<Seq<char>>,
}

impl DeepView for TerminalSession {
    type V = TerminalSessionView;

    open spec fn deep_view(&self) -> TerminalSessionView {
        TerminalSessionView {
            tty: self.tty.deep_view(),
            selected: self.selected,
            cwd: self.cwd.deep_view(),
        }
    }
}

impl Clone for TerminalSession {
    fn clone(&self) -> (r: Self)
        ensures
            r.deep_view() == self.deep_view(),
    {
        TerminalSession {
            tty: self.tty.clone(),
            selected: self.selected,
            cwd: self.cwd.clone(),
        }
    }
}

/// One terminal window as its scripting interface lists it.
#[derive(Debug, PartialEq)]
pub struct TerminalWindow {
    pub bounds: WindowGeometry,
    pub tabs: Vec<TerminalSession>,
}

/// What a `TerminalWindow` says: its texts as character sequences, its lists as sequences.
#[verifier::ext_equal]
pub struct TerminalWindowView {
    pub bounds: WindowGeometry,
    pub tabs: Seq<TerminalSessionView>,
}

impl DeepView for TerminalWindow {
    type V = TerminalWindowView;

    open spec fn deep_view(&self) -> TerminalWindowView {
        TerminalWindowView {
            bounds: self.bounds,
            tabs: self.tabs.deep_view(),
        }
    }
}

impl Clone for TerminalWindow {
    fn clone(&self) -> (r: Self)
        ensures
            r.deep_view() == self.deep_view(),
    {
        TerminalWindow {
            bounds: self.bounds,
            tabs: self.tabs.clone(),
        }
    }
}

/// The tabs of a terminal window that have a tty.
pub open spec fn sessions_of(tabs: Seq<TerminalSessionView>) -> Seq<TerminalTabView> {
    text::gathered(
        tabs,
        |t: TerminalSessionView|
            if t.tty.len() == 0 {
                Seq::empty()
            } else {
                seq![TerminalTabView { tty: t.tty, cwd: directory_of(t) }]
            },
    )
}

/// The directory of a terminal tab; empty when none was found.
pub open spec fn directory_of(t: TerminalSessionView) -> Seq<char> {
    match t.cwd {
        Some(cwd) => cwd,
        None => Seq::empty(),
    }
}

/// The directory of the selected tab; empty when no tab with a tty is selected.
pub open spec fn selected_directory(tabs: Seq<TerminalSessionView>) -> Seq<char>
    decreases tabs.len(),
{
    if tabs.len() == 0 {
        Seq::empty()
    } else if tabs.last().selected && tabs.last().tty.len() > 0 {
        directory_of(tabs.last())
    } else {
        selected_directory(tabs.drop_last())
    }
}

/// The node of a terminal window; none for a window without ttys.
pub open spec fn terminal_node_of(w: TerminalWindowView) -> Seq<WindowNodeView> {
    if sessions_of(w.tabs).len() == 0 {
        Seq::empty()
    } else {
        seq![
            WindowNodeView {
                node_id: Seq::empty(),
                bundle_id: TERMINAL_BUNDLE_ID@,
                app_name: "Terminal"@,
                window_title: match bundle::file_name_of(selected_directory(w.tabs)) {
                    Some(name) => name,
                    None => "Terminal"@,
                },
                geometry: w.bounds,
                adapter: AdapterKind::TerminalApp,
                payload: NodePayloadView::Terminal { tabs: sessions_of(w.tabs) },
            },
        ]
    }
}

/// Turns a terminal window into a node, if any of its tabs has a tty. It is
/// titled after the selected tab's directory.
pub fn terminal_node(w: &TerminalWindow) -> (r: Option<WindowNode>)
    ensures
        terminal_node_of(w.deep_view()) == match r {
            Some(node) => seq![node.deep_view()],
            None => Seq::empty(),
        },
{
    let ghost all = w.tabs.deep_view();
    let ghost f = |t: TerminalSessionView|
        if t.tty.len() == 0 {
            Seq::empty()
        } else {
            seq![TerminalTabView { tty: t.tty, cwd: directory_of(t) }]
        };
    let mut tabs: Vec<TerminalTab> = Vec::new();
    let mut selected = String::new();
    let mut i: usize = 0;
    assert(tabs.deep_view() =~= text::gathered(all.take(0), f));
    assert(selected@ =~= selected_directory(all.take(0)));
    while i < w.tabs.len()
        invariant
            i <= w.tabs.len(),
            all == w.tabs.deep_view(),
            f == (|t: TerminalSessionView|
                if t.tty.len() == 0 {
                    Seq::empty()
                } else {
                    seq![TerminalTabView { tty: t.tty, cwd: directory_of(t) }]
                }),
            tabs.deep_view() == text::gathered(all.take(i as int), f),
            selected@ == selected_directory(all.take(i as int)),
        decreases w.tabs.len() - i,
    {
        let ghost before = tabs.deep_view();
        let tab = &w.tabs[i];
        proof {
            text::lemma_take_step(all, i as int);
        }
        if !tab.tty.as_str().is_empty() {
            let cwd = match &tab.cwd {
                Some(cwd) => cwd.clone(),
                None => String::new(),
            };
            assert(cwd@ =~= directory_of(all[i as int]));
            if tab.selected {
                selected = cwd.clone();
            }
            tabs.push(TerminalTab { tty: tab.tty.clone(), cwd });
        }
        assert(tabs.deep_view() =~= before + f(all[i as int]));
        i = i + 1;
    }
    assert(all.take(all.len() as int) =~= all);
    if tabs.len() == 0 {
        return None;
    }
    let window_title = match file_name(selected.as_str()) {
        Some(name) => name,
        None => "Terminal".to_owned(),
    };
    let node = WindowNode {
        node_id: String::new(),
        bundle_id: TERMINAL_BUNDLE_ID.to_owned(),
        app_name: "Terminal".to_owned(),
        window_title,
        geometry: w.bounds,
        adapter: AdapterKind::TerminalApp,
        payload: NodePayload::Terminal { tabs },
    };
    assert(node.deep_view() =~= terminal_node_of(w.deep_view())[0]);
    Some(node)
}

/// The smallest of the numbers that lines spell; none when no line does.
pub open spec fn least_number(lines: Seq<Seq<char>>) -> Option<u32>
    decreases lines.len(),
{
    if lines.len() == 0 {
        None
    } else {
        match (least_number(lines.drop_last()), text::number_of(text::trimmed(lines.last()))) {
            (Some(a), Some(b)) => if b < a {
                Some(b)
            } else {
                Some(a)
            },
            (Some(a), None) => Some(a),
            (None, b) => b,
        }
    }
}

/// The process a tty belongs to, from a listing of the processes that have it
/// open: the one with the lowest id is the login shell.
pub fn shell_pid(listing: &Vec<u8>) -> (r: Option<u32>)
    ensures
        r == least_number(text::lines(text::lossy(listing@))),
{
    let out = lossy_text(listing);
    let lines = split_lines(out.as_str());
    let ghost all = lines.deep_view();
    let mut best: Option<u32> = None;
    let mut i: usize = 0;
    assert(all.take(0) =~= Seq::<Seq<char>>::empty());
    while i < lines.len()
        invariant
            i <= lines.len(),
            all == lines.deep_view(),
            best == least_number(all.take(i as int)),
        decreases lines.len() - i,
    {
        proof {
            text::lemma_take_step(all, i as int);
        }
        let line = trim(lines[i].as_str());
        best = match (best, parse_number(line.as_str())) {
            (Some(a), Some(b)) => if b < a {
                Some(b)
            } else {
                Some(a)
            },
            (Some(a), None) => Some(a),
            (None, b) => b,
        };
        i = i + 1;
    }
    assert(all.take(all.len() as int) =~= all);
    best
}

/// Arguments that list a process's working directory.
pub fn cwd_args(pid: u32) -> (r: Vec<String>)
    ensures
        r.deep_view() == seq!["-a"@, "-p"@, text::decimal(pid as nat), "-d"@, "cwd"@, "-Fn"@],
{
    let mut args: Vec<String> = Vec::new();
    args.push("-a".to_owned());
    args.push("-p".to_owned());
    args.push(decimal_of(pid as u128));
    args.push("-d".to_owned());
    args.push("cwd".to_owned());
    args.push("-Fn".to_owned());
    assert(args.deep_view() =~= seq![
        "-a"@,
        "-p"@,
        text::decimal(pid as nat),
        "-d"@,
        "cwd"@,
        "-Fn"@,
    ]);
    args
}

/// What the first line that starts with 'n' says behind it.
pub open spec fn named_in(lines: Seq<Seq<char>>, i: int) -> Option<Seq<char>>
    decreases lines.len() - i,
{
    if i < 0 || i >= lines.len() {
        None
    } else if lines[i].len() > 0 && lines[i][0] == 'n' {
        Some(lines[i].skip(1))
    } else {
        named_in(lines, i + 1)
    }
}

/// The directory such a listing names.
pub fn listed_directory(listing: &Vec<u8>) -> (r: Option<String>)
    ensures
        r.deep_view() == named_in(text::lines(text::lossy(listing@)), 0),
{
    let out = lossy_text(listing);
    let lines = split_lines(out.as_str());
    let mut i: usize = 0;
    while i < lines.len()
        invariant
            i <= lines.len(),
            lines.deep_view() == text::lines(text::lossy(listing@)),
            named_in(lines.deep_view(), 0) == named_in(lines.deep_view(), i as int),
        decreases lines.len() - i,
    {
        let v = chars_of(lines[i].as_str());
        assert(v@ == lines.deep_view()[i as int]);
        if v.len() > 0 && v[0] == 'n' {
            let dir = string_of(&v, 1, v.len());
            assert(dir@ =~= v@.skip(1));
            return Some(dir);
        }
        i = i + 1;
    }
    None
}

/// Which editor an adapter speaks for; both keep their state alike.
#[derive(Debug, Clone, Copy, PartialEq, Eq, Structural)]
pub enum Variant {
    VSCode,
    Cursor,
}

impl Variant {
    pub open spec fn spec_bundle_id(self) -> Seq<char> {
        match self {
            Variant::VSCode => VSCODE_BUNDLE_ID@,
            Variant::Cursor => CURSOR_BUNDLE_ID@,
        }
    }

    pub open spec fn spec_app_name(self) -> Seq<char> {
        match self {
            Variant::VSCode => "Visual Studio Code"@,
            Variant::Cursor => "Cursor"@,
        }
    }

    pub open spec fn spec_kind(self) -> AdapterKind {
        match self {
            Variant::VSCode => AdapterKind::VsCode,
            Variant::Cursor => AdapterKind::Cursor,
        }
    }

    /// The editor's bundle id.
    pub fn bundle_id(self) -> (r: &'static str)
        ensures
            r@ == self.spec_bundle_id(),
    {
        match self {
            Variant::VSCode => VSCODE_BUNDLE_ID,
            Variant::Cursor => CURSOR_BUNDLE_ID,
        }
    }

    /// The editor's name.
    pub fn app_name(self) -> (r: &'static str)
        ensures
            r@ == self.spec_app_name(),
    {
        match self {
            Variant::VSCode => "Visual Studio Code",
            Variant::Cursor => "Cursor",
        }
    }

    /// The directory the editor keeps its state in.
    pub fn support_dir(self) -> (r: &'static str)
        ensures
            r@ == match self {
                Variant::VSCode => "Code"@,
                Variant::Cursor => "Cursor"@,
            },
    {
        match self {
            Variant::VSCode => "Code",
            Variant::Cursor => "Cursor",
        }
    }

    /// The adapter the editor's nodes belong to.
    pub fn kind(self) -> (r: AdapterKind)
        ensures
            r == self.spec_kind(),
    {
        match self {
            Variant::VSCode => AdapterKind::VsCode,
            Variant::Cursor => AdapterKind::Cursor,
        }
    }
}

/// Where an editor's state file says a window was.
#[derive(Debug, PartialEq)]
pub struct UiState {
    pub x: Option<u64>,
    pub y: Option<u64>,
    pub width: Option<u64>,
    pub height: Option<u64>,
}

/// What an `UiState` says: its texts as character sequences, its lists as sequences.
#[verifier::ext_equal]
pub struct UiStateView {
    pub x: Option<u64>,
    pub y: Option<u64>,
    pub width: Option<u64>,
    pub height: Option<u64>,
}

impl DeepView for UiState {
    type V = UiStateView;

    open spec fn deep_view(&self) -> UiStateView {
        UiStateView {
            x: self.x.deep_view(),
            y: self.y.deep_view(),
            width: self.width.deep_view(),
            height: self.height.deep_view(),
        }
    }
}

impl Clone for UiState {
    fn clone(&self) -> (r: Self)
        ensures
            r.deep_view() == self.deep_view(),
    {
        UiState {
            x: self.x,
            y: self.y,
            width: self.width,
            height: self.height,
        }
    }
}

/// One window in an editor's state file.
#[derive(Debug, PartialEq)]
pub struct EditorWindow {
    /// URI of the folder the window shows.
    pub folder: Option<String>,
    pub ui_state: Option<UiState>,
}

/// What an `EditorWindow` says: its texts as character sequences, its lists as sequences.
#[verifier::ext_equal]
pub struct EditorWindowView {
    pub folder: Option<Seq<char>>,
    pub ui_state: Option<UiStateView>,
}

impl DeepView for EditorWindow {
    type V = EditorWindowView;

    open spec fn deep_view(&self) -> EditorWindowView {
        EditorWindowView {
            folder: self.folder.deep_view(),
            ui_state: self.ui_state.deep_view(),
        }
    }
}

impl Clone for EditorWindow {
    fn clone(&self) -> (r: Self)
        ensures
            r.deep_view() == self.deep_view(),
    {
        EditorWindow {
            folder: self.folder.clone(),
            ui_state: self.ui_state.clone(),
        }
    }
}

/// The windows an editor's state file lists.
#[derive(Debug, PartialEq)]
pub struct EditorState {
    pub last_active: Option<EditorWindow>,
    pub opened: Vec<EditorWindow>,
}

/// What an `EditorState` says: its texts as character sequences, its lists as sequences.
#[verifier::ext_equal]
pub struct EditorStateView {
    pub last_active: Option<EditorWindowView>,
    pub opened: Seq<EditorWindowView>,
}

impl DeepView for EditorState {
    type V = EditorStateView;

    open spec fn deep_view(&self) -> EditorStateView {
        EditorStateView {
            last_active: self.last_active.deep_view(),
            opened: self.opened.deep_view(),
        }
    }
}

impl Clone for EditorState {
    fn clone(&self) -> (r: Self)
        ensures
            r.deep_view() == self.deep_view(),
    {
        EditorState {
            last_active: self.last_active.clone(),
            opened: self.opened.clone(),
        }
    }
}

/// What an ASCII hexadecimal digit stands for; none for any other byte.
pub open spec fn hex_value(b: u8) -> Option<int> {
    if 48 <= b <= 57 {
        Some(b - 48)
    } else if 65 <= b <= 70 {
        Some(b - 55)
    } else if 97 <= b <= 102 {
        Some(b - 87)
    } else {
        None
    }
}

/// Bytes with each '%' and the two hexadecimal digits behind it replaced by the
/// byte they stand for; anything else as it is.
pub open spec fn percent_decoded(b: Seq<u8>) -> Seq<u8>
    decreases b.len(),
{
    if b.len() == 0 {
        Seq::empty()
    } else if b[0] == 37 && b.len() >= 3 && hex_value(b[1]) is Some && hex_value(b[2]) is Some {
        seq![(hex_value(b[1])->0 * 16 + hex_value(b[2])->0) as u8] + percent_decoded(b.skip(3))
    } else {
        seq![b[0]] + percent_decoded(b.skip(1))
    }
}

/// `percent_encoding::percent_decode_str(..).decode_utf8()`: percent-decodes the
/// bytes of a text and reads them as UTF-8; `None` when they are not.
#[verifier::external_body]
fn percent_decode(s: &str) -> (r: Option<String>)
    ensures
        r.deep_view() == ({
            let bytes = percent_decoded(vstd::utf8::encode_utf8(s@));
            if vstd::utf8::valid_utf8(bytes) {
                Some(vstd::utf8::decode_utf8(bytes))
            } else {
                None
            }
        }),
{
    percent_encoding::percent_decode_str(s).decode_utf8().ok().map(|t| t.into_owned())
}

/// The path a file URI stands for; none for another URI or one that does not
/// decode.
pub open spec fn path_of_uri(uri: Seq<char>) -> Option<Seq<char>> {
    if text::has_prefix(uri, "file://"@) {
        let bytes = percent_decoded(vstd::utf8::encode_utf8(uri.skip(7)));
        if vstd::utf8::valid_utf8(bytes) {
            Some(vstd::utf8::decode_utf8(bytes))
        } else {
            None
        }
    } else {
        None
    }
}

/// The path a file URI stands for.
pub fn file_uri_to_path(uri: &str) -> (r: Option<String>)
    ensures
        r.deep_view() == path_of_uri(uri@),
{
    let v = chars_of(uri);
    proof {
        reveal_strlit("file://");
    }
    if v.len() < 7 {
        return None;
    }
    let head = string_of(&v, 0, 7);
    assert(head@ =~= uri@.take(7));
    if !str_eq(head.as_str(), "file://") {
        return None;
    }
    let rest = string_of(&v, 7, v.len());
    assert(rest@ =~= uri@.skip(7));
    percent_decode(rest.as_str())
}

/// A geometry, with 0.0 for what the state file leaves out.
pub open spec fn geometry_of(ui: Option<UiStateView>) -> WindowGeometry {
    match ui {
        Some(u) => WindowGeometry {
            x: or_zero(u.x),
            y: or_zero(u.y),
            width: or_zero(u.width),
            height: or_zero(u.height),
        },
        None => WindowGeometry { x: 0, y: 0, width: 0, height: 0 },
    }
}

/// A number, or 0.0 (whose pattern is 0).
pub open spec fn or_zero(v: Option<u64>) -> u64 {
    match v {
        Some(n) => n,
        None => 0,
    }
}

fn zero_default(v: Option<u64>) -> (r: u64)
    ensures
        r == or_zero(v),
{
    match v {
        Some(n) => n,
        None => 0,
    }
}

fn ui_geometry(ui: &Option<UiState>) -> (r: WindowGeometry)
    ensures
        r == geometry_of(ui.deep_view()),
{
    match ui {
        Some(u) => WindowGeometry {
            x: zero_default(u.x),
            y: zero_default(u.y),
            width: zero_default(u.width),
            height: zero_default(u.height),
        },
        None => WindowGeometry { x: 0, y: 0, width: 0, height: 0 },
    }
}

/// The node of an editor window on a folder.
pub open spec fn editor_node_of(
    variant: Variant,
    folder: Seq<char>,
    ui: Option<UiStateView>,
) -> WindowNodeView {
    WindowNodeView {
        node_id: Seq::empty(),
        bundle_id: variant.spec_bundle_id(),
        app_name: variant.spec_app_name(),
        window_title: match bundle::file_name_of(folder) {
            Some(name) => name,
            None => folder,
        },
        geometry: geometry_of(ui),
        adapter: variant.spec_kind(),
        payload: NodePayloadView::Editor { folder_path: folder, open_files: Seq::empty() },
    }
}

/// What scanning editor windows has found: nodes, warnings, and the folders
/// that have a node.
pub struct EditorScanView {
    pub nodes: Seq<WindowNodeView>,
    pub warnings: Seq<Seq<char>>,
    pub folders: Seq<Seq<char>>,
}

/// What editor windows yield: a node for each folder, the first time it comes
/// up; a warning for each folder that is no file URI; nothing for a window
/// without a folder.
pub open spec fn scanned(variant: Variant, windows: Seq<EditorWindowView>) -> EditorScanView
    decreases windows.len(),
{
    if windows.len() == 0 {
        EditorScanView { nodes: Seq::empty(), warnings: Seq::empty(), folders: Seq::empty() }
    } else {
        let done = scanned(variant, windows.drop_last());
        match windows.last().folder {
            None => done,
            Some(uri) => match path_of_uri(uri) {
                None => EditorScanView {
                    warnings: done.warnings.push(
                        variant.spec_app_name() + ": unsupported folder URI "@ + uri,
                    ),
                    ..done
                },
                Some(path) => if done.folders.contains(path) {
                    done
                } else {
                    EditorScanView {
                        nodes: done.nodes.push(
                            editor_node_of(variant, path, windows.last().ui_state),
                        ),
                        folders: done.folders.push(path),
                        ..done
                    }
                },
            },
        }
    }
}

/// Every window a state file lists. The opened windows are those of the last
/// multi-window save; a lone window often lives only in the last active one.
pub open spec fn windows_of(state: EditorStateView) -> Seq<EditorWindowView> {
    match state.last_active {
        Some(last) => state.opened.push(last),
        None => state.opened,
    }
}

/// Adds what an editor's state file yields to a report: one node per folder,
/// however often it is listed.
pub fn extract_editor(variant: Variant, state: &EditorState, report: &mut ExtractionReport)
    ensures
        final(report).deep_view().nodes == old(report).deep_view().nodes + scanned(
            variant,
            windows_of(state.deep_view()),
        ).nodes,
        final(report).deep_view().warnings == old(report).deep_view().warnings + scanned(
            variant,
            windows_of(state.deep_view()),
        ).warnings,
{
    let mut windows: Vec<EditorWindow> = state.opened.clone();
    if let Some(last) = &state.last_active {
        windows.push(last.clone());
    }
    let ghost all = windows.deep_view();
    assert(all =~= windows_of(state.deep_view()));
    let ghost nodes0 = report.nodes.deep_view();
    let ghost warnings0 = report.warnings.deep_view();
    let mut seen: Vec<String> = Vec::new();
    let mut i: usize = 0;
    assert(all.take(0) =~= Seq::<EditorWindowView>::empty());
    assert(nodes0 + scanned(variant, all.take(0)).nodes =~= nodes0);
    assert(warnings0 + scanned(variant, all.take(0)).warnings =~= warnings0);
    assert(seen.deep_view() =~= scanned(variant, all.take(0)).folders);
    while i < windows.len()
        invariant
            i <= windows.len(),
            all == windows.deep_view(),
            report.nodes.deep_view() == nodes0 + scanned(variant, all.take(i as int)).nodes,
            report.warnings.deep_view() == warnings0 + scanned(
                variant,
                all.take(i as int),
            ).warnings,
            seen.deep_view() == scanned(variant, all.take(i as int)).folders,
        decreases windows.len() - i,
    {
        let ghost done = scanned(variant, all.take(i as int));
        let ghost next = scanned(variant, all.take(i + 1));
        let ghost n0 = report.nodes.deep_view();
        let ghost w0 = report.warnings.deep_view();
        proof {
            text::lemma_take_step(all, i as int);
        }
        let w = &windows[i];
        assert(w.deep_view() == all[i as int]);
        if let Some(uri) = &w.folder {
            match file_uri_to_path(uri.as_str()) {
                None => {
                    report.warnings.push(
                        variant.app_name().to_owned().concat(": unsupported folder URI ").concat(
                            uri.as_str(),
                        ),
                    );
                    assert(report.warnings.deep_view() =~= w0.push(
                        variant.spec_app_name() + ": unsupported folder URI "@ + uri@,
                    ));
                    assert(report.warnings.deep_view() =~= warnings0 + next.warnings);
                },
                Some(path) => {
                    if !holds(&seen, path.as_str()) {
                        let ghost s0 = seen.deep_view();
                        seen.push(path.clone());
                        assert(seen.deep_view() =~= s0.push(path@));
                        let window_title = match file_name(path.as_str()) {
                            Some(name) => name,
                            None => path.clone(),
                        };
                        let ghost folder = path@;
                        let node = WindowNode {
                            node_id: String::new(),
                            bundle_id: variant.bundle_id().to_owned(),
                            app_name: variant.app_name().to_owned(),
                            window_title,
                            geometry: ui_geometry(&w.ui_state),
                            adapter: variant.kind(),
                            payload: NodePayload::Editor {
                                folder_path: path,
                                open_files: Vec::new(),
                            },
                        };
                        assert(node.deep_view() =~~= editor_node_of(
                            variant,
                            folder,
                            w.deep_view().ui_state,
                        ));
                        report.nodes.push(node);
                        assert(report.nodes.deep_view() =~= n0.push(
                            editor_node_of(variant, folder, w.deep_view().ui_state),
                        ));
                        assert(report.nodes.deep_view() =~= nodes0 + next.nodes);
                    }
                },
            }
        }
        i = i + 1;
    }
    assert(all.take(all.len() as int) =~= all);
}

/// The warning for a state file that cannot be read.
pub fn unreadable_storage(variant: Variant, path: &str, error: &str) -> (r: String)
    ensures
        r@ == variant.spec_app_name() + ": cannot read "@ + path@ + ": "@ + error@,
{
    variant.app_name().to_owned().concat(": cannot read ").concat(path).concat(": ").concat(error)
}

/// The warning for a state file that does not decode.
pub fn bad_storage(variant: Variant, error: &str) -> (r: String)
    ensures
        r@ == variant.spec_app_name() + ": bad storage.json: "@ + error@,
{
    variant.app_name().to_owned().concat(": bad storage.json: ").concat(error)
}

proof fn lemma_scanned_folders(variant: Variant, windows: Seq<EditorWindowView>)
    ensures
        scanned(variant, windows).folders.no_duplicates(),
        scanned(variant, windows).folders.len() == scanned(variant, windows).nodes.len(),
        forall|i: int|
            0 <= i < scanned(variant, windows).nodes.len() ==> (#[trigger] scanned(
                variant,
                windows,
            ).nodes[i]).payload == (NodePayloadView::Editor {
                folder_path: scanned(variant, windows).folders[i],
                open_files: Seq::empty(),
            }),
    decreases windows.len(),
{
    if windows.len() > 0 {
        lemma_scanned_folders(variant, windows.drop_last());
    }
}

/// No folder is captured twice, however often an editor lists it.
pub proof fn editor_folders_are_unique(variant: Variant, state: EditorStateView, i: int, j: int)
    requires
        0 <= i < j < scanned(variant, windows_of(state)).nodes.len(),
    ensures
        scanned(variant, windows_of(state)).nodes[i].payload != scanned(
            variant,
            windows_of(state),
        ).nodes[j].payload,
{
    lemma_scanned_folders(variant, windows_of(state));
    let scan = scanned(variant, windows_of(state));
    assert(scan.folders[i] != scan.folders[j]);
}

/// One window as the window server lists it; coordinates are patterns of
/// doubles.
#[derive(Debug, PartialEq)]
pub struct WindowInfo {
    pub window_id: u32,
    pub owner_pid: i32,
    /// Application name as reported by the window server.
    pub owner_name: String,
    /// Empty unless the Screen Recording grant is there.
    pub title: String,
    pub x: u64,
    pub y: u64,
    pub width: u64,
    pub height: u64,
    pub layer: i32,
}

/// What a `WindowInfo` says: its texts as character sequences, its lists as sequences.
#[verifier::ext_equal]
pub struct WindowInfoView {
    pub window_id: u32,
    pub owner_pid: i32,
    pub owner_name: Seq<char>,
    pub title: Seq<char>,
    pub x: u64,
    pub y: u64,
    pub width: u64,
    pub height: u64,
    pub layer: i32,
}

impl DeepView for WindowInfo {
    type V = WindowInfoView;

    open spec fn deep_view(&self) -> WindowInfoView {
        WindowInfoView {
            window_id: self.window_id,
            owner_pid: self.owner_pid,
            owner_name: self.owner_name.deep_view(),
            title: self.title.deep_view(),
            x: self.x,
            y: self.y,
            width: self.width,
            height: self.height,
            layer: self.layer,
        }
    }
}

impl Clone for WindowInfo {
    fn clone(&self) -> (r: Self)
        ensures
            r.deep_view() == self.deep_view(),
    {
        WindowInfo {
            window_id: self.window_id,
            owner_pid: self.owner_pid,
            owner_name: self.owner_name.clone(),
            title: self.title.clone(),
            x: self.x,
            y: self.y,
            width: self.width,
            height: self.height,
            layer: self.layer,
        }
    }
}

/// One entry of the window server's list, as far as it says something.
#[derive(Debug, PartialEq)]
pub struct ListedWindow {
    pub window_id: Option<u32>,
    pub owner_pid: Option<i32>,
    pub owner_name: Option<String>,
    pub title: Option<String>,
    pub bounds: Option<WindowGeometry>,
    pub layer: Option<i32>,
}

/// What a `ListedWindow` says: its texts as character sequences, its lists as sequences.
#[verifier::ext_equal]
pub struct ListedWindowView {
    pub window_id: Option<u32>,
    pub owner_pid: Option<i32>,
    pub owner_name: Option<Seq<char>>,
    pub title: Option<Seq<char>>,
    pub bounds: Option<WindowGeometry>,
    pub layer: Option<i32>,
}

impl DeepView for ListedWindow {
    type V = ListedWindowView;

    open spec fn deep_view(&self) -> ListedWindowView {
        ListedWindowView {
            window_id: self.window_id,
            owner_pid: self.owner_pid,
            owner_name: self.owner_name.deep_view(),
            title: self.title.deep_view(),
            bounds: self.bounds,
            layer: self.layer,
        }
    }
}

impl Clone for ListedWindow {
    fn clone(&self) -> (r: Self)
        ensures
            r.deep_view() == self.deep_view(),
    {
        ListedWindow {
            window_id: self.window_id,
            owner_pid: self.owner_pid,
            owner_name: self.owner_name.clone(),
            title: self.title.clone(),
            bounds: self.bounds,
            layer: self.layer,
        }
    }
}

/// What is taken for a text that is missing.
pub open spec fn text_or_empty(t: Option<Seq<char>>) -> Seq<char> {
    match t {
        Some(s) => s,
        None => Seq::empty(),
    }
}

/// The window an entry stands for; none unless it has a number and an owner.
/// Whatever else is missing is empty, at the origin, in the normal layer.
pub open spec fn window_of(e: ListedWindowView) -> Seq<WindowInfoView> {
    match (e.window_id, e.owner_pid) {
        (Some(window_id), Some(owner_pid)) => {
            let bounds = match e.bounds {
                Some(b) => b,
                None => WindowGeometry { x: 0, y: 0, width: 0, height: 0 },
            };
            seq![
                WindowInfoView {
                    window_id,
                    owner_pid,
                    owner_name: text_or_empty(e.owner_name),
                    title: text_or_empty(e.title),
                    x: bounds.x,
                    y: bounds.y,
                    width: bounds.width,
                    height: bounds.height,
                    layer: match e.layer {
                        Some(layer) => layer,
                        None => 0,
                    },
                },
            ]
        },
        _ => Seq::empty(),
    }
}

fn owned_or_empty(t: &Option<String>) -> (r: String)
    ensures
        r@ == text_or_empty(t.deep_view()),
{
    match t {
        Some(s) => s.clone(),
        None => String::new(),
    }
}

fn read_entry(e: &ListedWindow) -> (r: Option<WindowInfo>)
    ensures
        match r {
            Some(w) => window_of(e.deep_view()) == seq![w.deep_view()],
            None => window_of(e.deep_view()) == Seq::<WindowInfoView>::empty(),
        },
{
    match (e.window_id, e.owner_pid) {
        (Some(window_id), Some(owner_pid)) => {
            let bounds: WindowGeometry = match e.bounds {
                Some(b) => b,
                None => WindowGeometry { x: 0, y: 0, width: 0, height: 0 },
            };
            let layer: i32 = match e.layer {
                Some(layer) => layer,
                None => 0,
            };
            Some(
                WindowInfo {
                    window_id,
                    owner_pid,
                    owner_name: owned_or_empty(&e.owner_name),
                    title: owned_or_empty(&e.title),
                    x: bounds.x,
                    y: bounds.y,
                    width: bounds.width,
                    height: bounds.height,
                    layer,
                },
            )
        },
        _ => None,
    }
}

/// Reads the window server's list, front to back.
pub fn list_windows(entries: &Vec<ListedWindow>) -> (r: Vec<WindowInfo>)
    ensures
        r.deep_view() == text::gathered(
            entries.deep_view(),
            |e: ListedWindowView| window_of(e),
        ),
{
    let ghost all = entries.deep_view();
    let ghost f = |e: ListedWindowView| window_of(e);
    let mut out: Vec<WindowInfo> = Vec::new();
    let mut i: usize = 0;
    assert(out.deep_view() =~= text::gathered(all.take(0), f));
    while i < entries.len()
        invariant
            i <= entries.len(),
            all == entries.deep_view(),
            f == (|e: ListedWindowView| window_of(e)),
            out.deep_view() == text::gathered(all.take(i as int), f),
        decreases entries.len() - i,
    {
        let ghost before = out.deep_view();
        if let Some(w) = read_entry(&entries[i]) {
            out.push(w);
        }
        proof {
            text::lemma_take_step(all, i as int);
            assert(out.deep_view() =~= before + f(all[i as int]));
        }
        i = i + 1;
    }
    assert(all.take(all.len() as int) =~= all);
    out
}

/// How many windows a process has.
pub fn window_count(windows: &Vec<WindowInfo>, pid: i32) -> (r: usize)
    ensures
        r == windows.deep_view().filter(|w: WindowInfoView| w.owner_pid == pid).len(),
{
    let ghost all = windows.deep_view();
    let ghost owned = |w: WindowInfoView| w.owner_pid == pid;
    let mut count: usize = 0;
    let mut i: usize = 0;
    reveal(Seq::filter);
    while i < windows.len()
        invariant
            i <= windows.len(),
            count <= i,
            all == windows.deep_view(),
            owned == (|w: WindowInfoView| w.owner_pid == pid),
            count == all.take(i as int).filter(owned).len(),
        decreases windows.len() - i,
    {
        proof {
            reveal(Seq::filter);
            text::lemma_take_step(all, i as int);
        }
        if windows[i].owner_pid == pid {
            count = count + 1;
        }
        i = i + 1;
    }
    assert(all.take(all.len() as int) =~= all);
    count
}

/// Keeps normal document windows, front to back.
pub fn document_windows(listed: &Vec<WindowInfo>) -> (r: Vec<WindowInfo>)
    ensures
        r.deep_view() == listed.deep_view().filter(|w: WindowInfoView| w.layer == 0),
{
    let ghost all = listed.deep_view();
    let ghost keep = |w: WindowInfoView| w.layer == 0;
    let mut out: Vec<WindowInfo> = Vec::new();
    let mut i: usize = 0;
    reveal(Seq::filter);
    assert(out.deep_view() =~= all.take(0).filter(keep));
    while i < listed.len()
        invariant
            i <= listed.len(),
            all == listed.deep_view(),
            keep == (|w: WindowInfoView| w.layer == 0),
            out.deep_view() == all.take(i as int).filter(keep),
        decreases listed.len() - i,
    {
        let ghost before = out.deep_view();
        proof {
            reveal(Seq::filter);
            text::lemma_take_step(all, i as int);
        }
        if listed[i].layer == 0 {
            out.push(listed[i].clone());
            assert(out.deep_view() =~= before.push(all[i as int]));
        }
        i = i + 1;
    }
    assert(all.take(all.len() as int) =~= all);
    out
}

/// The node of a window no specialized adapter owns; none for one that is too
/// small, not owned by a bundled app, or owned by an app of another adapter.
pub open spec fn generic_node_of(
    w: WindowInfoView,
    identity: Option<AppIdentityView>,
    consumed: Seq<Seq<char>>,
) -> Seq<WindowNodeView> {
    match identity {
        None => Seq::empty(),
        Some(app) => if doubles::below(w.width, MIN_WIDTH) || doubles::below(w.height, MIN_HEIGHT)
            || app.bundle_id.len() == 0 || consumed.contains(app.bundle_id) {
            Seq::empty()
        } else {
            seq![
                WindowNodeView {
                    node_id: Seq::empty(),
                    bundle_id: app.bundle_id,
                    app_name: app.app_name,
                    window_title: if w.title.len() == 0 {
                        app.app_name
                    } else {
                        w.title
                    },
                    geometry: WindowGeometry { x: w.x, y: w.y, width: w.width, height: w.height },
                    adapter: AdapterKind::Generic,
                    payload: NodePayloadView::Generic,
                },
            ]
        },
    }
}

/// What is known of the app that owns a process.
pub open spec fn owner_of(identities: Map<i32, AppIdentity>, pid: i32) -> Option<AppIdentityView> {
    if identities.contains_key(pid) {
        Some(identities[pid].deep_view())
    } else {
        None
    }
}

/// The generic nodes of all windows, in order.
pub open spec fn generic_nodes_of(
    windows: Seq<WindowInfoView>,
    identities: Map<i32, AppIdentity>,
    consumed: Seq<Seq<char>>,
) -> Seq<WindowNodeView> {
    text::gathered(
        windows,
        |w: WindowInfoView| generic_node_of(w, owner_of(identities, w.owner_pid), consumed),
    )
}

fn generic_node(w: &WindowInfo, app: &AppIdentity, consumed: &Vec<String>) -> (r: Option<
    WindowNode,
>)
    ensures
        generic_node_of(w.deep_view(), Some(app.deep_view()), consumed.deep_view()) == match r {
            Some(node) => seq![node.deep_view()],
            None => Seq::empty(),
        },
{
    if doubles::is_below(w.width, MIN_WIDTH) || doubles::is_below(w.height, MIN_HEIGHT) {
        return None;
    }
    if app.bundle_id.as_str().is_empty() || holds(consumed, app.bundle_id.as_str()) {
        return None;
    }
    let window_title = if w.title.as_str().is_empty() {
        app.app_name.clone()
    } else {
        w.title.clone()
    };
    let node = WindowNode {
        node_id: String::new(),
        bundle_id: app.bundle_id.clone(),
        app_name: app.app_name.clone(),
        window_title,
        geometry: WindowGeometry { x: w.x, y: w.y, width: w.width, height: w.height },
        adapter: AdapterKind::Generic,
        payload: NodePayload::Generic,
    };
    assert(node.deep_view() =~= generic_node_of(
        w.deep_view(),
        Some(app.deep_view()),
        consumed.deep_view(),
    )[0]);
    Some(node)
}

/// Adds a node for every visible window that no specialized adapter owns.
/// Windows too small are status items, tooltips or popovers; processes that are
/// not bundled can't be relaunched meaningfully.
pub fn extract_generic(
    windows: &Vec<WindowInfo>,
    identities: &HashMap<i32, AppIdentity>,
    consumed_bundle_ids: &Vec<String>,
    report: &mut ExtractionReport,
)
    ensures
        final(report).deep_view().nodes == old(report).deep_view().nodes + generic_nodes_of(
            windows.deep_view(),
            identities@,
            consumed_bundle_ids.deep_view(),
        ),
        final(report).deep_view().warnings == old(report).deep_view().warnings,
{
    let ghost all = windows.deep_view();
    let ghost consumed = consumed_bundle_ids.deep_view();
    let ghost f = |w: WindowInfoView|
        generic_node_of(w, owner_of(identities@, w.owner_pid), consumed);
    let ghost start = report.nodes.deep_view();
    let ghost warnings = report.warnings.deep_view();
    let mut i: usize = 0;
    assert(start =~= start + text::gathered(all.take(0), f));
    while i < windows.len()
        invariant
            i <= windows.len(),
            all == windows.deep_view(),
            consumed == consumed_bundle_ids.deep_view(),
            f == (|w: WindowInfoView|
                generic_node_of(w, owner_of(identities@, w.owner_pid), consumed)),
            report.nodes.deep_view() == start + text::gathered(all.take(i as int), f),
            report.warnings.deep_view() == warnings,
        decreases windows.len() - i,
    {
        let ghost here = report.nodes.deep_view();
        let w = &windows[i];
        if let Some(app) = identities.get(&w.owner_pid) {
            if let Some(node) = generic_node(w, app, consumed_bundle_ids) {
                report.nodes.push(node);
            }
        }
        proof {
            text::lemma_take_step(all, i as int);
            assert(report.nodes.deep_view() =~= here + f(all[i as int]));
            assert(report.nodes.deep_view() =~= start + text::gathered(all.take(i + 1), f));
        }
        i = i + 1;
    }
    assert(all.take(all.len() as int) =~= all);
}

/// The bundle ids of the specialized adapters, in the order they run.
pub open spec fn specialized_ids() -> Seq<Seq<char>> {
    seq![CHROME_BUNDLE_ID@, TERMINAL_BUNDLE_ID@, VSCODE_BUNDLE_ID@, CURSOR_BUNDLE_ID@]
}

/// The specialized adapters whose app is running, by bundle id. Dispatch is on
/// running processes, not visible windows: apps whose windows are fullscreen or
/// on another desktop never appear in the window list. Generic extraction skips
/// the windows of these apps.
pub fn specialized_running(running: &Vec<String>) -> (r: Vec<String>)
    ensures
        r.deep_view() == specialized_ids().filter(
            |id: Seq<char>| running.deep_view().contains(id),
        ),
{
    let ghost ids = specialized_ids();
    let ghost keep = |id: Seq<char>| running.deep_view().contains(id);
    let mut all: Vec<String> = Vec::new();
    all.push(CHROME_BUNDLE_ID.to_owned());
    all.push(TERMINAL_BUNDLE_ID.to_owned());
    all.push(VSCODE_BUNDLE_ID.to_owned());
    all.push(CURSOR_BUNDLE_ID.to_owned());
    assert(all.deep_view() =~= ids);
    let mut out: Vec<String> = Vec::new();
    let mut i: usize = 0;
    reveal(Seq::filter);
    assert(out.deep_view() =~= ids.take(0).filter(keep));
    while i < all.len()
        invariant
            i <= all.len(),
            all.deep_view() == ids,
            keep == (|id: Seq<char>| running.deep_view().contains(id)),
            out.deep_view() == ids.take(i as int).filter(keep),
        decreases all.len() - i,
    {
        let ghost before = out.deep_view();
        proof {
            reveal(Seq::filter);
            text::lemma_take_step(ids, i as int);
        }
        assert(all[i as int]@ == ids[i as int]);
        if holds(running, all[i].as_str()) {
            out.push(all[i].clone());
            assert(out.deep_view() =~= before.push(ids[i as int]));
        }
        i = i + 1;
    }
    assert(ids.take(ids.len() as int) =~= ids);
    out
}

/// Numbers the nodes of a report "n0", "n1", .. once the full set is known.
pub fn assign_ids(report: &mut ExtractionReport)
    ensures
        final(report).deep_view().nodes == grouping::numbered(old(report).deep_view().nodes),
        final(report).deep_view().warnings == old(report).deep_view().warnings,
{
    let ghost all = report.nodes.deep_view();
    let mut out: Vec<WindowNode> = Vec::new();
    let mut i: usize = 0;
    let ghost done = grouping::numbered(all);
    assert(out.deep_view() =~= done.take(0));
    while i < report.nodes.len()
        invariant
            i <= report.nodes.len(),
            all == report.nodes.deep_view(),
            done == grouping::numbered(all),
            out.deep_view() == done.take(i as int),
        decreases report.nodes.len() - i,
    {
        let ghost before = out.deep_view();
        let mut node = report.nodes[i].clone();
        node.node_id = "n".to_owned().concat(decimal_of(i as u128).as_str());
        assert(node.deep_view() =~= done[i as int]);
        out.push(node);
        assert(out.deep_view() =~= before.push(done[i as int]));
        assert(out.deep_view() =~= done.take(i + 1));
        i = i + 1;
    }
    assert(done.take(done.len() as int) =~= done);
    report.nodes = out;
}

/// The warning for a window list that cannot be had.
pub fn window_list_warning(error: &str) -> (r: String)
    ensures
        r@ == "window list unavailable: "@ + error@,
{
    "window list unavailable: ".to_owned().concat(error)
}

/// No window of an app that a specialized adapter owns becomes a generic node,
/// and every generic node can be relaunched by its bundle id.
pub proof fn generic_nodes_are_unowned(
    w: WindowInfoView,
    identity: Option<AppIdentityView>,
    consumed: Seq<Seq<char>>,
    i: int,
)
    requires
        0 <= i < generic_node_of(w, identity, consumed).len(),
    ensures
        !consumed.contains(generic_node_of(w, identity, consumed)[i].bundle_id),
        generic_node_of(w, identity, consumed)[i].bundle_id.len() > 0,
{
}

/// A listed window is captured where it stands: with its own bounds, under the id
/// and name of the app that owns it, titled by the app where it has no title. It
/// is left out only where its owner is unknown or has no id, an adapter of its
/// own has captured it, or it is narrower than 100 or lower than 80 points.
pub proof fn generic_windows_are_captured_where_they_stand(
    w: WindowInfoView,
    identity: Option<AppIdentityView>,
    consumed: Seq<Seq<char>>,
)
    ensures
        ({
            let nodes = generic_node_of(w, identity, consumed);
            let small = doubles::below(w.width, 0x4059_0000_0000_0000) || doubles::below(
                w.height,
                0x4054_0000_0000_0000,
            );
            &&& identity is None ==> nodes.len() == 0
            &&& identity matches Some(app) ==> nodes.len() == if small || app.bundle_id.len() == 0
                || consumed.contains(app.bundle_id) {
                0nat
            } else {
                1nat
            }
            &&& identity matches Some(app) ==> forall|i: int|
                0 <= i < nodes.len() ==> {
                    let n = #[trigger] nodes[i];
                    &&& n.geometry.x == w.x
                    &&& n.geometry.y == w.y
                    &&& n.geometry.width == w.width
                    &&& n.geometry.height == w.height
                    &&& n.bundle_id == app.bundle_id
                    &&& n.app_name == app.app_name
                    &&& w.title.len() > 0 ==> n.window_title == w.title
                    &&& w.title.len() == 0 ==> n.window_title == app.app_name
                    &&& n.adapter == AdapterKind::Generic
                    &&& n.payload is Generic
                    &&& n.node_id.len() == 0
                }
        }),
{
}

/// Windows are captured one by one, front to back: each is captured as it would
/// be by itself, under the identity of its own process.
pub proof fn generic_windows_are_captured_one_by_one(
    windows: Seq<WindowInfoView>,
    more: Seq<WindowInfoView>,
    w: WindowInfoView,
    identities: Map<i32, AppIdentity>,
    consumed: Seq<Seq<char>>,
)
    ensures
        generic_nodes_of(windows + more, identities, consumed) == generic_nodes_of(
            windows,
            identities,
            consumed,
        ) + generic_nodes_of(more, identities, consumed),
        identities.contains_key(w.owner_pid) ==> generic_nodes_of(seq![w], identities, consumed)
            == generic_node_of(w, Some(identities[w.owner_pid].deep_view()), consumed),
        !identities.contains_key(w.owner_pid) ==> generic_nodes_of(
            seq![w],
            identities,
            consumed,
        ).len() == 0,
        generic_nodes_of(Seq::empty(), identities, consumed).len() == 0,
{
    let f = |w: WindowInfoView|
        generic_node_of(w, owner_of(identities, w.owner_pid), consumed);
    text::lemma_gathered_add(windows, more, f);
    text::lemma_gathered_one(w, f);
}

/// A browser window is captured with its bounds and all its tabs; its active tab,
/// counted from 1, is the nearest tab there is, and titles the window. Without
/// tabs it is left out.
pub proof fn browser_windows_are_captured_whole(w: ChromeWindowView)
    requires
        w.tabs.len() <= i32::MAX,
    ensures
        chrome_node_of(w).len() == if w.tabs.len() == 0 {
            0nat
        } else {
            1nat
        },
        w.tabs.len() > 0 ==> ({
            let n = chrome_node_of(w)[0];
            &&& n.geometry == w.bounds
            &&& n.bundle_id == "com.google.Chrome"@
            &&& n.app_name == "Google Chrome"@
            &&& n.adapter == AdapterKind::Chrome
            &&& n.node_id.len() == 0
            &&& n.payload matches NodePayloadView::Browser { tabs, active_tab_index } && {
                &&& tabs == w.tabs
                &&& 1 <= w.active_tab_index <= w.tabs.len() ==> active_tab_index + 1
                    == w.active_tab_index
                &&& w.active_tab_index < 1 ==> active_tab_index == 0
                &&& w.active_tab_index > w.tabs.len() ==> active_tab_index + 1 == w.tabs.len()
                &&& n.window_title == w.tabs[active_tab_index as int].title
            }
        }),
{
}

/// A terminal window is captured with its bounds and every session that has a
/// terminal device, in their order, each with its directory where it is known;
/// without one it is left out. It is titled by the directory of the last selected
/// of them.
pub proof fn terminal_windows_are_captured_whole(w: TerminalWindowView)
    ensures
        ({
            let named = w.tabs.filter(|t: TerminalSessionView| t.tty.len() > 0);
            &&& terminal_node_of(w).len() == if named.len() == 0 {
                0nat
            } else {
                1nat
            }
            &&& named.len() > 0 ==> ({
                let n = terminal_node_of(w)[0];
                &&& n.geometry == w.bounds
                &&& n.bundle_id == "com.apple.Terminal"@
                &&& n.app_name == "Terminal"@
                &&& n.adapter == AdapterKind::TerminalApp
                &&& n.node_id.len() == 0
                &&& bundle::file_name_of(selected_directory(w.tabs)) matches Some(name)
                    ==> n.window_title == name
                &&& bundle::file_name_of(selected_directory(w.tabs)) is None ==> n.window_title
                    == "Terminal"@
                &&& n.payload matches NodePayloadView::Terminal { tabs } && tabs.len()
                    == named.len() && forall|k: int|
                    0 <= k < tabs.len() ==> {
                        &&& (#[trigger] tabs[k]).tty == named[k].tty
                        &&& named[k].cwd matches Some(dir) ==> tabs[k].cwd == dir
                        &&& named[k].cwd is None ==> tabs[k].cwd.len() == 0
                    }
            })
        }),
{
    let keep = |t: TerminalSessionView| t.tty.len() > 0;
    let read = |t: TerminalSessionView| TerminalTabView { tty: t.tty, cwd: directory_of(t) };
    let f = |t: TerminalSessionView|
        if t.tty.len() == 0 {
            Seq::empty()
        } else {
            seq![TerminalTabView { tty: t.tty, cwd: directory_of(t) }]
        };
    text::lemma_gathered_kept(w.tabs, f, keep, read);
    assert(sessions_of(w.tabs) == text::gathered(w.tabs, f));
}

/// The selected directory is that of the last session that is selected and has a
/// terminal device; there is none without such a session.
pub proof fn last_selection_counts(tabs: Seq<TerminalSessionView>, k: int)
    requires
        forall|m: int|
            k < m < tabs.len() ==> !((#[trigger] tabs[m]).selected && tabs[m].tty.len() > 0),
        -1 <= k < tabs.len(),
        k >= 0 ==> tabs[k].selected && tabs[k].tty.len() > 0,
    ensures
        k == -1 ==> selected_directory(tabs).len() == 0,
        k >= 0 && tabs[k].cwd is None ==> selected_directory(tabs).len() == 0,
        k >= 0 ==> (tabs[k].cwd matches Some(dir) ==> selected_directory(tabs) == dir),
    decreases tabs.len(),
{
    if k < tabs.len() - 1 {
        assert(!(tabs[tabs.len() - 1].selected && tabs[tabs.len() - 1].tty.len() > 0));
        let rest = tabs.drop_last();
        assert forall|m: int| k < m < rest.len() implies !((#[trigger] rest[m]).selected
            && rest[m].tty.len() > 0) by {
            assert(rest[m] == tabs[m]);
        }
        last_selection_counts(rest, k);
    }
}

/// The least number of a listing is one of its lines, and none of its lines reads
/// as a smaller one; there is none only where no line reads as a number.
pub proof fn least_number_is_listed(lines: Seq<Seq<char>>)
    ensures
        match least_number(lines) {
            Some(n) => (exists|i: int|
                0 <= i < lines.len() && text::number_of(text::trimmed(#[trigger] lines[i])) == Some(
                    n,
                )) && forall|i: int|
                0 <= i < lines.len() ==> (text::number_of(text::trimmed(#[trigger] lines[i])) matches Some(
                    m,
                ) ==> n <= m),
            None => forall|i: int|
                0 <= i < lines.len() ==> text::number_of(text::trimmed(#[trigger] lines[i])) is None,
        },
    decreases lines.len(),
{
    if lines.len() > 0 {
        let rest = lines.drop_last();
        least_number_is_listed(rest);
        let last = lines[lines.len() - 1];
        assert forall|i: int| 0 <= i < lines.len() - 1 implies #[trigger] lines[i] == rest[i] by {}
        if let Some(n) = least_number(lines) {
            if text::number_of(text::trimmed(last)) != Some(n) {
                let i = choose|i: int|
                    0 <= i < rest.len() && text::number_of(text::trimmed(#[trigger] rest[i]))
                        == Some(n);
                assert(lines[i] == rest[i]);
            }
        }
    }
}

/// A listed directory is what stands behind the first `n` that starts a line.
pub proof fn first_name_line_counts(lines: Seq<Seq<char>>, from: int, k: int)
    requires
        0 <= from <= k <= lines.len(),
        forall|m: int|
            from <= m < k ==> !((#[trigger] lines[m]).len() > 0 && lines[m][0] == 'n'),
        k < lines.len() ==> lines[k].len() > 0 && lines[k][0] == 'n',
    ensures
        k == lines.len() ==> named_in(lines, from) is None,
        k < lines.len() ==> named_in(lines, from) == Some(
            lines[k].subrange(1, lines[k].len() as int),
        ),
    decreases k - from,
{
    if from < k {
        assert(!(lines[from].len() > 0 && lines[from][0] == 'n'));
        first_name_line_counts(lines, from + 1, k);
    } else if k < lines.len() {
        assert(lines[k].skip(1) =~= lines[k].subrange(1, lines[k].len() as int));
    }
}

/// Percent escapes stand for the byte whose two hexadecimal digits they hold, in
/// either case; every other byte stands for itself.
#[verifier::rlimit(40)]
pub proof fn percent_escapes_stand_for_bytes(b: Seq<u8>, high: u8, low: u8, h: u8, l: u8, c: u8)
    requires
        high < 16,
        low < 16,
        is_hex_digit(h, high),
        is_hex_digit(l, low),
        !(48 <= c <= 57 || 65 <= c <= 70 || 97 <= c <= 102),
    ensures
        percent_decoded(Seq::empty()).len() == 0,
        b.len() > 0 && b[0] != 37 ==> percent_decoded(b) == seq![b[0]] + percent_decoded(b.skip(1)),
        percent_decoded(seq![37u8, h, l] + b) == seq![(high * 16 + low) as u8] + percent_decoded(b),
        percent_decoded(seq![37u8, c] + b) == seq![37u8] + percent_decoded(seq![c] + b),
        percent_decoded(seq![37u8, h, c] + b) == seq![37u8, h] + percent_decoded(seq![c] + b),
        percent_decoded(seq![37u8, h]) == seq![37u8, h],
        percent_decoded(seq![37u8]) == seq![37u8],
{
    reveal_with_fuel(percent_decoded, 3);
    assert((seq![37u8, h, l] + b).skip(3) =~= b);
    assert((seq![37u8, c] + b).skip(1) =~= seq![c] + b);
    assert((seq![37u8, h, c] + b).skip(1) =~= seq![h, c] + b);
    assert((seq![h, c] + b).skip(1) =~= seq![c] + b);
    assert(percent_decoded(seq![37u8, h, c] + b) =~= seq![37u8, h] + percent_decoded(seq![c] + b));
    assert(seq![37u8, h].skip(1) =~= seq![h]);
    assert(seq![h].skip(1) =~= Seq::empty());
    assert(seq![37u8].skip(1) =~= Seq::empty());
    assert(percent_decoded(seq![37u8, h]) =~= seq![37u8, h]);
    assert(percent_decoded(seq![37u8]) =~= seq![37u8]);
}

/// Whether a byte is the hexadecimal digit of a value below 16.
pub open spec fn is_hex_digit(b: u8, value: u8) -> bool {
    ||| value < 10 && b == 48 + value
    ||| 10 <= value && b == 55 + value
    ||| 10 <= value && b == 87 + value
}

/// A folder's address is read off a file address: what stands behind `file://`,
/// with its escapes decoded, where that is text; any other address is no folder.
pub proof fn folders_are_file_addresses(uri: Seq<char>, path: Seq<char>)
    ensures
        !(uri.len() >= 7 && uri.take(7) == "file://"@) ==> path_of_uri(uri) is None,
        ({
            let bytes = percent_decoded(vstd::utf8::encode_utf8(path));
            path_of_uri("file://"@ + path) == if vstd::utf8::valid_utf8(bytes) {
                Some(vstd::utf8::decode_utf8(bytes))
            } else {
                None
            }
        }),
{
    reveal_strlit("file://");
    let all = "file://"@ + path;
    assert(all.skip(7) =~= path);
    assert(all.take(7) =~= "file://"@);
}

/// An editor window is captured with its folder, and with the bounds its state
/// gives, zero where it gives none; it is titled by the folder's last name.
pub proof fn editor_windows_are_captured_with_their_folder(
    variant: Variant,
    folder: Seq<char>,
    ui: Option<UiStateView>,
)
    ensures
        ({
            let n = editor_node_of(variant, folder, ui);
            &&& n.payload == (NodePayloadView::Editor {
                folder_path: folder,
                open_files: Seq::empty(),
            })
            &&& n.node_id.len() == 0
            &&& bundle::file_name_of(folder) matches Some(name) ==> n.window_title == name
            &&& bundle::file_name_of(folder) is None ==> n.window_title == folder
            &&& ui is None ==> n.geometry == (WindowGeometry { x: 0, y: 0, width: 0, height: 0 })
            &&& ui matches Some(u) ==> {
                &&& n.geometry.x == if u.x is Some {
                    u.x->0
                } else {
                    0
                }
                &&& n.geometry.y == if u.y is Some {
                    u.y->0
                } else {
                    0
                }
                &&& n.geometry.width == if u.width is Some {
                    u.width->0
                } else {
                    0
                }
                &&& n.geometry.height == if u.height is Some {
                    u.height->0
                } else {
                    0
                }
            }
            &&& variant == Variant::VSCode ==> n.bundle_id == "com.microsoft.VSCode"@ && n.app_name
                == "Visual Studio Code"@ && n.adapter == AdapterKind::VsCode
            &&& variant == Variant::Cursor ==> n.bundle_id == "com.todesktop.230313mzl4w4u92"@
                && n.app_name == "Cursor"@ && n.adapter == AdapterKind::Cursor
        }),
{
}

/// One more editor window adds a node for its folder where that is a folder not
/// seen before, a warning where its address is none, and nothing where it shows
/// none; what was captured before stays.
pub proof fn editor_windows_are_captured_one_by_one(
    variant: Variant,
    windows: Seq<EditorWindowView>,
    w: EditorWindowView,
)
    ensures
        scanned(variant, Seq::empty()).nodes.len() == 0,
        scanned(variant, Seq::empty()).warnings.len() == 0,
        ({
            let before = scanned(variant, windows);
            let after = scanned(variant, windows.push(w));
            match w.folder {
                None => after.nodes == before.nodes && after.warnings == before.warnings,
                Some(uri) => match path_of_uri(uri) {
                    None => after.nodes == before.nodes && after.warnings == before.warnings.push(
                        variant.spec_app_name() + ": unsupported folder URI "@ + uri,
                    ),
                    Some(path) => {
                        let seen = exists|k: int|
                            0 <= k < before.nodes.len() && (#[trigger] before.nodes[k]).payload
                                == (NodePayloadView::Editor {
                                folder_path: path,
                                open_files: Seq::empty(),
                            });
                        &&& after.warnings == before.warnings
                        &&& seen ==> after.nodes == before.nodes
                        &&& !seen ==> after.nodes == before.nodes.push(
                            editor_node_of(variant, path, w.ui_state),
                        )
                    },
                },
            }
        }),
{
    assert(windows.push(w).drop_last() =~= windows);
    lemma_scanned_folders(variant, windows);
    let before = scanned(variant, windows);
    if let Some(uri) = w.folder {
        if let Some(path) = path_of_uri(uri) {
            let wanted = NodePayloadView::Editor { folder_path: path, open_files: Seq::empty() };
            if before.folders.contains(path) {
                let k = choose|k: int| 0 <= k < before.folders.len() && before.folders[k] == path;
                assert(before.nodes[k].payload == wanted);
            }
            if exists|k: int|
                0 <= k < before.nodes.len() && (#[trigger] before.nodes[k]).payload == wanted {
                let k = choose|k: int|
                    0 <= k < before.nodes.len() && (#[trigger] before.nodes[k]).payload == wanted;
                assert(before.nodes[k].payload == (NodePayloadView::Editor {
                    folder_path: before.folders[k],
                    open_files: Seq::empty(),
                }));
                assert(before.folders[k] == path);
                assert(before.folders.contains(path));
            }
        }
    }
}

/// An editor's windows are those it lists as opened, and the last active one
/// behind them.
pub proof fn last_active_window_comes_last(state: EditorStateView)
    ensures
        windows_of(state).len() == state.opened.len() + if state.last_active is Some {
            1int
        } else {
            0int
        },
        windows_of(state).take(state.opened.len() as int) == state.opened,
        state.last_active matches Some(w) ==> windows_of(state).last() == w,
{
    assert(windows_of(state).take(state.opened.len() as int) =~= state.opened);
}

/// A window of the window server's list is read where it names its number and its
/// process; what else it leaves out is empty or zero.
pub proof fn listed_windows_are_read_as_listed(e: ListedWindowView)
    ensures
        window_of(e).len() == if e.window_id is Some && e.owner_pid is Some {
            1nat
        } else {
            0nat
        },
        window_of(e).len() > 0 ==> ({
            let w = window_of(e)[0];
            &&& e.window_id == Some(w.window_id)
            &&& e.owner_pid == Some(w.owner_pid)
            &&& e.owner_name matches Some(name) ==> w.owner_name == name
            &&& e.owner_name is None ==> w.owner_name.len() == 0
            &&& e.title matches Some(title) ==> w.title == title
            &&& e.title is None ==> w.title.len() == 0
            &&& e.layer matches Some(layer) ==> w.layer == layer
            &&& e.layer is None ==> w.layer == 0
            &&& e.bounds matches Some(b) ==> w.x == b.x && w.y == b.y && w.width == b.width
                && w.height == b.height
            &&& e.bounds is None ==> w.x == 0 && w.y == 0 && w.width == 0 && w.height == 0
        }),
{
}

/// The apps with an adapter of their own are these four.
pub proof fn specialized_apps_are_these(id: Seq<char>)
    ensures
        specialized_ids().contains(id) <==> id == "com.google.Chrome"@ || id
            == "com.apple.Terminal"@ || id == "com.microsoft.VSCode"@ || id
            == "com.todesktop.230313mzl4w4u92"@,
{
    let all = specialized_ids();
    assert(all[0] == "com.google.Chrome"@ && all[1] == "com.apple.Terminal"@ && all[2]
        == "com.microsoft.VSCode"@ && all[3] == "com.todesktop.230313mzl4w4u92"@);
}

/// Only ordinary windows are captured: those on layer 0, in the order listed, with
/// nothing changed.
pub proof fn ordinary_windows_are_on_layer_zero(
    listed: &Vec<WindowInfo>,
    kept: Vec<WindowInfo>,
    w: WindowInfoView,
)
    requires
        call_ensures(document_windows, (listed,), kept),
    ensures
        kept.deep_view().contains(w) <==> listed.deep_view().contains(w) && w.layer == 0,
        kept.deep_view() == listed.deep_view().filter(|w: WindowInfoView| w.layer == 0),
{
    order::lemma_filter_contains(listed.deep_view(), |w: WindowInfoView| w.layer == 0, w);
}

/// The apps whose windows an adapter of their own captures are those of the four
/// that run.
pub proof fn running_specialized_apps_are_consumed(
    running: &Vec<String>,
    r: Vec<String>,
    id: Seq<char>,
)
    requires
        call_ensures(specialized_running, (running,), r),
    ensures
        r.deep_view().contains(id) <==> running.deep_view().contains(id) && (id
            == "com.google.Chrome"@ || id == "com.apple.Terminal"@ || id == "com.microsoft.VSCode"@
            || id == "com.todesktop.230313mzl4w4u92"@),
{
    order::lemma_filter_contains(
        specialized_ids(),
        |id: Seq<char>| running.deep_view().contains(id),
        id,
    );
    specialized_apps_are_these(id);
}

/// Entries of the window list are read in their order, those that name a window
/// and its process.
pub proof fn entries_are_read_in_order(entries: &Vec<ListedWindow>, r: Vec<WindowInfo>)
    requires
        call_ensures(list_windows, (entries,), r),
    ensures
        ({
            let named = entries.deep_view().filter(
                |e: ListedWindowView| e.window_id is Some && e.owner_pid is Some,
            );
            &&& r.len() == named.len()
            &&& forall|i: int|
                0 <= i < r.len() ==> window_of(named[i]) == seq![#[trigger] r.deep_view()[i]]
        }),
{
    let keep = |e: ListedWindowView| e.window_id is Some && e.owner_pid is Some;
    let read = |e: ListedWindowView| window_of(e)[0];
    let f = |e: ListedWindowView| window_of(e);
    let all = entries.deep_view();
    assert forall|e: ListedWindowView| #[trigger]
        f(e) == if keep(e) {
            seq![read(e)]
        } else {
            Seq::empty()
        } by {
        if keep(e) {
            assert(f(e) =~= seq![read(e)]);
        } else {
            assert(f(e) =~= Seq::empty());
        }
    }
    text::lemma_gathered_kept(all, f, keep, read);
    order::lemma_filtered(all, keep);
    assert(r.deep_view().len() == r.len());
    let named = all.filter(keep);
    assert forall|i: int| 0 <= i < r.len() implies window_of(named[i]) == seq![
        #[trigger] r.deep_view()[i],
    ] by {
        assert(keep(named[i]));
        assert(r.deep_view()[i] == read(named[i]));
        assert(f(named[i]) == seq![read(named[i])]);
    }
}

} // verus!
