//! Turning what the desktop reports into nodes.

use std::collections::HashMap;

use temporal::bundle::AppIdentity;
use temporal::extract::{
    assign_ids, bad_storage, chrome_node, cwd_args, document_windows, extract_editor,
    extract_generic, file_uri_to_path, list_windows, listed_directory, shell_pid,
    specialized_running, terminal_node, unreadable_storage, window_count, window_list_warning,
    ChromeWindow, EditorState, EditorWindow, ExtractionReport, ListedWindow, TerminalSession,
    TerminalWindow, UiState, Variant, WindowInfo, CHROME_BUNDLE_ID, CURSOR_BUNDLE_ID, MIN_HEIGHT,
    MIN_WIDTH,
};
use temporal::types::{AdapterKind, BrowserTab, NodePayload, WindowGeometry};

fn empty_report() -> ExtractionReport {
    ExtractionReport { nodes: vec![], warnings: vec![] }
}

fn bounds() -> WindowGeometry {
    WindowGeometry {
        x: 1.0f64.to_bits(),
        y: 2.0f64.to_bits(),
        width: 300.0f64.to_bits(),
        height: 400.0f64.to_bits(),
    }
}

fn number(v: Option<&serde_json::Value>) -> Option<u64> {
    v.and_then(|n| n.as_f64()).map(f64::to_bits)
}

fn editor_window(v: &serde_json::Value) -> EditorWindow {
    EditorWindow {
        folder: v.get("folder").and_then(|f| f.as_str()).map(String::from),
        ui_state: v.get("uiState").map(|u| UiState {
            x: number(u.get("x")),
            y: number(u.get("y")),
            width: number(u.get("width")),
            height: number(u.get("height")),
        }),
    }
}

/// Decodes an editor's state file and extracts it.
fn extract_from(variant: Variant, raw: &str, report: &mut ExtractionReport) {
    let parsed: serde_json::Value = serde_json::from_str(raw).unwrap();
    let state = &parsed["windowsState"];
    let state = EditorState {
        last_active: state.get("lastActiveWindow").map(editor_window),
        opened: state["openedWindows"].as_array().unwrap().iter().map(editor_window).collect(),
    };
    extract_editor(variant, &state, report);
}

#[test]
fn parses_storage_json_last_active_window() {
    let mut report = empty_report();
    extract_from(
        Variant::Cursor,
        r#"{"windowsState":{"lastActiveWindow":{"folder":"file:///Users/dev/my%20repo","uiState":{"mode":3,"x":254,"y":189,"width":1280,"height":800}},"openedWindows":[]}}"#,
        &mut report,
    );
    assert_eq!(report.nodes.len(), 1);
    let node = &report.nodes[0];
    assert_eq!(node.window_title, "my repo");
    assert_eq!(f64::from_bits(node.geometry.width), 1280.0);
    match &node.payload {
        NodePayload::Editor { folder_path, .. } => assert_eq!(folder_path, "/Users/dev/my repo"),
        other => panic!("unexpected payload: {other:?}"),
    }
}

#[test]
fn dedupes_last_active_against_opened_windows() {
    let mut report = empty_report();
    extract_from(
        Variant::VSCode,
        r#"{"windowsState":{"lastActiveWindow":{"folder":"file:///a"},"openedWindows":[{"folder":"file:///a"},{"folder":"file:///b"}]}}"#,
        &mut report,
    );
    assert_eq!(report.nodes.len(), 2);
}

#[test]
fn editor_nodes_carry_their_variant() {
    let mut report = empty_report();
    let window = |folder: Option<&str>| EditorWindow {
        folder: folder.map(String::from),
        ui_state: Some(UiState { x: Some(1.0f64.to_bits()), y: None, width: None, height: None }),
    };
    let state = EditorState {
        last_active: None,
        opened: vec![
            window(Some("file:///w/app")),
            window(None),
            window(Some("vscode-remote://x")),
            window(Some("file:///")),
        ],
    };
    extract_editor(Variant::Cursor, &state, &mut report);
    assert_eq!(report.nodes.len(), 2);
    let node = &report.nodes[0];
    assert_eq!(node.node_id, "");
    assert_eq!(node.bundle_id, "com.todesktop.230313mzl4w4u92");
    assert_eq!(node.app_name, "Cursor");
    assert_eq!(node.adapter, AdapterKind::Cursor);
    assert_eq!(f64::from_bits(node.geometry.x), 1.0);
    assert_eq!(f64::from_bits(node.geometry.width), 0.0);
    // A folder without a name is titled by its path.
    assert_eq!(report.nodes[1].window_title, "/");
    assert_eq!(report.warnings, vec!["Cursor: unsupported folder URI vscode-remote://x"]);
}

#[test]
fn editor_variants_differ() {
    assert_eq!(Variant::VSCode.bundle_id(), "com.microsoft.VSCode");
    assert_eq!(Variant::VSCode.app_name(), "Visual Studio Code");
    assert_eq!(Variant::VSCode.support_dir(), "Code");
    assert_eq!(Variant::Cursor.support_dir(), "Cursor");
    assert_eq!(Variant::VSCode.kind(), AdapterKind::VsCode);
    assert_eq!(
        unreadable_storage(Variant::VSCode, "/p", "denied"),
        "Visual Studio Code: cannot read /p: denied"
    );
    assert_eq!(bad_storage(Variant::Cursor, "eof"), "Cursor: bad storage.json: eof");
}

#[test]
fn file_uris_are_percent_decoded() {
    assert_eq!(file_uri_to_path("file:///a%20b/%E6%97%A5").as_deref(), Some("/a b/日"));
    assert_eq!(file_uri_to_path("file:///100%/x%2").as_deref(), Some("/100%/x%2"));
    assert_eq!(file_uri_to_path("file:///%ff"), None);
    assert_eq!(file_uri_to_path("http://a"), None);
    assert_eq!(file_uri_to_path("file:/"), None);
}

#[test]
fn browser_windows_clamp_their_active_tab() {
    let window = |active: i32, titles: &[&str]| ChromeWindow {
        bounds: bounds(),
        active_tab_index: active,
        tabs: titles
            .iter()
            .map(|t| BrowserTab { url: format!("https://{t}"), title: t.to_string() })
            .collect(),
    };
    assert!(chrome_node(&window(1, &[])).is_none());
    for (given, active, title) in [(2, 1, "b"), (0, 0, "a"), (-5, 0, "a"), (9, 1, "b")] {
        let node = chrome_node(&window(given, &["a", "b"])).unwrap();
        assert_eq!(node.window_title, title);
        assert_eq!(node.bundle_id, CHROME_BUNDLE_ID);
        assert_eq!(node.geometry, bounds());
        match node.payload {
            NodePayload::Browser { tabs, active_tab_index } => {
                assert_eq!((tabs.len(), active_tab_index), (2, active));
            }
            other => panic!("unexpected payload: {other:?}"),
        }
    }
}

#[test]
fn terminal_windows_are_titled_after_the_selected_tab() {
    let tab = |tty: &str, selected: bool, cwd: Option<&str>| TerminalSession {
        tty: tty.into(),
        selected,
        cwd: cwd.map(String::from),
    };
    let window = |tabs: Vec<TerminalSession>| TerminalWindow { bounds: bounds(), tabs };
    assert!(terminal_node(&window(vec![tab("", true, Some("/x"))])).is_none());
    let node = terminal_node(&window(vec![
        tab("/dev/ttys1", false, Some("/w/a")),
        tab("", true, Some("/w/ignored")),
        tab("/dev/ttys2", true, Some("/w/b/")),
        tab("/dev/ttys3", false, None),
    ]))
    .unwrap();
    assert_eq!(node.window_title, "b");
    match node.payload {
        NodePayload::Terminal { tabs } => {
            let cwds: Vec<&str> = tabs.iter().map(|t| t.cwd.as_str()).collect();
            assert_eq!(cwds, vec!["/w/a", "/w/b/", ""]);
        }
        other => panic!("unexpected payload: {other:?}"),
    }
    let plain = terminal_node(&window(vec![tab("/dev/ttys1", false, Some("/w/a"))])).unwrap();
    assert_eq!(plain.window_title, "Terminal");
}

#[test]
fn process_listings_name_the_shell_and_its_directory() {
    assert_eq!(shell_pid(&b"812\n 97 \njunk\n-3\n4294967296\n".to_vec()), Some(97));
    assert_eq!(shell_pid(&b"\n".to_vec()), None);
    assert_eq!(cwd_args(97), vec!["-a", "-p", "97", "-d", "cwd", "-Fn"]);
    let listing = b"p97\nfcwd\nn/Users/dev\nn/other\n".to_vec();
    assert_eq!(listed_directory(&listing).as_deref(), Some("/Users/dev"));
    assert_eq!(listed_directory(&b"p97\nfcwd\n".to_vec()), None);
}

fn window(pid: i32, title: &str, width: f64, height: f64, layer: i32) -> WindowInfo {
    WindowInfo {
        window_id: 1,
        owner_pid: pid,
        owner_name: "owner".into(),
        title: title.into(),
        x: 0,
        y: 0,
        width: width.to_bits(),
        height: height.to_bits(),
        layer,
    }
}

#[test]
fn generic_windows_need_size_owner_and_bundle() {
    let app = |id: &str| AppIdentity {
        bundle_id: id.into(),
        app_name: format!("App {id}"),
        bundle_path: None,
    };
    let mut identities = HashMap::new();
    identities.insert(1, app("com.a"));
    identities.insert(2, app(""));
    identities.insert(3, app(CHROME_BUNDLE_ID));
    let windows = vec![
        window(1, "doc", 100.0, 80.0, 0),
        window(1, "", 500.0, 500.0, 0),
        window(1, "thin", 99.9, 500.0, 0),
        window(1, "low", 500.0, 79.9, 0),
        window(2, "daemon", 500.0, 500.0, 0),
        window(3, "owned", 500.0, 500.0, 0),
        window(9, "unknown", 500.0, 500.0, 0),
    ];
    let mut report = empty_report();
    report.warnings.push("kept".into());
    extract_generic(&windows, &identities, &vec![CHROME_BUNDLE_ID.into()], &mut report);
    let titles: Vec<&str> = report.nodes.iter().map(|n| n.window_title.as_str()).collect();
    assert_eq!(titles, vec!["doc", "App com.a"]);
    assert_eq!(report.nodes[0].payload, NodePayload::Generic);
    assert_eq!(report.warnings, vec!["kept"]);
    assert_eq!((f64::from_bits(MIN_WIDTH), f64::from_bits(MIN_HEIGHT)), (100.0, 80.0));

    assign_ids(&mut report);
    let ids: Vec<&str> = report.nodes.iter().map(|n| n.node_id.as_str()).collect();
    assert_eq!(ids, vec!["n0", "n1"]);
}

#[test]
fn only_document_windows_are_listed() {
    let listed = vec![window(1, "a", 1.0, 1.0, 0), window(1, "menu", 1.0, 1.0, 25)];
    let kept = document_windows(&listed);
    assert_eq!(kept.len(), 1);
    assert_eq!(kept[0].title, "a");
}

#[test]
fn specialized_adapters_run_for_running_apps() {
    let running: Vec<String> =
        vec![CURSOR_BUNDLE_ID.into(), "com.other".into(), CHROME_BUNDLE_ID.into()];
    assert_eq!(specialized_running(&running), vec![CHROME_BUNDLE_ID, CURSOR_BUNDLE_ID]);
    assert_eq!(window_list_warning("x"), "window list unavailable: x");
}

#[test]
fn listed_windows_need_a_number_and_an_owner() {
    let full = ListedWindow {
        window_id: Some(7),
        owner_pid: Some(42),
        owner_name: Some("Notes".into()),
        title: Some("to do".into()),
        bounds: Some(bounds()),
        layer: Some(3),
    };
    let bare = ListedWindow {
        window_id: Some(8),
        owner_pid: Some(42),
        owner_name: None,
        title: None,
        bounds: None,
        layer: None,
    };
    let unnumbered = ListedWindow { window_id: None, ..full.clone() };
    let unowned = ListedWindow { owner_pid: None, ..full.clone() };
    let windows = list_windows(&vec![full, unnumbered, bare, unowned]);
    assert_eq!(windows.len(), 2);
    assert_eq!((windows[0].window_id, windows[0].layer), (7, 3));
    assert_eq!((windows[0].owner_name.as_str(), windows[0].title.as_str()), ("Notes", "to do"));
    assert_eq!(f64::from_bits(windows[0].width), 300.0);
    assert_eq!((windows[1].window_id, windows[1].layer), (8, 0));
    assert_eq!((windows[1].owner_name.as_str(), windows[1].title.as_str()), ("", ""));
    assert_eq!((windows[1].x, windows[1].height), (0, 0));
    assert_eq!(window_count(&windows, 42), 2);
    assert_eq!(window_count(&windows, 7), 0);
}
