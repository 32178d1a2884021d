//! Rehydration rules: allowlists, per-node plans, outcomes and dry runs.

use temporal::rehydrate::{
    bundle_is_installed, editor_file_args, editor_open_args, editor_result, finished,
    installed_query, is_allowed_url, launch_result, looks_like_bundle_id, no_outcome,
    pid_for_bundle, preflight_node, rehydrate_node, require_installed, retries_placement,
    started, uri_scheme, wants_placement, NodeEvent, NodePlan,
};
use temporal::types::{
    AdapterKind, BrowserTab, NodePayload, TerminalTab, WindowGeometry, WindowNode,
};

fn node(payload: NodePayload) -> WindowNode {
    WindowNode {
        node_id: "n1".into(),
        bundle_id: "com.apple.Terminal".into(),
        app_name: "Terminal".into(),
        window_title: String::new(),
        geometry: WindowGeometry::default(),
        adapter: AdapterKind::Generic,
        payload,
    }
}

fn browser(urls: &[&str], active: i32) -> WindowNode {
    node(NodePayload::Browser {
        tabs: urls
            .iter()
            .map(|u| BrowserTab { url: u.to_string(), title: String::new() })
            .collect(),
        active_tab_index: active,
    })
}

#[test]
fn uri_scheme_extracts_and_lowercases() {
    assert_eq!(uri_scheme("HTTPS://example.com").as_deref(), Some("https"));
    assert_eq!(uri_scheme("chrome-extension://abc/x").as_deref(), Some("chrome-extension"));
}

#[test]
fn uri_scheme_rejects_no_or_malformed_scheme() {
    assert_eq!(uri_scheme("example.com/path"), None); // no colon
    assert_eq!(uri_scheme(" javascript:alert(1)"), None); // leading space, no valid scheme
    assert_eq!(uri_scheme("1http://x"), None); // scheme must start with a letter
    assert_eq!(uri_scheme("//host/path"), None);
}

#[test]
fn allowed_url_permits_web_and_chrome_schemes() {
    assert!(is_allowed_url("https://example.com"));
    assert!(is_allowed_url("http://example.com"));
    assert!(is_allowed_url("chrome://newtab"));
    assert!(is_allowed_url("about:blank"));
}

#[test]
fn allowed_url_rejects_dangerous_schemes() {
    assert!(!is_allowed_url("file:///etc/passwd"));
    assert!(!is_allowed_url("javascript:alert(1)"));
    assert!(!is_allowed_url("data:text/html,<script>x</script>"));
    assert!(!is_allowed_url(" javascript:alert(1)"));
    assert!(!is_allowed_url("example.com")); // no scheme at all
}

#[test]
fn looks_like_bundle_id_accepts_real_ids() {
    assert!(looks_like_bundle_id("com.google.Chrome"));
    assert!(looks_like_bundle_id("com.todesktop.230313mzl4w4u92"));
    assert!(looks_like_bundle_id("com.apple.Terminal"));
}

#[test]
fn looks_like_bundle_id_rejects_injection_shapes() {
    assert!(!looks_like_bundle_id("")); // empty
    assert!(!looks_like_bundle_id("-a")); // flag shape
    assert!(!looks_like_bundle_id("noDotHere")); // not reverse-DNS
    assert!(!looks_like_bundle_id("com.evil'; rm -rf")); // quote + space
    assert!(!looks_like_bundle_id("com.foo bar")); // space
}

#[test]
fn browser_plans_drop_disallowed_tabs() {
    assert_eq!(rehydrate_node(&browser(&[], 0)), Ok(NodePlan::Nothing));
    assert_eq!(
        rehydrate_node(&browser(&["https://a", "file:///x", "about:blank"], 2)),
        Ok(NodePlan::Chrome {
            urls: vec!["https://a".into(), "about:blank".into()],
            active: 2
        })
    );
    assert_eq!(
        rehydrate_node(&browser(&["file:///x", "javascript:1"], 0)),
        Err("all 2 tab(s) had a disallowed URL scheme".into())
    );
}

#[test]
fn other_plans_follow_their_payload() {
    let tab = |cwd: &str| TerminalTab { tty: "/dev/ttys1".into(), cwd: cwd.into() };
    let terminal = NodePayload::Terminal { tabs: vec![tab("/a"), tab(""), tab("/b")] };
    assert_eq!(
        rehydrate_node(&node(terminal)),
        Ok(NodePlan::Terminal { cwds: vec!["/a".into(), "/b".into()] })
    );
    let editor =
        NodePayload::Editor { folder_path: "/w".into(), open_files: vec!["/w/a.rs".into()] };
    assert_eq!(
        rehydrate_node(&node(editor)),
        Ok(NodePlan::Editor {
            app_name: "Terminal".into(),
            folder_path: "/w".into(),
            open_files: vec!["/w/a.rs".into()]
        })
    );
    assert_eq!(
        rehydrate_node(&node(NodePayload::Generic)),
        Ok(NodePlan::Generic { bundle_id: "com.apple.Terminal".into() })
    );
    let mut odd = node(NodePayload::Generic);
    odd.bundle_id = "com.evil'\n".into();
    assert_eq!(
        rehydrate_node(&odd),
        Err("\"com.evil'\\n\" is not a valid bundle id".into())
    );
}

#[test]
fn launch_arguments_end_options_before_paths() {
    assert_eq!(editor_open_args("Cursor", "-rf"), vec!["-a", "Cursor", "--", "-rf"]);
    assert_eq!(
        editor_file_args("Cursor", &vec!["-a.rs".into()]),
        vec!["-a", "Cursor", "-g", "--", "-a.rs"]
    );
    assert_eq!(installed_query("com.a"), "kMDItemCFBundleIdentifier == 'com.a'");
}

#[test]
fn launch_outcomes_say_what_failed() {
    assert_eq!(editor_result("Cursor", true, "exit status: 0"), Ok(()));
    assert_eq!(
        editor_result("Cursor", false, "exit status: 1"),
        Err("open -a Cursor exited with exit status: 1".into())
    );
    assert_eq!(require_installed("com.a", true), Ok(()));
    assert_eq!(require_installed("com.a", false), Err("com.a is not installed".into()));
    assert_eq!(launch_result(true, &vec![]), Ok(()));
    assert_eq!(
        launch_result(false, &b" no such app\n".to_vec()),
        Err("launch failed: no such app".into())
    );
}

#[test]
fn spotlight_answers_decide_installation() {
    assert!(bundle_is_installed(Some(b"/Applications/A.app\n".to_vec())));
    assert!(!bundle_is_installed(Some(b" \n".to_vec())));
    // No answer doesn't block the launch.
    assert!(bundle_is_installed(None));
}

#[test]
fn placement_needs_geometry_and_a_grant() {
    let mut g = WindowGeometry::default();
    assert!(!wants_placement(&g, true));
    g.width = 10.0f64.to_bits();
    assert!(wants_placement(&g, true));
    assert!(!wants_placement(&g, false));
    g.width = (-10.0f64).to_bits();
    assert!(!wants_placement(&g, true));
}

#[test]
fn first_process_of_a_bundle_is_found() {
    let ids: Vec<String> = vec!["com.a".into(), "com.b".into(), "com.b".into()];
    assert_eq!(pid_for_bundle(&vec![1, 2, 3], &ids, "com.b"), Some(2));
    assert_eq!(pid_for_bundle(&vec![1, 2, 3], &ids, "com.c"), None);
}

#[test]
fn failures_do_not_stop_the_rest() {
    let n = node(NodePayload::Generic);
    let mut outcome = no_outcome();
    assert_eq!(started(0, &n), NodeEvent::Started { index: 0, app_name: "Terminal".into() });
    let failed = finished(&mut outcome, 0, &n, Err("boom".into()));
    assert_eq!(
        failed,
        NodeEvent::Finished {
            index: 0,
            node_id: "n1".into(),
            app_name: "Terminal".into(),
            ok: false,
            message: Some("boom".into())
        }
    );
    let restored = finished(&mut outcome, 1, &n, Ok(()));
    assert!(matches!(restored, NodeEvent::Finished { index: 1, ok: true, message: None, .. }));
    assert_eq!(outcome.restored, 1);
    assert_eq!(outcome.failures, vec!["Terminal: boom"]);
}

#[test]
fn previews_report_what_would_happen() {
    let plain = preflight_node(&node(NodePayload::Generic), true, false);
    assert_eq!(plain.node_id, "n1");
    assert!(plain.installed && !plain.geometry_clamped);
    assert_eq!((plain.total_tabs, plain.skipped_tabs, plain.issues.len()), (0, 0, 0));

    let mixed = preflight_node(&browser(&["https://a", "file:///x"], 0), false, true);
    assert_eq!((mixed.total_tabs, mixed.skipped_tabs), (2, 1));
    assert_eq!(
        mixed.issues,
        vec![
            "com.apple.Terminal is not installed",
            "window will be moved onto an active display",
            "1 tab(s) will be skipped"
        ]
    );
    let refused = preflight_node(&browser(&["file:///x"], 0), true, false);
    assert_eq!(refused.issues, vec!["all 1 tab(s) had a disallowed URL scheme"]);
}

#[test]
fn placement_is_tried_three_times() {
    assert!(retries_placement(false, 0));
    assert!(retries_placement(false, 1));
    assert!(!retries_placement(false, 2));
    assert!(!retries_placement(true, 0));
}

#[test]
fn active_tab_is_selected_among_the_kept() {
    let selected = |urls: &[&str], active: i32| match rehydrate_node(&browser(urls, active)) {
        Ok(NodePlan::Chrome { urls, active }) => urls[(active - 1) as usize].clone(),
        other => panic!("unexpected plan: {other:?}"),
    };
    let tabs = ["file:///x", "https://a.com", "https://b.com"];
    assert_eq!(selected(&tabs, 1), "https://a.com");
    assert_eq!(selected(&tabs, 2), "https://b.com");
    assert_eq!(selected(&tabs, 3), "https://b.com");
    assert_eq!(selected(&tabs, i32::MAX), "https://b.com");
}

#[test]
fn dropped_active_tab_leaves_its_place() {
    let active = |urls: &[&str], active: i32| match rehydrate_node(&browser(urls, active)) {
        Ok(NodePlan::Chrome { active, .. }) => active,
        other => panic!("unexpected plan: {other:?}"),
    };
    // The last of what is left, where fewer are left.
    assert_eq!(active(&["https://a.com", "https://b.com", "file:///x"], 2), 2);
    assert_eq!(active(&["https://a.com", "file:///x", "https://b.com"], 1), 2);
    assert_eq!(active(&["file:///x", "https://a.com", "https://b.com"], 0), 1);
    // A negative index selects none.
    assert_eq!(active(&["https://a.com"], -1), 0);
    assert_eq!(active(&["https://a.com"], i32::MIN), i32::MIN as i64 + 1);
}
