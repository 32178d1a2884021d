//! Heuristic tags, summaries and the text a workspace is embedded as.

use temporal::tagging::{
    apply_llm_tags, base_name, derive_summary, derive_tags, embedding_text, enrich, url_host,
    MAX_MERGED_TAGS, MAX_TAGS,
};
use temporal::types::{
    AdapterKind, BrowserTab, NodePayload, TerminalTab, WindowGeometry, WindowNode, WorkspaceState,
};

fn browser_node(urls: &[(&str, &str)]) -> WindowNode {
    WindowNode {
        node_id: "n0".into(),
        bundle_id: "com.google.Chrome".into(),
        app_name: "Google Chrome".into(),
        window_title: "tabs".into(),
        geometry: WindowGeometry::default(),
        adapter: AdapterKind::Chrome,
        payload: NodePayload::Browser {
            tabs: urls
                .iter()
                .map(|(u, t)| BrowserTab { url: u.to_string(), title: t.to_string() })
                .collect(),
            active_tab_index: 0,
        },
    }
}

fn generic_node(app: &str) -> WindowNode {
    WindowNode {
        node_id: "n3".into(),
        bundle_id: "com.apple.finder".into(),
        app_name: app.into(),
        window_title: String::new(),
        geometry: WindowGeometry::default(),
        adapter: AdapterKind::Generic,
        payload: NodePayload::Generic,
    }
}

fn workspace(nodes: Vec<WindowNode>) -> WorkspaceState {
    WorkspaceState {
        workspace_id: "ws".into(),
        captured_at_unix_ms: 0,
        summary: String::new(),
        tags: vec![],
        nodes,
        groups: vec![],
    }
}

fn rich() -> WorkspaceState {
    workspace(vec![
        browser_node(&[
            ("https://fable.io/docs/", "Fable docs"),
            ("https://github.com/fable-compiler/Fable", "GitHub"),
        ]),
        WindowNode {
            node_id: "n1".into(),
            bundle_id: "com.apple.Terminal".into(),
            app_name: "Terminal".into(),
            window_title: "temporal".into(),
            geometry: WindowGeometry::default(),
            adapter: AdapterKind::TerminalApp,
            payload: NodePayload::Terminal {
                tabs: vec![TerminalTab {
                    tty: "/dev/ttys003".into(),
                    cwd: "/Users/dev/temporal".into(),
                }],
            },
        },
        WindowNode {
            node_id: "n2".into(),
            bundle_id: "com.microsoft.VSCode".into(),
            app_name: "Visual Studio Code".into(),
            window_title: "temporal".into(),
            geometry: WindowGeometry::default(),
            adapter: AdapterKind::VsCode,
            payload: NodePayload::Editor {
                folder_path: "/Users/dev/temporal".into(),
                open_files: vec![],
            },
        },
        generic_node("Finder"),
    ])
}

#[test]
fn rich_workspace_derives_project_host_and_app_tags() {
    let tags = derive_tags(&rich());
    assert!(tags.contains(&"temporal".to_string()));
    assert!(tags.contains(&"fable.io".to_string()));
    assert!(tags.contains(&"github.com".to_string()));
    assert!(tags.contains(&"finder".to_string()));
    let mut deduped = tags.clone();
    deduped.dedup();
    assert_eq!(tags.len(), deduped.len());
}

#[test]
fn summary_mentions_projects_and_tab_count() {
    let summary = derive_summary(&rich());
    assert!(summary.contains("temporal"));
    assert!(summary.contains("2 browser tabs"));
    assert!(summary.contains("Finder"));
}

#[test]
fn empty_workspace_summary_and_tags() {
    let empty = workspace(vec![]);
    assert_eq!(derive_summary(&empty), "empty workspace");
    assert!(derive_tags(&empty).is_empty());
}

#[test]
fn enrich_fills_tags_and_summary_without_touching_nodes() {
    let before = rich();
    let after = enrich(before.clone());
    assert!(!after.tags.is_empty());
    assert!(!after.summary.is_empty());
    assert_eq!(before.nodes, after.nodes);
}

#[test]
fn apply_llm_tags_replaces_summary_and_merges_tags() {
    let base = enrich(rich());
    let heuristic_count = base.tags.len();
    let out = apply_llm_tags("Working on temporal", &vec!["Fable".into(), "temporal".into()], base);
    assert_eq!(out.summary, "Working on temporal");
    assert!(out.tags.contains(&"fable".to_string()));
    // "temporal" already present: merged without duplication.
    assert_eq!(out.tags.len(), heuristic_count + 1);
}

#[test]
fn empty_llm_summary_keeps_heuristic_one() {
    let base = enrich(rich());
    let summary = base.summary.clone();
    let out = apply_llm_tags("", &vec![], base);
    assert_eq!(out.summary, summary);
}

#[test]
fn hosts_strip_www_and_ports() {
    let ws = workspace(vec![browser_node(&[
        ("https://www.example.com/x", ""),
        ("http://localhost:3000/", ""),
    ])]);
    let tags = derive_tags(&ws);
    assert!(tags.contains(&"example.com".to_string()));
    assert!(tags.contains(&"localhost".to_string()));
}

#[test]
fn embedding_text_leads_with_summary_and_tags() {
    let ws = enrich(rich());
    let text = embedding_text(&ws);
    let first_line = text.lines().next().unwrap();
    assert_eq!(first_line, ws.summary);
    assert!(text.contains("fable.io"));
    assert!(text.contains("/Users/dev/temporal"));
}

#[test]
fn tags_come_in_priority_order() {
    assert_eq!(
        derive_tags(&rich()),
        vec![
            "temporal",
            "fable.io",
            "github.com",
            "google chrome",
            "terminal",
            "visual studio code",
            "finder"
        ]
    );
    assert_eq!(derive_summary(&rich()), "temporal · 2 browser tabs · Finder");
}

#[test]
fn one_tab_is_singular_and_apps_stop_at_four() {
    let mut nodes = vec![browser_node(&[("https://a.com", "a")])];
    nodes.extend(["A", "B", "C", "D", "E"].map(generic_node));
    assert_eq!(derive_summary(&workspace(nodes)), "1 browser tab · A · B · C · D");
}

#[test]
fn tags_are_capped_before_and_after_merging() {
    let names: Vec<String> = (0..40).map(|i| format!("App{i}")).collect();
    let ws = workspace(names.iter().map(|n| generic_node(n)).collect());
    let base = enrich(ws);
    assert_eq!(base.tags.len(), MAX_TAGS);
    let heuristic = base.tags.clone();
    let out = apply_llm_tags("", &(0..40).map(|i| format!("T{i}")).collect(), base);
    assert_eq!(out.tags.len(), MAX_MERGED_TAGS);
    // Generated tags never displace derived ones.
    assert_eq!(out.tags[..MAX_TAGS], heuristic[..]);
    assert_eq!(out.tags[MAX_TAGS], "t0");
}

#[test]
fn url_hosts_and_base_names() {
    assert_eq!(url_host("https://www.example.com:8080/x/y"), "example.com");
    assert_eq!(url_host("https://example.com"), "example.com");
    assert_eq!(url_host("example.com/x"), "");
    assert_eq!(url_host("about:blank"), "");
    assert_eq!(url_host("https://"), "");
    assert_eq!(base_name("/Users/dev/temporal/"), "temporal");
    assert_eq!(base_name("temporal"), "temporal");
    assert_eq!(base_name("/"), "");
    assert_eq!(base_name(""), "");
}

#[test]
fn lowercasing_is_unicode() {
    let tags = derive_tags(&workspace(vec![generic_node("ÉDITEUR")]));
    assert_eq!(tags, vec!["éditeur"]);
}
