//! Payload limits, freeze, enrichment, rehydration and prune responses.

use temporal::grouping::items_for;
use temporal::handler::{
    apply_labels, backfilled, done, error_response, fresh_id, freeze_message, freeze_progress,
    frozen_workspace, group_contexts, node_response, prune_message, prune_plan, pruned_ids,
    rehydrate_message, stored_ms, to_workspace, unix_ms, validate_payload_size, with_groups,
    FreezeError, FreezeStage, PrunePlan, MAX_REHYDRATE_NODES, MAX_TABS_PER_NODE,
};
use temporal::rehydrate::{NodeEvent, RehydrationOutcome};
use temporal::store::StoredSnapshot;
use temporal::types::{
    AdapterKind, BrowserTab, IpcResponse, ItemRef, NodePayload, RehydrationPayload, TerminalTab,
    WindowGeometry, WindowNode, WorkspaceGroup, WorkspaceState,
};

fn browser_node(id: &str, tab_count: usize) -> WindowNode {
    WindowNode {
        node_id: id.into(),
        bundle_id: "com.google.Chrome".into(),
        app_name: "Google Chrome".into(),
        window_title: String::new(),
        geometry: WindowGeometry::default(),
        adapter: AdapterKind::Chrome,
        payload: NodePayload::Browser {
            tabs: vec![BrowserTab { url: "https://x".into(), title: String::new() }; tab_count],
            active_tab_index: 0,
        },
    }
}

fn workspace(nodes: Vec<WindowNode>) -> WorkspaceState {
    WorkspaceState {
        workspace_id: "w".into(),
        captured_at_unix_ms: 0,
        summary: String::new(),
        tags: Vec::new(),
        nodes,
        groups: Vec::new(),
    }
}

fn payload(nodes: Vec<WindowNode>) -> RehydrationPayload {
    RehydrationPayload { workspace: workspace(nodes), excluded_node_ids: Vec::new() }
}

fn tab_ref(id: &str, i: i32) -> ItemRef {
    ItemRef { node_id: id.into(), tab_index: Some(i) }
}

#[test]
fn accepts_a_normal_payload() {
    let nodes = (0..10).map(|i| browser_node(&i.to_string(), 20)).collect();
    assert!(validate_payload_size(&payload(nodes)).is_ok());
}

#[test]
fn rejects_too_many_nodes() {
    let nodes = (0..MAX_REHYDRATE_NODES + 1).map(|i| browser_node(&i.to_string(), 0)).collect();
    assert!(validate_payload_size(&payload(nodes)).is_err());
}

#[test]
fn rejects_too_many_tabs_in_one_node() {
    let node = browser_node("big", MAX_TABS_PER_NODE + 1);
    assert!(validate_payload_size(&payload(vec![node])).is_err());
}

#[test]
fn oversize_payloads_say_what_is_too_large() {
    let nodes = (0..201).map(|i| browser_node(&i.to_string(), 0)).collect();
    assert_eq!(
        validate_payload_size(&payload(nodes)),
        Err("payload has 201 nodes; maximum is 200".into())
    );
    let mut terminal = browser_node("t\"1", 0);
    terminal.payload = NodePayload::Terminal {
        tabs: vec![TerminalTab { tty: String::new(), cwd: String::new() }; 501],
    };
    assert_eq!(
        validate_payload_size(&payload(vec![browser_node("ok", 500), terminal])),
        Err("node \"t\\\"1\" has 501 tabs; maximum is 500".into())
    );
}

#[test]
fn payloads_at_the_limits_are_accepted() {
    let nodes = (0..200).map(|i| browser_node(&i.to_string(), 500)).collect();
    assert_eq!(validate_payload_size(&payload(nodes)), Ok(()));
}

#[test]
fn freezes_report_their_stages() {
    let progress = |stage: &str, detail: &str, percent: i32| IpcResponse::Progress {
        stage: stage.into(),
        detail: detail.into(),
        percent,
    };
    assert_eq!(freeze_progress(FreezeStage::Extract), progress("extract", "desktop state", 10));
    assert_eq!(
        freeze_progress(FreezeStage::Tag { windows: 7 }),
        progress("tag", "7 windows captured", 60)
    );
    assert_eq!(freeze_progress(FreezeStage::Persist), progress("persist", "", 90));
    assert_eq!(
        done(freeze_message("ws-1", 7)),
        IpcResponse::Done { message: "froze workspace ws-1 (7 windows)".into() }
    );
}

#[test]
fn failures_carry_their_code() {
    assert_eq!(FreezeError::Storage.code(), "E_STORAGE");
    assert_eq!(FreezeError::Internal.code(), "E_INTERNAL");
    assert_eq!(
        error_response("E_INVALID", "no"),
        IpcResponse::Error { code: "E_INVALID".into(), message: "no".into() }
    );
}

#[test]
fn frozen_workspaces_are_tagged_and_keep_their_nodes() {
    let nodes = vec![browser_node("n0", 2)];
    let bare = to_workspace("ws-1".into(), 5, nodes.clone());
    assert_eq!((bare.summary.as_str(), bare.tags.len(), bare.groups.len()), ("", 0, 0));
    let frozen = frozen_workspace("ws-1".into(), 5, nodes.clone());
    assert_eq!(frozen.workspace_id, "ws-1");
    assert_eq!(frozen.captured_at_unix_ms, 5);
    assert_eq!(frozen.summary, "2 browser tabs");
    assert_eq!(frozen.tags, vec!["x", "google chrome"]);
    assert_eq!(frozen.nodes, nodes);
}

#[test]
fn backfill_keeps_groups_that_are_there() {
    let ws = workspace(vec![browser_node("n0", 2)]);
    let items = items_for(&ws);
    let clusters = vec![vec![0], vec![1]];
    let grouped = with_groups(ws.clone(), &items, &clusters);
    assert_eq!(grouped.groups.len(), 2);
    assert_eq!(grouped.groups[1].group_id, "g1");
    assert_eq!(grouped.groups[1].items, vec![tab_ref("n0", 1)]);
    assert_eq!(backfilled(ws, &items, &clusters), grouped);
    assert_eq!(backfilled(grouped.clone(), &items, &vec![vec![1], vec![0]]), grouped);
}

#[test]
fn enrichment_labels_groups_by_their_members() {
    let mut ws = workspace(vec![browser_node("n0", 2)]);
    if let NodePayload::Browser { tabs, .. } = &mut ws.nodes[0].payload {
        tabs[0].title = "first".into();
        tabs[1].title = "second".into();
    }
    let group = |id: &str, items: Vec<ItemRef>| WorkspaceGroup {
        group_id: id.into(),
        label: "old".into(),
        items,
    };
    ws.groups = vec![group("g0", vec![tab_ref("n0", 1), tab_ref("n0", 0), tab_ref("gone", 0)])];
    assert_eq!(group_contexts(&ws), None);
    ws.groups.push(group("g1", vec![tab_ref("n0", 9)]));
    assert_eq!(group_contexts(&ws), Some(vec!["second\nfirst".to_string(), String::new()]));

    let labeled = apply_labels(ws.clone(), &vec!["reading".into()]);
    assert_eq!(labeled.groups[0].label, "reading");
    assert_eq!(labeled.groups[1].label, "old");
    // Ids, membership and windows stay as they were frozen.
    assert_eq!(labeled.groups[0].items, ws.groups[0].items);
    assert_eq!(labeled.groups[0].group_id, "g0");
    assert_eq!(labeled.nodes, ws.nodes);
}

#[test]
fn rehydration_reports_progress_and_results() {
    let started = |index: usize| NodeEvent::Started { index, app_name: "App".into() };
    let percents: Vec<i32> = (0..3)
        .map(|i| match node_response(started(i), 3) {
            IpcResponse::Progress { percent, .. } => percent,
            other => panic!("unexpected response: {other:?}"),
        })
        .collect();
    assert_eq!(percents, vec![0, 33, 66]);
    assert_eq!(
        node_response(started(0), 0),
        IpcResponse::Progress { stage: "launch".into(), detail: "App".into(), percent: 100 }
    );
    let finished = NodeEvent::Finished {
        index: 1,
        node_id: "n1".into(),
        app_name: "App".into(),
        ok: false,
        message: Some("no".into()),
    };
    assert_eq!(
        node_response(finished, 3),
        IpcResponse::NodeResult {
            node_id: "n1".into(),
            app_name: "App".into(),
            ok: false,
            message: Some("no".into())
        }
    );
}

#[test]
fn rehydration_sums_up_every_failure() {
    let outcome = |restored: usize, failures: &[&str]| RehydrationOutcome {
        restored,
        failures: failures.iter().map(|f| f.to_string()).collect(),
    };
    assert_eq!(rehydrate_message(&outcome(3, &[])), "rehydrated 3 windows");
    assert_eq!(
        rehydrate_message(&outcome(1, &["A: x", "B: y"])),
        "rehydrated 1 windows; 2 failed: A: x; B: y"
    );
}

#[test]
fn prune_rejects_ambiguous_request() {
    let refused = Err("prune requires exactly one of olderThanUnixMs or keepLatest".to_string());
    assert_eq!(prune_plan(None, None), refused);
    assert_eq!(prune_plan(Some(1), Some(1)), refused);
}

#[test]
fn prune_reads_exactly_one_criterion() {
    assert_eq!(prune_plan(Some(250), None), Ok(PrunePlan::OlderThan { cutoff_unix_ms: 250 }));
    assert_eq!(prune_plan(None, Some(2)), Ok(PrunePlan::KeepLatest { keep: 2 }));
    assert_eq!(prune_plan(None, Some(-2)), Ok(PrunePlan::KeepLatest { keep: 0 }));
    assert_eq!(prune_message(2), "pruned 2 workspace(s)");
}

#[test]
fn fresh_ids_are_prefixed_and_differ() {
    let a = fresh_id("ws-");
    assert!(a.starts_with("ws-"));
    assert_eq!(a.len(), 3 + 36);
    let id = a[3..].as_bytes();
    assert!([8, 13, 18, 23].iter().all(|&i| id[i] == b'-'));
    assert_eq!(id[14], b'4');
    assert!(id.iter().all(|b| matches!(b, b'0'..=b'9' | b'a'..=b'f' | b'-')));
    assert_ne!(a, fresh_id("ws-"));
}

#[test]
fn clock_readings_are_stored_as_milliseconds() {
    assert_eq!(stored_ms(Some(1752300000000)), Some(1752300000000));
    assert_eq!(stored_ms(None), None);
    let now = unix_ms().expect("a clock after 1970");
    assert!(now > 1_600_000_000_000);
}

#[test]
fn plans_drop_by_age_or_by_count() {
    let row = |id: &str, at: i64| StoredSnapshot {
        workspace_id: id.into(),
        captured_at_unix_ms: at,
    };
    let stored = vec![row("old", 100), row("mid", 200), row("new", 300)];
    let by_age = PrunePlan::OlderThan { cutoff_unix_ms: 250 };
    assert_eq!(pruned_ids(&by_age, &stored), vec!["old", "mid"]);
    let by_count = PrunePlan::KeepLatest { keep: 1 };
    assert_eq!(pruned_ids(&by_count, &stored), vec!["mid", "old"]);
    // Asked for again, either drops none of what it left.
    for plan in [by_age, by_count] {
        let dropped = pruned_ids(&plan, &stored);
        let mut left = stored.clone();
        left.retain(|s| !dropped.contains(&s.workspace_id));
        assert_eq!(left.len(), 1);
        assert!(pruned_ids(&plan, &left).is_empty());
    }
}
