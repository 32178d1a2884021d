//! Which nodes survive the staging exclusions.

use temporal::planning::included_nodes;
use temporal::types::{AdapterKind, NodePayload, WindowGeometry, WindowNode, WorkspaceState};

fn node(id: &str) -> WindowNode {
    WindowNode {
        node_id: id.into(),
        bundle_id: String::new(),
        app_name: String::new(),
        window_title: String::new(),
        geometry: WindowGeometry::default(),
        adapter: AdapterKind::Generic,
        payload: NodePayload::Generic,
    }
}

fn three() -> WorkspaceState {
    WorkspaceState {
        workspace_id: "ws".into(),
        captured_at_unix_ms: 0,
        summary: String::new(),
        tags: vec![],
        nodes: vec![node("n0"), node("n1"), node("n2")],
        groups: vec![],
    }
}

#[test]
fn drops_excluded_and_ignores_stale_ids() {
    let included = included_nodes(&three(), &vec!["n1".into(), "ghost".into()]);
    let ids: Vec<&str> = included.iter().map(|n| n.node_id.as_str()).collect();
    assert_eq!(ids, vec!["n0", "n2"]);
}

#[test]
fn no_exclusion_keeps_every_node() {
    assert_eq!(included_nodes(&three(), &vec![]), three().nodes);
}
