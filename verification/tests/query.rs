//! Recency lists, index hits and assembled workspaces.

use temporal::query::{
    assemble_candidate, assembled_scores, assembly_cutoff, assembly_items, candidate_limit,
    hit_candidates, pick_stored, query_input, query_route, recency_candidates, shows_groups,
    source_ids, top_score, ScoredItem, ScoredWorkspace, SourceSnapshot, ASSEMBLED_SCORE_MARGIN,
    ITEM_SEARCH_POOL, MAX_ASSEMBLED_ITEMS, MIN_ASSEMBLED_SCORE,
};
use temporal::store::ItemRecord;
use temporal::types::{
    AdapterKind, BrowserTab, CandidateKind, ItemRef, NodePayload, QueryCandidate, WindowGeometry,
    WindowNode, WorkspaceGroup, WorkspaceState,
};

fn node(id: &str, urls: &[&str]) -> WindowNode {
    WindowNode {
        node_id: id.into(),
        bundle_id: "com.google.Chrome".into(),
        app_name: "Google Chrome".into(),
        window_title: String::new(),
        geometry: WindowGeometry::default(),
        adapter: AdapterKind::Chrome,
        payload: NodePayload::Browser {
            tabs: urls
                .iter()
                .map(|u| BrowserTab { url: u.to_string(), title: String::new() })
                .collect(),
            active_tab_index: 0,
        },
    }
}

fn workspace(id: &str, nodes: Vec<WindowNode>) -> WorkspaceState {
    WorkspaceState {
        workspace_id: id.into(),
        captured_at_unix_ms: 1,
        summary: String::new(),
        tags: vec![],
        nodes,
        groups: vec![],
    }
}

fn grouped(id: &str) -> WorkspaceState {
    let mut w = workspace(id, vec![node("n0", &["https://a.com", "https://b.com"])]);
    let group = |g: &str, i: i32| WorkspaceGroup {
        group_id: g.into(),
        label: g.into(),
        items: vec![ItemRef { node_id: "n0".into(), tab_index: Some(i) }],
    };
    w.groups = vec![group("g0", 0), group("g1", 1), group("g2", 9)];
    w
}

fn hit(ws: &str, tab: i64, key: &str, at: i64, score: f64) -> ScoredItem {
    ScoredItem {
        item: ItemRecord {
            workspace_id: ws.into(),
            node_id: "n0".into(),
            tab_index: Some(tab),
            kind: "tab".into(),
            dedup_key: key.into(),
            title: key.into(),
            captured_at_unix_ms: at,
        },
        score: score.to_bits(),
    }
}

fn kinds(c: &[QueryCandidate]) -> Vec<CandidateKind> {
    c.iter().map(|c| c.kind).collect()
}

fn cutoff_for(hits: &Vec<ScoredItem>) -> u64 {
    let lowered = f64::from_bits(top_score(hits)) - f64::from_bits(ASSEMBLED_SCORE_MARGIN);
    assembly_cutoff(lowered.to_bits())
}

#[test]
fn queries_route_by_text_and_embedder() {
    assert_eq!(query_route("  rust ", true).as_deref(), Some("rust"));
    assert_eq!(query_route("  rust ", false), None);
    assert_eq!(query_route(" \n", true), None);
    assert!(shows_groups("  "));
    assert!(!shows_groups("rust"));
    assert_eq!(
        query_input("rust"),
        "Represent this sentence for searching relevant passages: rust"
    );
}

#[test]
fn negative_limits_mean_nothing() {
    assert_eq!(candidate_limit(-1), 0);
    assert_eq!(candidate_limit(5), 5);
}

#[test]
fn menu_lists_groups_behind_their_snapshot() {
    let snapshots =
        vec![Some(grouped("a")), None, Some(workspace("b", vec![])), Some(grouped("c"))];
    let menu = recency_candidates(&snapshots, true, 3);
    // The undecodable snapshot is left out, the stale group too.
    assert_eq!(
        kinds(&menu),
        vec![
            CandidateKind::Workspace,
            CandidateKind::Group,
            CandidateKind::Group,
            CandidateKind::Workspace
        ]
    );
    assert_eq!(menu[1].workspace.workspace_id, "a::g0");
    assert_eq!(menu[1].source_workspace_id.as_deref(), Some("a"));
    assert_eq!(menu[0].source_workspace_id, None);
    assert!(menu.iter().all(|c| c.score == 0 && c.speculative_node_ids.is_empty()));
    // A search without an embedder lists snapshots alone.
    assert_eq!(kinds(&recency_candidates(&snapshots, false, 9)), vec![CandidateKind::Workspace; 3]);
    assert!(recency_candidates(&snapshots, true, 0).is_empty());
}

#[test]
fn single_groups_are_not_listed() {
    let mut w = grouped("a");
    w.groups.truncate(1);
    assert_eq!(recency_candidates(&vec![Some(w)], true, 5).len(), 1);
}

#[test]
fn hits_keep_their_order_and_scores() {
    let hits = vec![
        ScoredWorkspace { workspace: Some(workspace("a", vec![])), score: 0.9f64.to_bits() },
        ScoredWorkspace { workspace: None, score: 0.8f64.to_bits() },
        ScoredWorkspace { workspace: Some(workspace("b", vec![])), score: 0.7f64.to_bits() },
    ];
    let plain = hit_candidates(&hits, None);
    let scores: Vec<f64> = plain.iter().map(|c| f64::from_bits(c.score)).collect();
    assert_eq!(scores, vec![0.9, 0.7]);
    let mut synthesized = plain[1].clone();
    synthesized.kind = CandidateKind::Assembled;
    let with = hit_candidates(&hits, Some(synthesized));
    assert_eq!(
        kinds(&with),
        vec![CandidateKind::Assembled, CandidateKind::Workspace, CandidateKind::Workspace]
    );
}

#[test]
fn cutoff_is_a_floor_or_a_margin() {
    assert_eq!(f64::from_bits(MIN_ASSEMBLED_SCORE), 0.55);
    assert_eq!(f64::from_bits(ASSEMBLED_SCORE_MARGIN), 0.18);
    assert_eq!(ITEM_SEARCH_POOL, 48);
    assert_eq!(f64::from_bits(cutoff_for(&vec![])), 0.55);
    assert_eq!(f64::from_bits(cutoff_for(&vec![hit("a", 0, "k", 1, 0.6)])), 0.55);
    assert_eq!(f64::from_bits(cutoff_for(&vec![hit("a", 0, "k", 1, 0.9)])), 0.9 - 0.18);
    assert_eq!(f64::from_bits(assembly_cutoff(f64::NAN.to_bits())), 0.55);
}

#[test]
fn duplicates_keep_their_rank_and_take_the_freshest_record() {
    let hits = vec![
        hit("a", 0, "x", 10, 0.9),
        hit("a", 1, "y", 10, 0.85),
        hit("b", 0, "x", 30, 0.8),
        hit("c", 0, "x", 20, 0.79),
        hit("c", 1, "z", 20, 0.5), // below the cutoff
    ];
    let best = assembly_items(&hits, cutoff_for(&hits)).unwrap();
    let rows: Vec<(&str, &str, f64)> = best
        .iter()
        .map(|s| (s.item.dedup_key.as_str(), s.item.workspace_id.as_str(), f64::from_bits(s.score)))
        .collect();
    assert_eq!(rows, vec![("x", "b", 0.9), ("y", "a", 0.85)]);
    assert_eq!(source_ids(&best), vec!["b", "a"]);
}

#[test]
fn too_few_items_assemble_nothing() {
    let hits = vec![hit("a", 0, "x", 10, 0.9), hit("b", 0, "x", 30, 0.8)];
    assert!(assembly_items(&hits, cutoff_for(&hits)).is_none());
    let many: Vec<ScoredItem> = (0..15).map(|i| hit("a", i, &format!("k{i}"), 1, 0.9)).collect();
    assert_eq!(assembly_items(&many, cutoff_for(&many)).unwrap().len(), MAX_ASSEMBLED_ITEMS);
}

#[test]
fn assembly_merges_items_across_snapshots() {
    let items = vec![
        hit("a", 1, "x", 10, 0.9),
        hit("b", 0, "y", 10, 0.8),
        hit("a", 0, "z", 10, 0.7),
        hit("gone", 0, "w", 10, 0.7),
    ];
    let source = |id: &str, urls: &[&str]| SourceSnapshot {
        workspace_id: id.into(),
        workspace: workspace(id, vec![node("n0", urls)]),
    };
    let sources = vec![
        source("a", &["https://a0.com", "https://a1.com"]),
        source("b", &["https://b0.com"]),
    ];
    let scores: Vec<f64> =
        assembled_scores(&items, &sources).into_iter().map(f64::from_bits).collect();
    assert_eq!(scores, vec![0.9, 0.8, 0.7]);
    let mean = (scores.iter().sum::<f64>() / scores.len() as f64).to_bits();
    let c = assemble_candidate(&items, &sources, "the \"rust\" work", "virtual-1".into(), 99, mean)
        .unwrap();
    assert_eq!(c.kind, CandidateKind::Assembled);
    assert_eq!(c.score, mean);
    assert_eq!(c.workspace.workspace_id, "virtual-1");
    assert_eq!(c.workspace.captured_at_unix_ms, 99);
    assert_eq!(c.workspace.summary, "Assembled · 3 items for \"the \"rust\" work\"");
    // Both snapshots call their window "n0"; they stay two windows.
    assert_eq!(c.workspace.nodes.len(), 2);
    let ids: Vec<&str> = c.workspace.nodes.iter().map(|n| n.node_id.as_str()).collect();
    assert_eq!(ids, vec!["n0", "n1"]);
    match &c.workspace.nodes[0].payload {
        NodePayload::Browser { tabs, .. } => assert_eq!(tabs.len(), 2),
        other => panic!("unexpected payload: {other:?}"),
    }
    assert_eq!(c.workspace.tags, vec!["a0.com", "a1.com", "b0.com", "google chrome"]);
    let one = vec![items[0].clone(), items[3].clone()];
    assert!(assemble_candidate(&one, &sources, "q", "v".into(), 0, 0).is_none());
}

#[test]
fn stored_picks_are_qualified_by_their_snapshot() {
    let sources = vec![SourceSnapshot {
        workspace_id: "a".into(),
        workspace: workspace("a", vec![node("n0", &["https://a.com"])]),
    }];
    let pick = pick_stored(&hit("a", 3, "x", 1, 0.9).item, &sources).unwrap();
    assert_eq!(pick.node.node_id, "a::n0");
    assert_eq!(pick.tab_indices, Some(vec![3]));
    let mut gone = hit("a", 0, "x", 1, 0.9).item;
    gone.node_id = "n7".into();
    assert!(pick_stored(&gone, &sources).is_none());
    assert!(pick_stored(&hit("b", 0, "x", 1, 0.9).item, &sources).is_none());
}
