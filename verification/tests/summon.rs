//! Workspaces composed for an intent.

use temporal::grouping::{items_for, NodePick};
use temporal::query::{ScoredItem, SourceSnapshot};
use temporal::store::{AppCatalogRecord, ItemRecord};
use temporal::summon::{
    best_score, catalog_launch_picks, compose_summoned, history_picks, live_pick, live_picks,
    select_item_picks, ScoredApp, ScoredPick, CATALOG_SEARCH_POOL, SUMMON_ITEM_MARGIN,
    SUMMON_MAX_CATALOG_PICKS, SUMMON_MIN_ITEM_SCORE, SUMMON_WORKSPACE_ALTERNATES,
};
use temporal::types::{
    AdapterKind, CandidateKind, ItemRef, NodePayload, WindowGeometry, WindowNode, WorkspaceState,
};

fn generic_node(id: &str) -> WindowNode {
    WindowNode {
        node_id: id.into(),
        bundle_id: "com.example.app".into(),
        app_name: "App".into(),
        window_title: String::new(),
        geometry: WindowGeometry::default(),
        adapter: AdapterKind::Generic,
        payload: NodePayload::Generic,
    }
}

fn scored(score: f64, from_live: bool, key: &str, id: &str) -> ScoredPick {
    ScoredPick {
        score: score.to_bits(),
        from_live,
        dedup_key: key.into(),
        pick: NodePick { node: generic_node(id), tab_indices: None },
    }
}

fn select(pool: Vec<ScoredPick>) -> Vec<NodePick> {
    let lowered = f64::from_bits(best_score(&pool)) - f64::from_bits(SUMMON_ITEM_MARGIN);
    select_item_picks(&pool, lowered.to_bits())
}

fn live_workspace() -> WorkspaceState {
    WorkspaceState {
        workspace_id: "live".into(),
        captured_at_unix_ms: 0,
        summary: String::new(),
        tags: vec![],
        nodes: vec![generic_node("n0"), generic_node("n1")],
        groups: vec![],
    }
}

fn app(id: &str, caps: &str, score: f64) -> ScoredApp {
    ScoredApp {
        record: AppCatalogRecord {
            bundle_id: id.into(),
            app_name: format!("App {id}"),
            capabilities_json: caps.into(),
            embed_text: String::new(),
        },
        score: score.to_bits(),
    }
}

#[test]
fn select_item_picks_prefers_live_and_thresholds() {
    let pool = vec![
        scored(0.90, false, "A", "hist-a"), // historical A, high score
        scored(0.72, true, "A", "live-a"),  // live A: wins dedup despite lower score
        scored(0.80, false, "B", "hist-b"), // within margin of the top
        scored(0.40, false, "C", "hist-c"), // below the relevance floor: dropped
    ];
    let picks = select(pool);
    let ids: Vec<&str> = picks.iter().map(|p| p.node.node_id.as_str()).collect();
    // B (0.80) leads; A resolves to its live copy (0.72); C falls below the
    // cutoff = max(0.62, 0.80 - 0.12) = 0.68.
    assert_eq!(ids, vec!["hist-b", "live-a"]);
}

#[test]
fn pools_settle_by_score_among_equals_and_are_capped() {
    let mut pool = vec![scored(0.7, true, "A", "first"), scored(0.9, true, "A", "second")];
    pool.push(scored(0.9, false, "A", "historical"));
    assert_eq!(select(pool)[0].node.node_id, "second");
    let many: Vec<ScoredPick> =
        (0..14).map(|i| scored(0.8, false, &i.to_string(), &i.to_string())).collect();
    let ids: Vec<String> = select(many).into_iter().map(|p| p.node.node_id).collect();
    assert_eq!(ids, vec!["0", "1", "2", "3", "4", "5", "6", "7", "8", "9"]);
    assert!(select(vec![]).is_empty());
    assert_eq!(best_score(&vec![]), 0);
}

#[test]
fn summon_thresholds_are_the_documented_ones() {
    assert_eq!(f64::from_bits(SUMMON_MIN_ITEM_SCORE), 0.62);
    assert_eq!(f64::from_bits(SUMMON_ITEM_MARGIN), 0.12);
    assert_eq!(
        (SUMMON_WORKSPACE_ALTERNATES, CATALOG_SEARCH_POOL, SUMMON_MAX_CATALOG_PICKS),
        (5, 24, 3)
    );
}

#[test]
fn live_items_are_qualified_and_scored() {
    let ws = live_workspace();
    let items = items_for(&ws);
    let pool = live_picks(&ws, &items, &vec![0.7f64.to_bits(), 0.9f64.to_bits()]);
    assert_eq!(pool.len(), 2);
    assert_eq!(pool[1].pick.node.node_id, "live::n1");
    assert!(pool[1].from_live);
    assert_eq!(f64::from_bits(pool[1].score), 0.9);
    assert_eq!(pool[0].dedup_key, items[0].dedup_key);
    assert!(live_pick(&ws, &ItemRef { node_id: "gone".into(), tab_index: None }).is_none());
}

#[test]
fn history_items_resolve_against_their_snapshot() {
    let item = |ws: &str| ScoredItem {
        item: ItemRecord {
            workspace_id: ws.into(),
            node_id: "n1".into(),
            tab_index: None,
            kind: "generic".into(),
            dedup_key: "k".into(),
            title: String::new(),
            captured_at_unix_ms: 0,
        },
        score: 0.8f64.to_bits(),
    };
    let sources =
        vec![SourceSnapshot { workspace_id: "a".into(), workspace: live_workspace() }];
    let pool = history_picks(&vec![item("a"), item("b")], &sources);
    assert_eq!(pool.len(), 1);
    assert_eq!(pool[0].pick.node.node_id, "a::n1");
    assert!(!pool[0].from_live);
}

#[test]
fn launches_skip_what_is_present_and_decode_capabilities() {
    let found = vec![
        app("com.a", "[\"design\"]", 0.5),
        app("com.b", "[\"design\"]", 0.6),
        app("com.c", "broken", 0.9),
        app("com.d", "[\"editor\"]", 0.7),
    ];
    let picks = catalog_launch_picks(&found, &vec!["design".into()], &vec!["com.b".into()]);
    let ids: Vec<&str> = picks.iter().map(|c| c.bundle_id.as_str()).collect();
    assert_eq!(ids, vec!["com.a", "com.d"]);
}

#[test]
fn summoned_workspaces_hold_windows_and_marked_launches() {
    let picks = vec![NodePick { node: generic_node("live::n0"), tab_indices: None }];
    let found = vec![
        app("com.example.app", "[\"design\"]", 0.9), // its window is already there
        app("com.running", "[\"design\"]", 0.9),
        app("com.figma.Desktop", "[\"design\"]", 0.5),
    ];
    let c = compose_summoned(
        picks,
        &vec!["com.running".into()],
        &found,
        &vec!["design".into()],
        "work on the UI",
        "summoned-1".into(),
        7,
    )
    .unwrap();
    assert_eq!(c.kind, CandidateKind::Summoned);
    assert_eq!(c.score, 0);
    assert_eq!(c.workspace.workspace_id, "summoned-1");
    assert_eq!(c.workspace.summary, "Summoned for \"work on the UI\" · 1 items, 1 apps to open");
    assert_eq!(c.workspace.nodes.len(), 2);
    assert_eq!(c.workspace.nodes[0].node_id, "n0");
    assert_eq!(c.workspace.nodes[1].node_id, "n1");
    assert_eq!(c.workspace.nodes[1].bundle_id, "com.figma.Desktop");
    assert_eq!(c.workspace.nodes[1].payload, NodePayload::Generic);
    assert_eq!(c.speculative_node_ids, vec!["n1"]);
    assert_eq!(c.workspace.tags, vec!["app", "app com.figma.desktop"]);
}

#[test]
fn summons_without_launches_or_without_anything() {
    let picks = vec![NodePick { node: generic_node("live::n0"), tab_indices: None }];
    let c = compose_summoned(picks, &vec![], &vec![], &vec![], "x", "s".into(), 0).unwrap();
    assert_eq!(c.workspace.summary, "Summoned for \"x\" · 1 items");
    assert!(c.speculative_node_ids.is_empty());
    assert!(compose_summoned(vec![], &vec![], &vec![], &vec![], "x", "s".into(), 0).is_none());
}
