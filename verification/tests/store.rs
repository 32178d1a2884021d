//! Records as they are stored.

use temporal::bundle::AppIdentity;
use temporal::grouping::items_for;
use temporal::store::{
    catalog_record, fresh_apps, gone_entries, item_record, item_records, missing_items,
    stale_by_age, stale_by_count, workspace_record, AppCatalogRecord, ItemRecord, StoredSnapshot,
    WorkspaceRecord,
};
use temporal::types::{
    AdapterKind, BrowserTab, NodePayload, WindowGeometry, WindowNode, WorkspaceState,
};

fn workspace() -> WorkspaceState {
    let node = |id: &str, payload: NodePayload| WindowNode {
        node_id: id.into(),
        bundle_id: "com.x".into(),
        app_name: "X".into(),
        window_title: "t".into(),
        geometry: WindowGeometry::default(),
        adapter: AdapterKind::Chrome,
        payload,
    };
    let tab = BrowserTab { url: "https://a.com/p#q".into(), title: "A".into() };
    WorkspaceState {
        workspace_id: "ws-1".into(),
        captured_at_unix_ms: 9,
        summary: "s".into(),
        tags: vec!["a".into(), "b\"c".into()],
        nodes: vec![
            node("n0", NodePayload::Browser { tabs: vec![tab], active_tab_index: 0 }),
            node("n1", NodePayload::Generic),
        ],
        groups: vec![],
    }
}

fn app(id: &str, name: &str) -> AppIdentity {
    AppIdentity { bundle_id: id.into(), app_name: name.into(), bundle_path: None }
}

#[test]
fn workspace_records_denormalize_summary_and_tags() {
    let w = workspace();
    assert_eq!(
        workspace_record("ws-1", 7, &w, "{}".into()),
        WorkspaceRecord {
            workspace_id: "ws-1".into(),
            captured_at_unix_ms: 7,
            summary: "s".into(),
            tags_json: "[\"a\",\"b\\\"c\"]".into(),
            payload_json: "{}".into(),
        }
    );
}

#[test]
fn item_records_point_back_at_their_item() {
    let items = items_for(&workspace());
    let expected = ItemRecord {
        workspace_id: "ws-1".into(),
        node_id: "n0".into(),
        tab_index: Some(0),
        kind: "tab".into(),
        dedup_key: "https://a.com/p".into(),
        title: "A".into(),
        captured_at_unix_ms: 9,
    };
    assert_eq!(item_record("ws-1", 9, &items[0]), expected);
    let all = item_records("ws-1", 9, &items);
    assert_eq!(all.len(), 2);
    assert_eq!(all[0], expected);
    assert_eq!(all[1].tab_index, None);
    assert_eq!(all[1].kind, "generic");
}

#[test]
fn catalog_records_carry_seed_capabilities() {
    assert_eq!(
        catalog_record(&app("com.figma.Desktop", "Figma")),
        AppCatalogRecord {
            bundle_id: "com.figma.Desktop".into(),
            app_name: "Figma".into(),
            capabilities_json: "[\"design\"]".into(),
            embed_text: "Figma design".into(),
        }
    );
    let unknown = catalog_record(&app("com.example.x", "X"));
    assert_eq!((unknown.capabilities_json.as_str(), unknown.embed_text.as_str()), ("[]", "X"));
}

#[test]
fn catalog_sync_drops_the_gone_and_adds_the_new() {
    let stored = vec!["com.a".to_string(), "com.b".to_string()];
    let installed = vec![app("com.b", "B"), app("com.c", "C")];
    assert_eq!(gone_entries(&stored, &installed), vec!["com.a"]);
    assert_eq!(fresh_apps(&stored, &installed), vec![app("com.c", "C")]);
}

fn snapshots(rows: &[(&str, i64)]) -> Vec<StoredSnapshot> {
    rows.iter()
        .map(|&(id, at)| StoredSnapshot { workspace_id: id.into(), captured_at_unix_ms: at })
        .collect()
}

/// What is left of the rows, most recent first.
fn left(rows: &[(&str, i64)], removed: &Vec<String>) -> Vec<String> {
    missing_items(&snapshots(rows), removed)
}

#[test]
fn list_orders_by_recency() {
    let rows = [("old", 100), ("new", 300), ("mid", 200)];
    assert_eq!(left(&rows, &vec![]), vec!["new", "mid", "old"]);
}

#[test]
fn prune_older_than_deletes_matching_and_returns_count() {
    let rows = [("old", 100), ("mid", 200), ("new", 300)];
    let removed = stale_by_age(&snapshots(&rows), 250);
    assert_eq!(removed.len(), 2);
    assert_eq!(left(&rows, &removed), vec!["new"]);
}

#[test]
fn prune_keep_latest_keeps_n_most_recent() {
    let rows = [("oldest", 100), ("mid", 200), ("newest", 300)];
    let removed = stale_by_count(&snapshots(&rows), 2);
    assert_eq!(removed.len(), 1);
    assert_eq!(left(&rows, &removed), vec!["newest", "mid"]);
}

#[test]
fn prune_keep_latest_is_a_noop_when_under_the_limit() {
    let rows = [("a", 100), ("b", 200)];
    let removed = stale_by_count(&snapshots(&rows), 10);
    assert_eq!(removed.len(), 0);
    assert_eq!(left(&rows, &removed).len(), 2);
}

#[test]
fn missing_items_worklist_shrinks_as_items_land() {
    let rows = snapshots(&[("a", 100), ("b", 200)]);
    assert_eq!(missing_items(&rows, &vec![]), vec!["b", "a"]);
    assert_eq!(missing_items(&rows, &vec!["b".to_string()]), vec!["a"]);
}

#[test]
fn pruning_is_exact_at_its_bounds() {
    let rows = snapshots(&[("a", 100), ("b", 300), ("c", 100), ("d", 200)]);
    assert_eq!(stale_by_age(&rows, 200), vec!["a", "c"]);
    assert!(stale_by_age(&rows, i64::MIN).is_empty());
    assert_eq!(stale_by_count(&rows, 0), vec!["b", "d", "a", "c"]);
    assert_eq!(stale_by_count(&rows, 3), vec!["c"]);
    assert!(stale_by_count(&vec![], 0).is_empty());
}

#[test]
fn pruning_again_removes_none() {
    let rows = [("a", 100), ("b", 300), ("c", 100), ("d", 200)];
    let without = |removed: &Vec<String>| -> Vec<StoredSnapshot> {
        snapshots(&rows).into_iter().filter(|s| !removed.contains(&s.workspace_id)).collect()
    };
    for keep in 0..6 {
        let left = without(&stale_by_count(&snapshots(&rows), keep));
        assert_eq!(left.len(), keep.min(4));
        assert!(stale_by_count(&left, keep).is_empty());
    }
    let left = without(&stale_by_age(&snapshots(&rows), 200));
    assert_eq!(left.len(), 2);
    assert!(stale_by_age(&left, 200).is_empty());
}
