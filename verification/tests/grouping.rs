//! Items, clusters, groups and synthesized nodes. Similarities of vectors are
//! computed here; every decision is the library's.

use temporal::grouping::{
    build_groups, cluster_pairs, finish_clusters, heuristic_group_label, initial_clusters,
    items_for, materialize_group, merge_closest, strip_fragment, synthesize_nodes, ItemKind,
    NodePick, WorkspaceItem, GROUP_SIMILARITY_THRESHOLD, MAX_GROUPS,
};
use temporal::tagging::base_name;
use temporal::types::{
    AdapterKind, BrowserTab, ItemRef, NodePayload, TerminalTab, WindowGeometry, WindowNode,
    WorkspaceGroup, WorkspaceState,
};

fn browser_node(id: &str, tabs: &[(&str, &str)], active: i32) -> WindowNode {
    WindowNode {
        node_id: id.into(),
        bundle_id: "com.google.Chrome".into(),
        app_name: "Google Chrome".into(),
        window_title: "tabs".into(),
        geometry: WindowGeometry::default(),
        adapter: AdapterKind::Chrome,
        payload: NodePayload::Browser {
            tabs: tabs
                .iter()
                .map(|(url, title)| BrowserTab { url: url.to_string(), title: title.to_string() })
                .collect(),
            active_tab_index: active,
        },
    }
}

fn terminal_node(id: &str, cwds: &[&str]) -> WindowNode {
    WindowNode {
        node_id: id.into(),
        bundle_id: "com.apple.Terminal".into(),
        app_name: "Terminal".into(),
        window_title: String::new(),
        geometry: WindowGeometry::default(),
        adapter: AdapterKind::TerminalApp,
        payload: NodePayload::Terminal {
            tabs: cwds
                .iter()
                .map(|cwd| TerminalTab { tty: "/dev/ttys001".into(), cwd: cwd.to_string() })
                .collect(),
        },
    }
}

fn editor_node(id: &str, folder: &str) -> WindowNode {
    WindowNode {
        node_id: id.into(),
        bundle_id: "com.microsoft.VSCode".into(),
        app_name: "Visual Studio Code".into(),
        window_title: base_name(folder),
        geometry: WindowGeometry::default(),
        adapter: AdapterKind::VsCode,
        payload: NodePayload::Editor { folder_path: folder.into(), open_files: vec![] },
    }
}

fn generic_node(id: &str, app: &str, title: &str) -> WindowNode {
    WindowNode {
        node_id: id.into(),
        bundle_id: format!("com.example.{app}"),
        app_name: app.into(),
        window_title: title.into(),
        geometry: WindowGeometry::default(),
        adapter: AdapterKind::Generic,
        payload: NodePayload::Generic,
    }
}

fn workspace(nodes: Vec<WindowNode>) -> WorkspaceState {
    WorkspaceState {
        workspace_id: "ws".into(),
        captured_at_unix_ms: 42,
        summary: String::new(),
        tags: vec![],
        nodes,
        groups: vec![],
    }
}

/// Unit vector along one of four orthogonal axes, nudged by `jitter`
/// within the axis pair so same-family vectors are similar but unequal.
fn axis_vec(axis: usize, jitter: f32) -> Vec<f32> {
    let mut v = vec![0.0f32; 8];
    v[axis * 2] = 1.0;
    v[axis * 2 + 1] = jitter;
    let norm = (1.0 + jitter * jitter).sqrt();
    v.iter().map(|x| x / norm).collect()
}

fn average(embeddings: &[Vec<f32>], a: &[usize], b: &[usize]) -> f32 {
    let mut total = 0.0f32;
    for &i in a {
        for &j in b {
            total += embeddings[i].iter().zip(&embeddings[j]).map(|(x, y)| x * y).sum::<f32>();
        }
    }
    total / (a.len() * b.len()) as f32
}

fn cluster(embeddings: &[Vec<f32>], threshold: f32) -> Vec<Vec<usize>> {
    cluster_at(embeddings, (threshold as f64).to_bits())
}

fn cluster_at(embeddings: &[Vec<f32>], threshold: u64) -> Vec<Vec<usize>> {
    let mut clusters = initial_clusters(embeddings.len());
    loop {
        let averages: Vec<u64> = cluster_pairs(clusters.len())
            .iter()
            .map(|&(i, j)| (average(embeddings, &clusters[i], &clusters[j]) as f64).to_bits())
            .collect();
        if !merge_closest(&mut clusters, &averages, threshold) {
            return finish_clusters(clusters);
        }
    }
}

fn groups_for(items: &Vec<WorkspaceItem>, embeddings: &[Vec<f32>]) -> Vec<WorkspaceGroup> {
    build_groups(items, &cluster_at(embeddings, GROUP_SIMILARITY_THRESHOLD))
}

#[test]
fn items_for_splits_chrome_tabs_and_keeps_others_atomic() {
    let ws = workspace(vec![
        browser_node(
            "n0",
            &[("https://github.com/a/b", "repo"), ("https://docs.rs/serde#derive", "serde")],
            1,
        ),
        terminal_node("n1", &["/Users/dev/temporal", "/Users/dev/temporal"]),
        editor_node("n2", "/Users/dev/temporal"),
        generic_node("n3", "Spotify", "liked songs"),
    ]);
    let items = items_for(&ws);
    assert_eq!(items.len(), 5); // 2 tabs + 3 whole nodes
    assert_eq!(items[0].item_ref, ItemRef { node_id: "n0".into(), tab_index: Some(0) });
    assert_eq!(items[1].item_ref, ItemRef { node_id: "n0".into(), tab_index: Some(1) });
    // Fragment stripped from the tab dedup key.
    assert_eq!(items[1].dedup_key, "https://docs.rs/serde");
    // Terminal cwds sorted+deduped into one key.
    assert_eq!(items[2].dedup_key, "/Users/dev/temporal");
    assert_eq!(items[3].dedup_key, "/Users/dev/temporal"); // editor folder
    assert_eq!(items[4].dedup_key, "com.example.Spotify\u{1}liked songs");
    assert_eq!(items[0].embed_text, "repo (github.com)");
    assert!(items[2].embed_text.starts_with("Terminal temporal"));
}

#[test]
fn cluster_separates_orthogonal_families() {
    let embeddings = vec![
        axis_vec(0, 0.1),
        axis_vec(0, 0.2),
        axis_vec(1, 0.1),
        axis_vec(1, 0.2),
        axis_vec(0, 0.3),
    ];
    let clusters = cluster(&embeddings, 0.6);
    assert_eq!(clusters.len(), 2);
    assert_eq!(clusters[0], vec![0, 1, 4]);
    assert_eq!(clusters[1], vec![2, 3]);
}

#[test]
fn cluster_of_similar_vectors_is_single_and_build_groups_declines() {
    let embeddings: Vec<Vec<f32>> = (0..4).map(|i| axis_vec(0, 0.1 * i as f32)).collect();
    assert_eq!(cluster(&embeddings, 0.6).len(), 1);

    let items: Vec<WorkspaceItem> = items_for(&workspace(vec![browser_node(
        "n0",
        &[
            ("https://a.com", "a"),
            ("https://b.com", "b"),
            ("https://c.com", "c"),
            ("https://d.com", "d"),
        ],
        0,
    )]));
    assert!(groups_for(&items, &embeddings).is_empty());
}

#[test]
fn cluster_caps_at_max_groups() {
    // 8 mutually-orthogonal singletons (16-dim), threshold high enough
    // that nothing merges naturally.
    let embeddings: Vec<Vec<f32>> = (0..8)
        .map(|i| {
            let mut v = vec![0.0f32; 16];
            v[i] = 1.0;
            v
        })
        .collect();
    let clusters = cluster(&embeddings, 0.6);
    assert_eq!(clusters.len(), MAX_GROUPS);
    let total: usize = clusters.iter().map(Vec::len).sum();
    assert_eq!(total, 8); // overflow merged, nothing dropped
}

#[test]
fn build_groups_assigns_ids_by_size_and_heuristic_labels() {
    let ws = workspace(vec![
        browser_node("n0", &[("https://github.com/x", "x"), ("https://spotify.com", "s")], 0),
        editor_node("n1", "/Users/dev/temporal"),
    ]);
    let items = items_for(&ws);
    // github tab + editor together; spotify tab alone.
    let embeddings = vec![axis_vec(0, 0.1), axis_vec(1, 0.1), axis_vec(0, 0.2)];
    let groups = groups_for(&items, &embeddings);
    assert_eq!(groups.len(), 2);
    assert_eq!(groups[0].group_id, "g0");
    assert_eq!(groups[0].items.len(), 2);
    assert!(groups[0].label.contains("temporal"), "label: {}", groups[0].label);
    assert_eq!(groups[1].items, vec![ItemRef { node_id: "n0".into(), tab_index: Some(1) }]);
    assert!(groups[1].label.contains("spotify.com"), "label: {}", groups[1].label);
}

#[test]
fn synthesize_merges_tab_picks_and_remaps_active_tab() {
    let source = browser_node(
        "n7",
        &[("https://a.com", "a"), ("https://b.com", "b"), ("https://c.com", "c")],
        2,
    );
    let picks = vec![
        NodePick { node: source.clone(), tab_indices: Some(vec![2]) },
        NodePick { node: source.clone(), tab_indices: Some(vec![0]) },
        NodePick { node: terminal_node("n8", &["/tmp"]), tab_indices: None },
    ];
    let nodes = synthesize_nodes(picks);
    assert_eq!(nodes.len(), 2);
    assert_eq!(nodes[0].node_id, "n0");
    assert_eq!(nodes[1].node_id, "n1");
    match &nodes[0].payload {
        NodePayload::Browser { tabs, active_tab_index } => {
            let urls: Vec<&str> = tabs.iter().map(|t| t.url.as_str()).collect();
            assert_eq!(urls, vec!["https://a.com", "https://c.com"]);
            assert_eq!(*active_tab_index, 1); // originally-active c.com kept active
        }
        other => panic!("unexpected payload: {other:?}"),
    }
}

#[test]
fn synthesize_defaults_active_tab_when_original_not_picked() {
    let source = browser_node("n0", &[("https://a.com", "a"), ("https://b.com", "b")], 1);
    let nodes = synthesize_nodes(vec![NodePick { node: source, tab_indices: Some(vec![0]) }]);
    match &nodes[0].payload {
        NodePayload::Browser { tabs, active_tab_index } => {
            assert_eq!(tabs.len(), 1);
            assert_eq!(*active_tab_index, 0);
        }
        other => panic!("unexpected payload: {other:?}"),
    }
}

#[test]
fn synthesize_drops_nodes_whose_picked_tabs_are_all_stale() {
    let source = browser_node("n0", &[("https://a.com", "a")], 0);
    let nodes = synthesize_nodes(vec![NodePick { node: source, tab_indices: Some(vec![9]) }]);
    assert!(nodes.is_empty());
}

#[test]
fn materialize_group_builds_standalone_workspace() {
    let mut ws = workspace(vec![
        browser_node("n0", &[("https://github.com/x", "x"), ("https://spotify.com", "s")], 0),
        editor_node("n1", "/Users/dev/temporal"),
    ]);
    ws.groups = vec![
        WorkspaceGroup {
            group_id: "g0".into(),
            label: "coding".into(),
            items: vec![
                ItemRef { node_id: "n0".into(), tab_index: Some(0) },
                ItemRef { node_id: "n1".into(), tab_index: None },
                ItemRef { node_id: "ghost".into(), tab_index: None }, // stale: skipped
            ],
        },
        WorkspaceGroup { group_id: "g1".into(), label: "music".into(), items: vec![] },
    ];
    let coding = materialize_group(&ws, "g0").expect("materializes");
    assert_eq!(coding.workspace_id, "ws::g0");
    assert_eq!(coding.summary, "coding");
    assert_eq!(coding.captured_at_unix_ms, 42);
    assert!(coding.groups.is_empty());
    assert_eq!(coding.nodes.len(), 2);
    match &coding.nodes[0].payload {
        NodePayload::Browser { tabs, .. } => {
            assert_eq!(tabs.len(), 1);
            assert_eq!(tabs[0].url, "https://github.com/x");
        }
        other => panic!("unexpected payload: {other:?}"),
    }
    assert!(coding.tags.contains(&"github.com".to_string()));
    assert!(!coding.tags.contains(&"spotify.com".to_string()));

    assert!(materialize_group(&ws, "g1").is_none(), "empty group yields None");
    assert!(materialize_group(&ws, "gX").is_none(), "unknown id yields None");
}

#[test]
fn item_texts_are_exact() {
    let mut editor = editor_node("n2", "/w/app");
    editor.payload = NodePayload::Editor {
        folder_path: "/w/app".into(),
        open_files: vec!["/w/app/src/a.rs".into(), "/w/app/b.rs".into()],
    };
    let ws = workspace(vec![
        browser_node("n0", &[("https://www.a.com:80/x#y", "")], 0),
        terminal_node("n1", &["/w/b", "", "/w/a", "/w/b"]),
        editor,
        editor_node("n3", "/w/bare"),
        generic_node("n4", "Notes", ""),
        generic_node("n5", "Notes", "to do"),
        terminal_node("n6", &[""]),
    ]);
    let items = items_for(&ws);
    let texts: Vec<&str> = items.iter().map(|i| i.embed_text.as_str()).collect();
    assert_eq!(
        texts,
        vec![
            "a.com (a.com)",
            "Terminal a /w/a /w/b",
            "Visual Studio Code: app /w/app a.rs b.rs",
            "Visual Studio Code: bare /w/bare",
            "Notes",
            "Notes: to do",
            "Terminal  ",
        ]
    );
    assert_eq!(items[0].title, "a.com");
    assert_eq!(items[1].title, "Terminal — a");
    assert_eq!(items[1].dedup_key, "/w/a\n/w/b");
    assert_eq!(items[2].title, "Visual Studio Code — app");
    assert_eq!(items[6].dedup_key, "");
}

#[test]
fn terminal_identity_ignores_order_and_repeats() {
    let key = |cwds: &[&str]| {
        items_for(&workspace(vec![terminal_node("n0", cwds)]))[0].dedup_key.clone()
    };
    assert_eq!(key(&["/b", "/a"]), key(&["/a", "", "/b", "/a"]));
    assert_ne!(key(&["/a"]), key(&["/a", "/b"]));
}

#[test]
fn item_kinds_are_stored_as_words() {
    let kinds = [ItemKind::Tab, ItemKind::Terminal, ItemKind::Editor, ItemKind::Generic];
    let words = kinds.map(ItemKind::as_str);
    assert_eq!(words, ["tab", "terminal", "editor", "generic"]);
}

#[test]
fn fragments_are_stripped_once() {
    assert_eq!(strip_fragment("https://a.com/x#y#z"), "https://a.com/x");
    assert_eq!(strip_fragment("https://a.com/x"), "https://a.com/x");
    assert_eq!(strip_fragment("#top"), "");
}

#[test]
fn labels_name_projects_before_hosts_before_apps() {
    let ws = workspace(vec![
        generic_node("n0", "Spotify", "x"),
        browser_node("n1", &[("https://a.com/1", "1"), ("https://a.com/2", "2")], 0),
        editor_node("n2", "/w/app"),
        generic_node("n3", "Notes", "y"),
    ]);
    let items = items_for(&ws);
    let members: Vec<&WorkspaceItem> = items.iter().collect();
    assert_eq!(heuristic_group_label(&members), "app · a.com · Spotify");
    assert_eq!(heuristic_group_label(&[]), "group");
}

#[test]
fn ties_merge_the_lowest_indices_first() {
    // All pairs equally similar: (0, 1) merges first, its average stays 1.0.
    let mut clusters = initial_clusters(3);
    let one = 1.0f64.to_bits();
    assert_eq!(cluster_pairs(3), vec![(0, 1), (0, 2), (1, 2)]);
    assert!(merge_closest(&mut clusters, &vec![one, one, one], one));
    assert_eq!(clusters, vec![vec![0, 1], vec![2]]);
    assert!(!merge_closest(&mut clusters, &vec![0.5f64.to_bits()], one));
    assert_eq!(clusters, vec![vec![0, 1], vec![2]]);
}

#[test]
fn nothing_clusters_into_nothing() {
    assert!(cluster(&[], 0.6).is_empty());
    assert!(cluster_pairs(0).is_empty());
    assert!(cluster_pairs(1).is_empty());
}

#[test]
fn finished_clusters_come_largest_first_with_their_overflow() {
    let clusters = vec![vec![8], vec![1, 2], vec![0], vec![3], vec![4], vec![5], vec![6], vec![7]];
    assert_eq!(
        finish_clusters(clusters),
        vec![vec![6, 7, 8], vec![1, 2], vec![0], vec![3], vec![4], vec![5]]
    );
    // Nothing merges: the overflow makes the last one kept the largest.
    let sizes: Vec<usize> = finish_clusters(initial_clusters(8)).iter().map(Vec::len).collect();
    assert_eq!(sizes, vec![3, 1, 1, 1, 1, 1]);
}

#[test]
fn similarity_threshold_is_single_precision() {
    assert_eq!(f64::from_bits(GROUP_SIMILARITY_THRESHOLD), 0.65f32 as f64);
}

#[test]
fn negative_and_repeated_tab_picks() {
    let source = browser_node("n0", &[("https://a.com", "a"), ("https://b.com", "b")], 1);
    let nodes = synthesize_nodes(vec![
        NodePick { node: source.clone(), tab_indices: Some(vec![-1, 1]) },
        NodePick { node: source.clone(), tab_indices: Some(vec![1, 0]) },
        NodePick { node: source, tab_indices: None },
    ]);
    assert_eq!(nodes.len(), 1);
    match &nodes[0].payload {
        NodePayload::Browser { tabs, active_tab_index } => {
            assert_eq!(tabs.len(), 2);
            assert_eq!(*active_tab_index, 1);
        }
        other => panic!("unexpected payload: {other:?}"),
    }
}

#[test]
fn references_of_every_item_resolve() {
    let mut ws = workspace(vec![
        browser_node("n0", &[("https://a.com", "a"), ("https://b.com", "b")], 0),
        terminal_node("n1", &["/tmp"]),
        generic_node("n2", "Notes", "x"),
    ]);
    let refs: Vec<ItemRef> = items_for(&ws).into_iter().map(|i| i.item_ref).collect();
    ws.groups = vec![WorkspaceGroup { group_id: "all".into(), label: "all".into(), items: refs }];
    // Taking every item brings every window back as it was.
    assert_eq!(materialize_group(&ws, "all").unwrap().nodes, ws.nodes);
}

#[test]
fn stale_tab_references_are_skipped() {
    let mut ws = workspace(vec![
        browser_node("n0", &[("https://a.com", "a")], 0),
        generic_node("n1", "Notes", "x"),
    ]);
    let tab = |id: &str, i: i32| ItemRef { node_id: id.into(), tab_index: Some(i) };
    ws.groups = vec![WorkspaceGroup {
        group_id: "g".into(),
        label: "l".into(),
        items: vec![tab("n0", 1), tab("n0", -1), tab("n1", 0)],
    }];
    assert!(materialize_group(&ws, "g").is_none());
}

#[test]
fn clusters_partition_the_items() {
    let embeddings: Vec<Vec<f32>> = (0..9).map(|i| axis_vec(i % 4, 0.1 * i as f32)).collect();
    let clusters = cluster(&embeddings, 0.6);
    let mut all: Vec<usize> = clusters.iter().flatten().copied().collect();
    all.sort();
    assert_eq!(all, (0..9).collect::<Vec<usize>>());
    assert!(clusters.iter().all(|c| !c.is_empty()));
}

#[test]
fn synthesized_ids_are_distinct() {
    let picks: Vec<NodePick> = (0..12)
        .map(|i| NodePick { node: generic_node(&format!("x{i}"), "Notes", ""), tab_indices: None })
        .collect();
    let ids: Vec<String> = synthesize_nodes(picks).into_iter().map(|n| n.node_id).collect();
    for (i, id) in ids.iter().enumerate() {
        assert_eq!(id, &format!("n{i}"));
        assert!(!ids[..i].contains(id));
    }
}

#[test]
fn every_group_brings_its_own_members_back() {
    let mut ws = workspace(vec![
        browser_node("n0", &[("https://github.com/x", "x"), ("https://spotify.com", "s")], 0),
        editor_node("n1", "/Users/dev/temporal"),
        terminal_node("n2", &["/Users/dev/temporal"]),
    ]);
    let items = items_for(&ws);
    ws.groups = build_groups(&items, &vec![vec![0, 2, 3], vec![1]]);
    let ids: Vec<&str> = ws.groups.iter().map(|g| g.group_id.as_str()).collect();
    assert_eq!(ids, vec!["g0", "g1"]);
    let coding = materialize_group(&ws, "g0").unwrap();
    assert_eq!(coding.nodes.len(), 3);
    let music = materialize_group(&ws, "g1").unwrap();
    assert_eq!(music.summary, ws.groups[1].label);
    match &music.nodes[0].payload {
        NodePayload::Browser { tabs, .. } => assert_eq!(tabs[0].url, "https://spotify.com"),
        other => panic!("unexpected payload: {other:?}"),
    }
}

#[test]
fn groups_are_numbered_by_size() {
    let ws = workspace(vec![browser_node(
        "n0",
        &[("https://a.com", "a"), ("https://b.com", "b"), ("https://c.com", "c")],
        0,
    )]);
    let groups = build_groups(&items_for(&ws), &vec![vec![1], vec![0, 2]]);
    let sizes: Vec<(&str, usize)> =
        groups.iter().map(|g| (g.group_id.as_str(), g.items.len())).collect();
    assert_eq!(sizes, vec![("g0", 2), ("g1", 1)]);
    // Clusters that already come by size keep their order.
    let clusters = finish_clusters(initial_clusters(3));
    let groups = build_groups(&items_for(&ws), &clusters);
    let tabs: Vec<Option<i32>> = groups.iter().map(|g| g.items[0].tab_index).collect();
    assert_eq!(tabs, vec![Some(0), Some(1), Some(2)]);
}

#[test]
fn a_group_of_all_items_has_all_items() {
    let mut ws = workspace(vec![
        terminal_node("t", &["/tmp", "/w"]),
        browser_node("empty", &[], 0),
        browser_node("b", &[("https://a.com#x", "a"), ("https://b.com", "")], 7),
        editor_node("e", "/w/app"),
        generic_node("g", "Notes", "x"),
    ]);
    let items = items_for(&ws);
    ws.groups = vec![WorkspaceGroup {
        group_id: "all".into(),
        label: "all".into(),
        items: items.iter().map(|i| i.item_ref.clone()).collect(),
    }];
    let again = items_for(&materialize_group(&ws, "all").unwrap());
    let bare = |items: Vec<WorkspaceItem>| -> Vec<WorkspaceItem> {
        items
            .into_iter()
            .map(|i| WorkspaceItem {
                item_ref: ItemRef { node_id: String::new(), tab_index: i.item_ref.tab_index },
                ..i
            })
            .collect()
    };
    assert_eq!(bare(again), bare(items));
}

#[test]
fn members_are_found_beside_stale_references() {
    let mut ws = workspace(vec![
        browser_node("n0", &[("https://a.com", "a"), ("https://b.com", "b")], 0),
        generic_node("n1", "Notes", "x"),
    ]);
    let to = |id: &str, tab_index: Option<i32>| ItemRef { node_id: id.into(), tab_index };
    ws.groups = vec![WorkspaceGroup {
        group_id: "g".into(),
        label: "l".into(),
        items: vec![to("gone", None), to("n1", Some(0)), to("n0", Some(1)), to("n1", None)],
    }];
    let nodes = materialize_group(&ws, "g").unwrap().nodes;
    assert_eq!(nodes.len(), 2);
    match &nodes[0].payload {
        NodePayload::Browser { tabs, .. } => assert_eq!(tabs[0].url, "https://b.com"),
        other => panic!("unexpected payload: {other:?}"),
    }
    assert_eq!(nodes[1].app_name, "Notes");
}
