//! App catalog: vocabulary, seed table, embed text and launch picks.

use temporal::catalog::{
    capabilities, catalog_embed_text, is_capability, seed_capabilities, select_catalog_picks,
    CatalogCandidate, CATALOG_CAP_MATCH_MIN, CATALOG_EMBED_ONLY_MIN,
};

fn cand(bundle: &str, name: &str, caps: &[&str], score: f64) -> CatalogCandidate {
    CatalogCandidate {
        bundle_id: bundle.into(),
        app_name: name.into(),
        capabilities: caps.iter().map(|s| s.to_string()).collect(),
        score: score.to_bits(),
    }
}

fn ids(picks: &[CatalogCandidate]) -> Vec<&str> {
    picks.iter().map(|c| c.bundle_id.as_str()).collect()
}

#[test]
fn seed_and_vocabulary_stay_in_sync() {
    // Every capability the seed table emits must be a known vocabulary word,
    // or symbolic matching against LLM output silently misses.
    for bundle in ["com.figma.Desktop", "com.microsoft.VSCode", "us.zoom.xos"] {
        for cap in seed_capabilities(bundle) {
            assert!(is_capability(cap), "seed cap {cap:?} not in vocabulary");
        }
    }
}

#[test]
fn embed_text_omits_caps_when_empty_and_never_prefixes_kind() {
    assert_eq!(catalog_embed_text("Figma", &vec!["design".into()]), "Figma design");
    assert_eq!(catalog_embed_text("Weird App", &vec![]), "Weird App");
}

#[test]
fn capability_match_beats_pure_embedding_and_respects_floor() {
    let cands = vec![
        cand("com.figma.Desktop", "Figma", &["design"], 0.41), // cap match, above floor
        cand("com.apple.Music", "Music", &["music"], 0.50),    // irrelevant cap, below embed bar
        cand("com.jetbrains.WebStorm", "WebStorm", &["editor"], 0.71), // known app, embed-only
        cand("com.weak.design", "Weak", &["design"], 0.12),    // cap match but below floor
    ];
    let picks = select_catalog_picks(&cands, &vec!["design".into()], &vec![], 3);
    // Figma first (capability overlap), then the strong embed-only match on a
    // known app. Music has no matched capability and doesn't clear the
    // embed-only bar; Weak's design cap matches but is below the floor.
    assert_eq!(ids(&picks), vec!["com.figma.Desktop", "com.jetbrains.WebStorm"]);
}

#[test]
fn unknown_app_never_launches_on_name_match_alone() {
    // No seed capabilities + a strong (even spurious) embedding match must
    // not qualify: this is the "temporal" / "Time Machine" guard.
    let cands = vec![cand("com.apple.TimeMachine", "Time Machine", &[], 0.95)];
    assert!(select_catalog_picks(&cands, &vec![], &vec![], 3).is_empty());
}

#[test]
fn excludes_already_present_apps() {
    let cands = vec![cand("com.figma.Desktop", "Figma", &["design"], 0.55)];
    let present: Vec<String> = vec!["com.figma.Desktop".to_string()];
    assert!(select_catalog_picks(&cands, &vec!["design".into()], &present, 3).is_empty());
}

#[test]
fn caps_the_number_of_picks() {
    let cands: Vec<CatalogCandidate> =
        (0..10).map(|i| cand(&format!("com.app.{i}"), "App", &["editor"], 0.5)).collect();
    assert_eq!(select_catalog_picks(&cands, &vec!["editor".into()], &vec![], 3).len(), 3);
}

#[test]
fn ties_rank_by_score_and_then_bundle_id() {
    let cands = vec![
        cand("com.b", "B", &["editor"], 0.5),
        cand("com.c", "C", &["editor"], 0.7),
        cand("com.a", "A", &["editor"], 0.5),
        cand("com.d", "D", &["editor", "vcs"], 0.4),
    ];
    let caps = vec!["editor".to_string(), "vcs".to_string()];
    let picks = select_catalog_picks(&cands, &caps, &vec![], 10);
    assert_eq!(ids(&picks), vec!["com.d", "com.c", "com.a", "com.b"]);
}

#[test]
fn thresholds_are_the_documented_scores() {
    assert_eq!(f64::from_bits(CATALOG_EMBED_ONLY_MIN), 0.62);
    assert_eq!(f64::from_bits(CATALOG_CAP_MATCH_MIN), 0.30);
    // A score right on a threshold qualifies; a NaN never does.
    assert_eq!(
        select_catalog_picks(&vec![cand("com.x", "X", &["editor"], 0.62)], &vec![], &vec![], 1).len(),
        1
    );
    let nan = vec![cand("com.x", "X", &["editor"], f64::NAN)];
    assert!(select_catalog_picks(&nan, &vec!["editor".into()], &vec![], 1).is_empty());
}

#[test]
fn vocabulary_lists_every_word_once() {
    let words = capabilities();
    assert_eq!(words.len(), 19);
    assert_eq!(words[0], "design");
    assert!(words.iter().all(|w| is_capability(w)));
    assert!(!is_capability("telepathy"));
    assert!(!is_capability("Design"));
}

#[test]
fn seed_table_answers_exactly() {
    assert_eq!(seed_capabilities("com.figma.Desktop"), vec!["design"]);
    assert!(seed_capabilities("com.example.unknown").is_empty());
}
