//! Summoning: composing a workspace for a stated intent from the live desktop,
//! history, and installed apps.

use vstd::prelude::*;

use crate::catalog;
use crate::catalog::{select_catalog_picks, CatalogCandidate, CatalogCandidateView};
use crate::doubles;
use crate::grouping;
use crate::grouping::{
    find_node, synthesize_nodes, NodePick, NodePickView, WorkspaceItem, WorkspaceItemView,
};
use crate::order;
use crate::query;
use crate::query::{pick_stored, ScoredItem, ScoredItemView, SourceSnapshot, SourceSnapshotView};
use crate::store::{AppCatalogRecord, AppCatalogRecordView};
use crate::tagger;
use crate::tagger::strings_from_json;
use crate::tagging;
use crate::tagging::derive_tags;
use crate::text;
use crate::text::{decimal_of, str_eq};
use crate::types::{
    AdapterKind, CandidateKind, ItemRef, ItemRefView, NodePayload, NodePayloadView, QueryCandidate,
    QueryCandidateView, WindowGeometry, WindowNode, WindowNodeView, WorkspaceGroupView,
    WorkspaceState, WorkspaceStateView,
};

verus! {

/// Past snapshots surfaced alongside a summoned candidate, so that the user can
/// pick the real thing from last week instead of the synthesis.
pub const SUMMON_WORKSPACE_ALTERNATES: usize = 5;

/// Catalog entries pulled from the index before selection.
pub const CATALOG_SEARCH_POOL: usize = 24;

/// Most installed apps a summons will propose launching.
pub const SUMMON_MAX_CATALOG_PICKS: usize = 3;

/// Items scoring below this (0.62) never enter a summoned workspace. Live items
/// are noisier than stored ones, so the bar is higher than for assembly.
pub const SUMMON_MIN_ITEM_SCORE: u64 = 0x3FE3_D70A_3D70_A3D7;

/// Items must also land within this margin (0.12) of the best one.
pub const SUMMON_ITEM_MARGIN: u64 = 0x3FBE_B851_EB85_1EB8;

/// A candidate item for the summoned workspace, from the live desktop or a stored
/// snapshot, scored against the intent.
#[derive(Debug, PartialEq)]
pub struct ScoredPick {
    pub score: u64,
    /// Live picks win over historical ones: the open window is the truth.
    pub from_live: bool,
    pub dedup_key: String,
    pub pick: NodePick,
}

/// What a `ScoredPick` says: its texts as character sequences, its lists as sequences.
#[verifier::ext_equal]
pub struct ScoredPickView {
    pub score: u64,
    pub from_live: bool,
    pub dedup_key: Seq<char>,
    pub pick: NodePickView,
}

impl DeepView for ScoredPick {
    type V = ScoredPickView;

    open spec fn deep_view(&self) -> ScoredPickView {
        ScoredPickView {
            score: self.score,
            from_live: self.from_live,
            dedup_key: self.dedup_key.deep_view(),
            pick: self.pick.deep_view(),
        }
    }
}

impl Clone for ScoredPick {
    fn clone(&self) -> (r: Self)
        ensures
            r.deep_view() == self.deep_view(),
    {
        ScoredPick {
            score: self.score,
            from_live: self.from_live,
            dedup_key: self.dedup_key.clone(),
            pick: self.pick.clone(),
        }
    }
}

/// A catalog entry with its similarity to the intent.
#[derive(Debug, PartialEq)]
pub struct ScoredApp {
    pub record: AppCatalogRecord,
    pub score: u64,
}

/// What a `ScoredApp` says: its texts as character sequences, its lists as sequences.
#[verifier::ext_equal]
pub struct ScoredAppView {
    pub record: AppCatalogRecordView,
    pub score: u64,
}

impl DeepView for ScoredApp {
    type V = ScoredAppView;

    open spec fn deep_view(&self) -> ScoredAppView {
        ScoredAppView {
            record: self.record.deep_view(),
            score: self.score,
        }
    }
}

impl Clone for ScoredApp {
    fn clone(&self) -> (r: Self)
        ensures
            r.deep_view() == self.deep_view(),
    {
        ScoredApp {
            record: self.record.clone(),
            score: self.score,
        }
    }
}

/// A live item's node, with its id qualified so that it can't collide with
/// historical picks.
pub open spec fn live_pick_of(nodes: Seq<WindowNodeView>, item_ref: ItemRefView) -> Option<
    NodePickView,
> {
    let at = grouping::node_at(nodes, item_ref.node_id);
    if at >= nodes.len() {
        None
    } else {
        Some(
            NodePickView {
                node: WindowNodeView { node_id: "live::"@ + item_ref.node_id, ..nodes[at] },
                tab_indices: match item_ref.tab_index {
                    Some(index) => Some(seq![index]),
                    None => None,
                },
            },
        )
    }
}

/// Resolves a live item.
pub fn live_pick(live_ws: &WorkspaceState, item_ref: &ItemRef) -> (r: Option<NodePick>)
    ensures
        r.deep_view() == live_pick_of(live_ws.deep_view().nodes, item_ref.deep_view()),
{
    let at: usize = find_node(&live_ws.nodes, item_ref.node_id.as_str());
    if at >= live_ws.nodes.len() {
        return None;
    }
    let mut node = live_ws.nodes[at].clone();
    node.node_id = "live::".to_owned().concat(item_ref.node_id.as_str());
    let tab_indices: Option<Vec<i32>> = match item_ref.tab_index {
        Some(index) => {
            let mut one: Vec<i32> = Vec::new();
            one.push(index);
            assert(one.deep_view() =~= seq![index]);
            Some(one)
        },
        None => None,
    };
    Some(NodePick { node, tab_indices })
}

/// The scored picks of the live desktop: every item that resolves, with its
/// score.
pub open spec fn live_pool(
    nodes: Seq<WindowNodeView>,
    items: Seq<WorkspaceItemView>,
    scores: Seq<u64>,
) -> Seq<ScoredPickView> {
    text::gathered(
        Seq::new(items.len(), |i: int| i),
        |i: int|
            match live_pick_of(nodes, items[i].item_ref) {
                Some(pick) => seq![
                    ScoredPickView {
                        score: scores[i],
                        from_live: true,
                        dedup_key: items[i].dedup_key,
                        pick,
                    },
                ],
                None => Seq::empty(),
            },
    )
}

/// Scores the items of the live desktop, one score for each.
pub fn live_picks(live_ws: &WorkspaceState, items: &Vec<WorkspaceItem>, scores: &Vec<u64>) -> (r:
    Vec<ScoredPick>)
    requires
        items.len() == scores.len(),
    ensures
        r.deep_view() == live_pool(live_ws.deep_view().nodes, items.deep_view(), scores@),
{
    let ghost nodes = live_ws.deep_view().nodes;
    let ghost all = items.deep_view();
    let ghost rows = Seq::new(all.len(), |i: int| i);
    let ghost f = |i: int|
        match live_pick_of(nodes, all[i].item_ref) {
            Some(pick) => seq![
                ScoredPickView {
                    score: scores@[i],
                    from_live: true,
                    dedup_key: all[i].dedup_key,
                    pick,
                },
            ],
            None => Seq::empty(),
        };
    let mut out: Vec<ScoredPick> = Vec::new();
    let mut i: usize = 0;
    assert(out.deep_view() =~= text::gathered(rows.take(0), f));
    while i < items.len()
        invariant
            i <= items.len(),
            items.len() == scores.len(),
            nodes == live_ws.deep_view().nodes,
            all == items.deep_view(),
            rows == Seq::new(all.len(), |i: int| i),
            f == (|i: int|
                match live_pick_of(nodes, all[i].item_ref) {
                    Some(pick) => seq![
                        ScoredPickView {
                            score: scores@[i],
                            from_live: true,
                            dedup_key: all[i].dedup_key,
                            pick,
                        },
                    ],
                    None => Seq::empty(),
                }),
            out.deep_view() == text::gathered(rows.take(i as int), f),
        decreases items.len() - i,
    {
        let ghost before = out.deep_view();
        let item = &items[i];
        if let Some(pick) = live_pick(live_ws, &item.item_ref) {
            out.push(
                ScoredPick {
                    score: scores[i],
                    from_live: true,
                    dedup_key: item.dedup_key.clone(),
                    pick,
                },
            );
        }
        proof {
            text::lemma_take_step(rows, i as int);
            assert(all[i as int] == item.deep_view());
            assert(out.deep_view() =~= before + f(i as int));
        }
        i = i + 1;
    }
    assert(rows.take(rows.len() as int) =~= rows);
    out
}

/// The scored picks of history: every hit that resolves.
pub open spec fn history_pool(hits: Seq<ScoredItemView>, sources: Seq<SourceSnapshotView>) -> Seq<
    ScoredPickView,
> {
    text::gathered(
        hits,
        |h: ScoredItemView|
            match query::stored_pick(h.item, sources) {
                Some(pick) => seq![
                    ScoredPickView {
                        score: h.score,
                        from_live: false,
                        dedup_key: h.item.dedup_key,
                        pick,
                    },
                ],
                None => Seq::empty(),
            },
    )
}

/// Scores what the item index found in stored snapshots.
pub fn history_picks(hits: &Vec<ScoredItem>, sources: &Vec<SourceSnapshot>) -> (r: Vec<ScoredPick>)
    ensures
        r.deep_view() == history_pool(hits.deep_view(), sources.deep_view()),
{
    let ghost all = hits.deep_view();
    let ghost src = sources.deep_view();
    let ghost f = |h: ScoredItemView|
        match query::stored_pick(h.item, src) {
            Some(pick) => seq![
                ScoredPickView {
                    score: h.score,
                    from_live: false,
                    dedup_key: h.item.dedup_key,
                    pick,
                },
            ],
            None => Seq::empty(),
        };
    let mut out: Vec<ScoredPick> = Vec::new();
    let mut i: usize = 0;
    assert(out.deep_view() =~= text::gathered(all.take(0), f));
    while i < hits.len()
        invariant
            i <= hits.len(),
            all == hits.deep_view(),
            src == sources.deep_view(),
            f == (|h: ScoredItemView|
                match query::stored_pick(h.item, src) {
                    Some(pick) => seq![
                        ScoredPickView {
                            score: h.score,
                            from_live: false,
                            dedup_key: h.item.dedup_key,
                            pick,
                        },
                    ],
                    None => Seq::empty(),
                }),
            out.deep_view() == text::gathered(all.take(i as int), f),
        decreases hits.len() - i,
    {
        let ghost before = out.deep_view();
        let hit = &hits[i];
        if let Some(pick) = pick_stored(&hit.item, sources) {
            out.push(
                ScoredPick {
                    score: hit.score,
                    from_live: false,
                    dedup_key: hit.item.dedup_key.clone(),
                    pick,
                },
            );
        }
        proof {
            text::lemma_take_step(all, i as int);
            assert(all[i as int] == hit.deep_view());
            assert(out.deep_view() =~= before + f(all[i as int]));
        }
        i = i + 1;
    }
    assert(all.take(all.len() as int) =~= all);
    out
}

/// Whether `a` replaces `b` of the same identity: live beats historical, then
/// the higher score.
pub open spec fn beats(a: ScoredPickView, b: ScoredPickView) -> bool {
    if a.from_live == b.from_live {
        doubles::below(b.score, a.score)
    } else {
        a.from_live
    }
}

/// The test for one identity.
pub open spec fn has_key(key: Seq<char>) -> spec_fn(ScoredPickView) -> bool {
    |p: ScoredPickView| p.dedup_key == key
}

/// One pick per identity, in the order identities first came up.
pub open spec fn settled(pool: Seq<ScoredPickView>) -> Seq<ScoredPickView>
    decreases pool.len(),
{
    if pool.len() == 0 {
        Seq::empty()
    } else {
        let kept = settled(pool.drop_last());
        let p = pool.last();
        let at = order::first_where(kept, has_key(p.dedup_key), 0);
        if at >= kept.len() {
            kept.push(p)
        } else if beats(p, kept[at]) {
            kept.update(at, p)
        } else {
            kept
        }
    }
}

/// One pick per identity, best score first.
pub open spec fn ranked(pool: Seq<ScoredPickView>) -> Seq<ScoredPickView> {
    order::ordered(
        settled(pool),
        |a: ScoredPickView, b: ScoredPickView| doubles::below(b.score, a.score),
    )
}

/// The picks that make it: within the relevance cutoff, best first, capped.
pub open spec fn chosen(pool: Seq<ScoredPickView>, lowered: u64) -> Seq<NodePickView> {
    let cutoff = doubles::larger(SUMMON_MIN_ITEM_SCORE, lowered);
    text::at_most(
        ranked(pool).filter(|p: ScoredPickView| doubles::at_least(p.score, cutoff)),
        query::MAX_ASSEMBLED_ITEMS as int,
    ).map_values(|p: ScoredPickView| p.pick)
}

fn find_key(kept: &Vec<ScoredPick>, key: &str) -> (r: usize)
    ensures
        r == order::first_where(kept.deep_view(), has_key(key@), 0),
        r <= kept.len(),
{
    let ghost all = kept.deep_view();
    let ghost pred = has_key(key@);
    let mut i: usize = 0;
    while i < kept.len()
        invariant
            i <= kept.len(),
            all == kept.deep_view(),
            pred == has_key(key@),
            order::first_where(all, pred, 0) == order::first_where(all, pred, i as int),
        decreases kept.len() - i,
    {
        if str_eq(kept[i].dedup_key.as_str(), key) {
            assert(pred(all[i as int]));
            return i;
        }
        assert(!pred(all[i as int]));
        i = i + 1;
    }
    i
}

fn settle(pool: &Vec<ScoredPick>) -> (r: Vec<ScoredPick>)
    ensures
        r.deep_view() == settled(pool.deep_view()),
{
    let ghost all = pool.deep_view();
    let mut best: Vec<ScoredPick> = Vec::new();
    let mut i: usize = 0;
    assert(best.deep_view() =~= settled(all.take(0)));
    while i < pool.len()
        invariant
            i <= pool.len(),
            all == pool.deep_view(),
            best.deep_view() == settled(all.take(i as int)),
        decreases pool.len() - i,
    {
        let ghost kept = best.deep_view();
        let p = &pool[i];
        proof {
            text::lemma_take_step(all, i as int);
            assert(all[i as int] == p.deep_view());
        }
        let at: usize = find_key(&best, p.dedup_key.as_str());
        if at >= best.len() {
            best.push(p.clone());
            assert(best.deep_view() =~= kept.push(p.deep_view()));
        } else {
            let better = if p.from_live == best[at].from_live {
                doubles::is_below(best[at].score, p.score)
            } else {
                p.from_live
            };
            assert(better == beats(p.deep_view(), kept[at as int]));
            if better {
                best.set(at, p.clone());
                assert(best.deep_view() =~= kept.update(at as int, p.deep_view()));
            }
        }
        i = i + 1;
    }
    assert(all.take(all.len() as int) =~= all);
    best
}

fn rank(pool: &Vec<ScoredPick>) -> (r: Vec<ScoredPick>)
    ensures
        r.deep_view() == ranked(pool.deep_view()),
{
    let best = settle(pool);
    let ghost all = best.deep_view();
    let ghost before = |a: ScoredPickView, b: ScoredPickView| doubles::below(b.score, a.score);
    let mut out: Vec<ScoredPick> = Vec::new();
    let mut i: usize = 0;
    assert(out.deep_view() =~= order::ordered(all.take(0), before));
    while i < best.len()
        invariant
            i <= best.len(),
            all == best.deep_view(),
            before == (|a: ScoredPickView, b: ScoredPickView| doubles::below(b.score, a.score)),
            out.deep_view() == order::ordered(all.take(i as int), before),
        decreases best.len() - i,
    {
        let ghost now = out.deep_view();
        let ghost x = all[i as int];
        let mut k: usize = out.len();
        while k > 0 && doubles::is_below(out[k - 1].score, best[i].score)
            invariant
                i < best.len(),
                k <= out.len(),
                now == out.deep_view(),
                all == best.deep_view(),
                x == all[i as int],
                before == (|a: ScoredPickView, b: ScoredPickView|
                    doubles::below(b.score, a.score)),
                order::slot(now, x, before, now.len() as int) == order::slot(
                    now,
                    x,
                    before,
                    k as int,
                ),
            decreases k,
        {
            k = k - 1;
        }
        out.insert(k, best[i].clone());
        proof {
            text::lemma_take_step(all, i as int);
        }
        assert(out.deep_view() =~= now.insert(k as int, x));
        i = i + 1;
    }
    assert(all.take(all.len() as int) =~= all);
    out
}

/// The best score in a pool once each identity is settled; 0.0 for an empty
/// pool. The relevance cutoff is measured from it. Scores are numbers.
pub fn best_score(pool: &Vec<ScoredPick>) -> (r: u64)
    requires
        forall|i: int| 0 <= i < pool.len() ==> doubles::is_number((#[trigger] pool@[i]).score),
    ensures
        r == if ranked(pool.deep_view()).len() > 0 {
            ranked(pool.deep_view())[0].score
        } else {
            0
        },
{
    let best = rank(pool);
    if best.len() > 0 {
        assert(best.deep_view()[0] == best[0].deep_view());
        best[0].score
    } else {
        0
    }
}

/// Settles the pool by identity (live beats historical, then higher score),
/// keeps only picks within the relevance margin of the best, and caps the
/// count. `lowered` is the best score less the margin. Scores are numbers.
pub fn select_item_picks(pool: &Vec<ScoredPick>, lowered: u64) -> (r: Vec<NodePick>)
    requires
        forall|i: int| 0 <= i < pool.len() ==> doubles::is_number((#[trigger] pool@[i]).score),
    ensures
        r.deep_view() == chosen(pool.deep_view(), lowered),
{
    let cutoff: u64 = doubles::max_of(SUMMON_MIN_ITEM_SCORE, lowered);
    let best = rank(pool);
    let ghost all = best.deep_view();
    let ghost keep = |p: ScoredPickView| doubles::at_least(p.score, cutoff);
    let ghost f = |p: ScoredPickView| p.pick;
    let mut out: Vec<NodePick> = Vec::new();
    let mut i: usize = 0;
    assert(all.take(0).filter(keep) =~= Seq::<ScoredPickView>::empty()) by {
        reveal(Seq::filter);
    }
    assert(out.deep_view() =~= all.take(0).filter(keep).map_values(f));
    while i < best.len()
        invariant
            i <= best.len(),
            all == best.deep_view(),
            keep == (|p: ScoredPickView| doubles::at_least(p.score, cutoff)),
            f == (|p: ScoredPickView| p.pick),
            out.deep_view() == all.take(i as int).filter(keep).map_values(f),
        decreases best.len() - i,
    {
        let ghost here = out.deep_view();
        let ghost done = all.take(i as int).filter(keep);
        let ghost x = all[i as int];
        proof {
            text::lemma_take_step(all, i as int);
            assert(all.take(i + 1).filter(keep) == if keep(x) {
                done.push(x)
            } else {
                done
            }) by {
                reveal(Seq::filter);
            }
        }
        assert(x == best[i as int].deep_view());
        if doubles::is_at_least(best[i].score, cutoff) {
            out.push(best[i].pick.clone());
            assert(out.deep_view() =~= here.push(f(x)));
            assert(done.push(x).map_values(f) =~= here.push(f(x)));
        }
        i = i + 1;
    }
    assert(all.take(all.len() as int) =~= all);
    let ghost full = out.deep_view();
    out.truncate(query::MAX_ASSEMBLED_ITEMS);
    assert(out.deep_view() =~= text::at_most(full, query::MAX_ASSEMBLED_ITEMS as int));
    assert(out.deep_view() =~= chosen(pool.deep_view(), lowered));
    out
}

/// A catalog entry ready for selection: its capabilities decoded, none when they
/// don't decode.
pub open spec fn launch_candidate(app: ScoredAppView) -> CatalogCandidateView {
    CatalogCandidateView {
        bundle_id: app.record.bundle_id,
        app_name: app.record.app_name,
        capabilities: match tagger::json_strings(app.record.capabilities_json) {
            Some(v) => v,
            None => Seq::empty(),
        },
        score: app.score,
    }
}

/// The apps a summons proposes launching.
pub open spec fn launch_picks(
    found: Seq<ScoredAppView>,
    inferred: Seq<Seq<char>>,
    present: Seq<Seq<char>>,
) -> Seq<CatalogCandidateView> {
    catalog::catalog_picks(
        found.map_values(|a: ScoredAppView| launch_candidate(a)),
        inferred,
        present,
        SUMMON_MAX_CATALOG_PICKS as int,
    )
}

/// Selects installed apps to speculatively launch from what the catalog index
/// found, given the capabilities inferred for the intent.
pub fn catalog_launch_picks(
    found: &Vec<ScoredApp>,
    inferred_caps: &Vec<String>,
    present: &Vec<String>,
) -> (r: Vec<CatalogCandidate>)
    ensures
        r.deep_view() == launch_picks(
            found.deep_view(),
            inferred_caps.deep_view(),
            present.deep_view(),
        ),
{
    let ghost all = found.deep_view();
    let ghost f = |a: ScoredAppView| launch_candidate(a);
    let mut candidates: Vec<CatalogCandidate> = Vec::new();
    let mut i: usize = 0;
    assert(candidates.deep_view() =~= all.take(0).map_values(f));
    while i < found.len()
        invariant
            i <= found.len(),
            all == found.deep_view(),
            f == (|a: ScoredAppView| launch_candidate(a)),
            candidates.deep_view() == all.take(i as int).map_values(f),
        decreases found.len() - i,
    {
        let ghost before = candidates.deep_view();
        let app = &found[i];
        candidates.push(
            CatalogCandidate {
                bundle_id: app.record.bundle_id.clone(),
                app_name: app.record.app_name.clone(),
                capabilities: strings_from_json(app.record.capabilities_json.as_str()),
                score: app.score,
            },
        );
        assert(all[i as int] == app.deep_view());
        assert(candidates.deep_view() =~= before.push(f(all[i as int])));
        assert(candidates.deep_view() =~= all.take(i + 1).map_values(f));
        i = i + 1;
    }
    assert(all.take(all.len() as int) =~= all);
    select_catalog_picks(&candidates, inferred_caps, present, SUMMON_MAX_CATALOG_PICKS)
}

/// What counts as present already: what is running, and what the nodes belong
/// to.
pub open spec fn present_ids(running: Seq<Seq<char>>, nodes: Seq<WindowNodeView>) -> Seq<
    Seq<char>,
> {
    running + nodes.map_values(|n: WindowNodeView| n.bundle_id)
}

/// The node that launches an app, as the `index`-th of its workspace.
pub open spec fn launch_node(app: CatalogCandidateView, index: int) -> WindowNodeView {
    WindowNodeView {
        node_id: "n"@ + text::decimal(index as nat),
        bundle_id: app.bundle_id,
        app_name: app.app_name,
        window_title: Seq::empty(),
        geometry: WindowGeometry { x: 0, y: 0, width: 0, height: 0 },
        adapter: AdapterKind::Generic,
        payload: NodePayloadView::Generic,
    }
}

/// The nodes that launch apps, numbered on from `first`.
pub open spec fn launch_nodes(apps: Seq<CatalogCandidateView>, first: int) -> Seq<WindowNodeView> {
    Seq::new(apps.len(), |i: int| launch_node(apps[i], first + i))
}

/// What a summoned workspace is called.
pub open spec fn summoned_summary(text: Seq<char>, items: nat, apps: nat) -> Seq<char> {
    "Summoned for \""@ + text + "\" · "@ + text::decimal(items) + " items"@ + if apps > 0 {
        ", "@ + text::decimal(apps) + " apps to open"@
    } else {
        Seq::empty()
    }
}

/// The workspace composed for an intent: the windows the picks stand for, then
/// the apps to open, which are marked as speculative. None when there is
/// neither.
pub open spec fn summoned(
    picks: Seq<NodePickView>,
    running: Seq<Seq<char>>,
    found: Seq<ScoredAppView>,
    inferred: Seq<Seq<char>>,
    text: Seq<char>,
    workspace_id: Seq<char>,
    now: i64,
) -> Option<QueryCandidateView> {
    let items = grouping::synthesized(picks);
    let apps = launch_picks(found, inferred, present_ids(running, items));
    let launches = launch_nodes(apps, items.len() as int);
    let nodes = items + launches;
    if nodes.len() == 0 {
        None
    } else {
        Some(
            QueryCandidateView {
                workspace: WorkspaceStateView {
                    workspace_id,
                    captured_at_unix_ms: now,
                    summary: summoned_summary(text, items.len(), apps.len()),
                    tags: tagging::tags_of(nodes),
                    nodes,
                    groups: Seq::empty(),
                },
                score: 0,
                kind: CandidateKind::Summoned,
                source_workspace_id: None,
                speculative_node_ids: launches.map_values(|n: WindowNodeView| n.node_id),
            },
        )
    }
}

fn present_bundles(running: &Vec<String>, nodes: &Vec<WindowNode>) -> (r: Vec<String>)
    ensures
        r.deep_view() == present_ids(running.deep_view(), nodes.deep_view()),
{
    let ghost ids = nodes.deep_view().map_values(|n: WindowNodeView| n.bundle_id);
    let mut out = running.clone();
    let ghost start = out.deep_view();
    let mut i: usize = 0;
    assert(start =~= start + ids.take(0));
    while i < nodes.len()
        invariant
            i <= nodes.len(),
            ids == nodes.deep_view().map_values(|n: WindowNodeView| n.bundle_id),
            out.deep_view() == start + ids.take(i as int),
        decreases nodes.len() - i,
    {
        let ghost before = out.deep_view();
        out.push(nodes[i].bundle_id.clone());
        assert(ids[i as int] == nodes[i as int].bundle_id@);
        assert(out.deep_view() =~= before.push(ids[i as int]));
        assert(out.deep_view() =~= start + ids.take(i + 1));
        i = i + 1;
    }
    assert(ids.take(ids.len() as int) =~= ids);
    out
}

fn push_launches(apps: &Vec<CatalogCandidate>, nodes: &mut Vec<WindowNode>) -> (r: Vec<String>)
    ensures
        final(nodes).deep_view() == old(nodes).deep_view() + launch_nodes(
            apps.deep_view(),
            old(nodes).len() as int,
        ),
        r.deep_view() == launch_nodes(apps.deep_view(), old(nodes).len() as int).map_values(
            |n: WindowNodeView| n.node_id,
        ),
{
    let ghost start = nodes.deep_view();
    let ghost launches = launch_nodes(apps.deep_view(), start.len() as int);
    let ghost ids = launches.map_values(|n: WindowNodeView| n.node_id);
    let mut speculative: Vec<String> = Vec::new();
    let mut i: usize = 0;
    assert(start =~= start + launches.take(0));
    assert(speculative.deep_view() =~= ids.take(0));
    while i < apps.len()
        invariant
            i <= apps.len(),
            launches == launch_nodes(apps.deep_view(), start.len() as int),
            ids == launches.map_values(|n: WindowNodeView| n.node_id),
            nodes.deep_view() == start + launches.take(i as int),
            speculative.deep_view() == ids.take(i as int),
        decreases apps.len() - i,
    {
        let ghost n0 = nodes.deep_view();
        let ghost s0 = speculative.deep_view();
        let app = &apps[i];
        assert(nodes.len() == start.len() + i) by {
            assert(nodes.deep_view().len() == start.len() + i);
        }
        let node_id = "n".to_owned().concat(decimal_of(nodes.len() as u128).as_str());
        speculative.push(node_id.clone());
        let node = WindowNode {
            node_id,
            bundle_id: app.bundle_id.clone(),
            app_name: app.app_name.clone(),
            window_title: String::new(),
            geometry: WindowGeometry { x: 0, y: 0, width: 0, height: 0 },
            adapter: AdapterKind::Generic,
            payload: NodePayload::Generic,
        };
        assert(node.deep_view() =~= launches[i as int]);
        nodes.push(node);
        assert(nodes.deep_view() =~= n0.push(launches[i as int]));
        assert(nodes.deep_view() =~= start + launches.take(i + 1));
        assert(ids[i as int] == launches[i as int].node_id);
        assert(speculative.deep_view() =~= s0.push(ids[i as int]));
        assert(speculative.deep_view() =~= ids.take(i + 1));
        i = i + 1;
    }
    assert(launches.take(launches.len() as int) =~= launches);
    assert(ids.take(ids.len() as int) =~= ids);
    speculative
}

/// Synthesizes one workspace for the intent: windows from the live desktop and
/// history, plus speculative launches of installed apps the intent implies and
/// that are not there yet. None when nothing clears the bar.
pub fn compose_summoned(
    picks: Vec<NodePick>,
    running: &Vec<String>,
    found: &Vec<ScoredApp>,
    inferred_caps: &Vec<String>,
    text: &str,
    workspace_id: String,
    now: i64,
) -> (r: Option<QueryCandidate>)
    ensures
        r.deep_view() == summoned(
            picks.deep_view(),
            running.deep_view(),
            found.deep_view(),
            inferred_caps.deep_view(),
            text@,
            workspace_id@,
            now,
        ),
{
    let mut nodes = synthesize_nodes(picks);
    let item_count: usize = nodes.len();
    let present = present_bundles(running, &nodes);
    let apps = catalog_launch_picks(found, inferred_caps, &present);
    let speculative = push_launches(&apps, &mut nodes);
    if nodes.len() == 0 {
        return None;
    }
    let mut summary = "Summoned for \"".to_owned().concat(text).concat("\" · ").concat(
        decimal_of(item_count as u128).as_str(),
    ).concat(" items");
    if apps.len() > 0 {
        let clause = ", ".to_owned().concat(decimal_of(apps.len() as u128).as_str()).concat(
            " apps to open",
        );
        summary = summary.concat(clause.as_str());
    }
    assert(summary@ =~= summoned_summary(text@, item_count as nat, apps.len() as nat));
    let bare = WorkspaceState {
        workspace_id,
        captured_at_unix_ms: now,
        summary,
        tags: Vec::new(),
        nodes,
        groups: Vec::new(),
    };
    assert(bare.groups.deep_view() =~= Seq::<WorkspaceGroupView>::empty());
    let tags = derive_tags(&bare);
    Some(
        QueryCandidate {
            workspace: WorkspaceState { tags, ..bare },
            score: 0,
            kind: CandidateKind::Summoned,
            source_workspace_id: None,
            speculative_node_ids: speculative,
        },
    )
}

proof fn lemma_settled(pool: Seq<ScoredPickView>)
    ensures
        forall|i: int, j: int|
            0 <= i < j < settled(pool).len() ==> (#[trigger] settled(pool)[i]).dedup_key != (
            #[trigger] settled(pool)[j]).dedup_key,
        forall|i: int| 0 <= i < settled(pool).len() ==> pool.contains(#[trigger] settled(pool)[i]),
    decreases pool.len(),
{
    if pool.len() > 0 {
        lemma_settled(pool.drop_last());
        let kept = settled(pool.drop_last());
        let p = pool.last();
        let pred = has_key(p.dedup_key);
        let at = order::first_where(kept, pred, 0);
        order::lemma_first_where(kept, pred, 0);
        let out = settled(pool);
        assert forall|i: int, j: int| 0 <= i < j < out.len() implies (
        #[trigger] out[i]).dedup_key != (#[trigger] out[j]).dedup_key by {
            if at < kept.len() {
                assert(pred(kept[at]));
            }
            if i < kept.len() {
                assert(kept[i].dedup_key == out[i].dedup_key);
            }
            if j < kept.len() {
                assert(kept[j].dedup_key == out[j].dedup_key);
            } else {
                assert(!pred(kept[i]));
            }
        }
        assert forall|i: int| 0 <= i < out.len() implies pool.contains(#[trigger] out[i]) by {
            assert(pool[pool.len() - 1] == p);
            if i < kept.len() && out[i] == kept[i] {
                let k = choose|k: int|
                    0 <= k < pool.drop_last().len() && pool.drop_last()[k] == kept[i];
                assert(pool[k] == out[i]);
            }
        }
    }
}

/// An identity that is open on the live desktop is never represented by a
/// historical copy.
pub proof fn live_wins(pool: Seq<ScoredPickView>, k: int)
    requires
        0 <= k < pool.len(),
        pool[k].from_live,
    ensures
        forall|i: int|
            0 <= i < settled(pool).len() && (#[trigger] settled(pool)[i]).dedup_key
                == pool[k].dedup_key ==> settled(pool)[i].from_live,
    decreases pool.len(),
{
    let kept = settled(pool.drop_last());
    let p = pool.last();
    let pred = has_key(p.dedup_key);
    let at = order::first_where(kept, pred, 0);
    order::lemma_first_where(kept, pred, 0);
    lemma_settled(pool.drop_last());
    let out = settled(pool);
    if at < kept.len() {
        assert(pred(kept[at]));
    }
    if k < pool.len() - 1 {
        assert(pool.drop_last()[k] == pool[k]);
        live_wins(pool.drop_last(), k);
    }
    assert forall|i: int|
        0 <= i < out.len() && (#[trigger] out[i]).dedup_key
            == pool[k].dedup_key implies out[i].from_live by {
        if i < kept.len() {
            assert(kept[i].dedup_key == out[i].dedup_key);
            if k == pool.len() - 1 {
                if i != at {
                    if i < at {
                        assert(!pred(kept[i]));
                    } else {
                        assert(kept[at].dedup_key != kept[i].dedup_key);
                    }
                }
            }
        } else if k < pool.len() - 1 {
            assert(out[i] == p);
            lemma_settled_covers(pool.drop_last(), k);
            let j = choose|j: int|
                0 <= j < kept.len() && (#[trigger] kept[j]).dedup_key == pool[k].dedup_key;
            assert(!pred(kept[j]));
        }
    }
}

proof fn lemma_settled_covers(pool: Seq<ScoredPickView>, k: int)
    requires
        0 <= k < pool.len(),
    ensures
        exists|j: int|
            0 <= j < settled(pool).len() && (#[trigger] settled(pool)[j]).dedup_key
                == pool[k].dedup_key,
    decreases pool.len(),
{
    let kept = settled(pool.drop_last());
    let p = pool.last();
    let pred = has_key(p.dedup_key);
    let at = order::first_where(kept, pred, 0);
    order::lemma_first_where(kept, pred, 0);
    let out = settled(pool);
    if k == pool.len() - 1 {
        if at < kept.len() {
            assert(pred(kept[at]));
            assert(out[at].dedup_key == p.dedup_key);
        } else {
            assert(out[kept.len() as int] == p);
        }
    } else {
        assert(pool.drop_last()[k] == pool[k]);
        lemma_settled_covers(pool.drop_last(), k);
        let j = choose|j: int|
            0 <= j < kept.len() && (#[trigger] kept[j]).dedup_key == pool[k].dedup_key;
        if at < kept.len() {
            assert(pred(kept[at]));
        }
        assert(out[j].dedup_key == kept[j].dedup_key);
    }
}

/// A summons never proposes launching an app that is already running or whose
/// window it already brings back, and marks exactly the launches as
/// speculative.
pub proof fn launches_are_new_and_marked(
    picks: Seq<NodePickView>,
    running: Seq<Seq<char>>,
    found: Seq<ScoredAppView>,
    inferred: Seq<Seq<char>>,
    text: Seq<char>,
    workspace_id: Seq<char>,
    now: i64,
    i: int,
)
    requires
        summoned(picks, running, found, inferred, text, workspace_id, now) matches Some(c)
            && grouping::synthesized(picks).len() <= i < c.workspace.nodes.len(),
    ensures
        summoned(picks, running, found, inferred, text, workspace_id, now) matches Some(c) && ({
            let first = grouping::synthesized(picks).len();
            &&& !running.contains(c.workspace.nodes[i].bundle_id)
            &&& forall|k: int|
                0 <= k < first ==> (#[trigger] c.workspace.nodes[k]).bundle_id
                    != c.workspace.nodes[i].bundle_id
            &&& c.speculative_node_ids.len() == c.workspace.nodes.len() - first
            &&& c.speculative_node_ids[i - first] == c.workspace.nodes[i].node_id
            &&& c.speculative_node_ids.len() <= SUMMON_MAX_CATALOG_PICKS
        }),
{
    let items = grouping::synthesized(picks);
    let present = present_ids(running, items);
    let candidates = found.map_values(|a: ScoredAppView| launch_candidate(a));
    let apps = launch_picks(found, inferred, present);
    let at = i - items.len();
    catalog::picks_are_warranted(
        candidates,
        inferred,
        present,
        SUMMON_MAX_CATALOG_PICKS as int,
        at,
    );
    let app = apps[at];
    assert(!present.contains(app.bundle_id));
    let ids = items.map_values(|n: WindowNodeView| n.bundle_id);
    if running.contains(app.bundle_id) {
        let k = choose|k: int| 0 <= k < running.len() && running[k] == app.bundle_id;
        assert(present[k] == app.bundle_id);
    }
    let launches = launch_nodes(apps, items.len() as int);
    let nodes = items + launches;
    assert(nodes[i] == launches[at]);
    assert forall|k: int| 0 <= k < items.len() implies (#[trigger] nodes[k]).bundle_id
        != nodes[i].bundle_id by {
        assert(present[running.len() + k] == ids[k]);
        assert(ids[k] == items[k].bundle_id);
    }
}

/// When every score is a number, picks come best first, whichever identity they
/// settle, and there are at most as many as an assembled workspace may hold.
pub proof fn picks_come_best_first(pool: Seq<ScoredPickView>, lowered: u64, i: int, j: int)
    requires
        forall|k: int| 0 <= k < pool.len() ==> doubles::is_number((#[trigger] pool[k]).score),
        0 <= i < j < ranked(pool).len(),
    ensures
        !doubles::below(ranked(pool)[i].score, ranked(pool)[j].score),
        chosen(pool, lowered).len() <= query::MAX_ASSEMBLED_ITEMS,
{
    let before = |a: ScoredPickView, b: ScoredPickView| doubles::below(b.score, a.score);
    let member = |p: ScoredPickView| doubles::is_number(p.score);
    let all = settled(pool);
    lemma_settled(pool);
    assert forall|k: int| 0 <= k < all.len() implies member(#[trigger] all[k]) by {
        let m = choose|m: int| 0 <= m < pool.len() && pool[m] == all[k];
        assert(doubles::is_number(pool[m].score));
    }
    order::lemma_ordered_is_ordered(all, before, member);
    assert(!before(ranked(pool)[j], ranked(pool)[i]));
}

/// Every identity in a pool is settled, exactly once, by a pick of the pool.
pub proof fn identities_settle_once(pool: Seq<ScoredPickView>, k: int)
    requires
        0 <= k < pool.len(),
    ensures
        exists|j: int|
            0 <= j < settled(pool).len() && (#[trigger] settled(pool)[j]).dedup_key
                == pool[k].dedup_key,
        forall|i: int, j: int|
            0 <= i < j < settled(pool).len() ==> (#[trigger] settled(pool)[i]).dedup_key != (
            #[trigger] settled(pool)[j]).dedup_key,
        forall|i: int| 0 <= i < settled(pool).len() ==> pool.contains(#[trigger] settled(pool)[i]),
{
    lemma_settled(pool);
    lemma_settled_covers(pool, k);
}

/// A window of the live desktop is never taken for one of a stored snapshot,
/// whose id holds no ':' and is not "live".
pub proof fn live_ids_tell_the_desktop_apart(m: Seq<char>, b: Seq<char>, n: Seq<char>)
    requires
        !b.contains(':'),
        b != "live"@,
    ensures
        "live::"@ + m != b + "::"@ + n,
{
    reveal_strlit("live");
    reveal_strlit("live::");
    reveal_strlit("::");
    assert("live::"@ + m =~= "live"@ + "::"@ + m);
    if "live::"@ + m == b + "::"@ + n {
        query::qualified_ids_tell_snapshots_apart("live"@, m, b, n);
    }
}

/// Of all picks of one identity the one that settles it is live where any is,
/// and no other of its kind scores higher.
#[verifier::rlimit(40)]
pub proof fn the_best_of_an_identity_settles_it(pool: Seq<ScoredPickView>, k: int, i: int)
    requires
        forall|m: int| 0 <= m < pool.len() ==> doubles::is_number((#[trigger] pool[m]).score),
        0 <= k < pool.len(),
        0 <= i < settled(pool).len(),
        settled(pool)[i].dedup_key == pool[k].dedup_key,
    ensures
        pool[k].from_live ==> settled(pool)[i].from_live,
        pool[k].from_live == settled(pool)[i].from_live ==> doubles::at_least(
            settled(pool)[i].score,
            pool[k].score,
        ),
    decreases pool.len(),
{
    let rest = pool.drop_last();
    let kept = settled(rest);
    let p = pool.last();
    let pred = has_key(p.dedup_key);
    let at = order::first_where(kept, pred, 0);
    order::lemma_first_where(kept, pred, 0);
    lemma_settled(rest);
    lemma_settled(pool);
    assert forall|m: int| 0 <= m < rest.len() implies doubles::is_number(
        (#[trigger] rest[m]).score,
    ) by {
        assert(rest[m] == pool[m]);
    }
    assert(pool[pool.len() - 1] == p);
    let out = settled(pool);
    assert(pool.contains(out[i]));
    if at < kept.len() {
        assert(pred(kept[at]));
    }
    if i < kept.len() {
        assert(kept[i].dedup_key == out[i].dedup_key);
        assert(rest.contains(kept[i]));
        let m = choose|m: int| 0 <= m < rest.len() && rest[m] == kept[i];
        assert(doubles::is_number(rest[m].score));
        if k < rest.len() {
            assert(rest[k] == pool[k]);
            the_best_of_an_identity_settles_it(rest, k, i);
        } else if i < at {
            assert(!pred(kept[i]));
        } else if at < i {
            assert(kept[at].dedup_key != kept[i].dedup_key);
        }
    } else if k < rest.len() {
        assert(rest[k] == pool[k]);
        lemma_settled_covers(rest, k);
        let j = choose|j: int|
            0 <= j < kept.len() && (#[trigger] kept[j]).dedup_key == pool[k].dedup_key;
        assert(!pred(kept[j]));
    }
}

/// The items of a summoned workspace are the best of those within reach. Each
/// stands for an identity of the pool, scores at least 0.62 and at least the best
/// score less the margin, and comes before those that score lower; one
/// that reaches both is left out only where the workspace is full of others that
/// score as high.
#[verifier::rlimit(40)]
pub proof fn picks_are_the_best_within_reach(pool: Seq<ScoredPickView>, lowered: u64) -> (best: Seq<
    ScoredPickView,
>)
    requires
        forall|k: int| 0 <= k < pool.len() ==> doubles::is_number((#[trigger] pool[k]).score),
    ensures
        chosen(pool, lowered).len() == best.len() <= 10,
        best.no_duplicates(),
        forall|i: int| 0 <= i < best.len() ==> chosen(pool, lowered)[i] == best[i].pick,
        forall|i: int|
            0 <= i < best.len() ==> {
                &&& settled(pool).contains(#[trigger] best[i])
                &&& doubles::at_least(best[i].score, 0x3FE3_D70A_3D70_A3D7)
                &&& doubles::is_number(lowered) ==> doubles::at_least(best[i].score, lowered)
            },
        forall|i: int, j: int|
            0 <= i < j < best.len() ==> doubles::at_least(
                (#[trigger] best[i]).score,
                (#[trigger] best[j]).score,
            ),
        forall|p: ScoredPickView| #[trigger]
            settled(pool).contains(p) && doubles::at_least(p.score, 0x3FE3_D70A_3D70_A3D7) && (
            doubles::is_number(lowered) ==> doubles::at_least(p.score, lowered)) ==> best.contains(
                p,
            ) || best.len() == 10 && forall|i: int|
                0 <= i < 10 ==> doubles::at_least((#[trigger] best[i]).score, p.score),
{
    let before = |a: ScoredPickView, b: ScoredPickView| doubles::below(b.score, a.score);
    let member = |p: ScoredPickView| doubles::is_number(p.score);
    let floor = SUMMON_MIN_ITEM_SCORE;
    let cutoff = doubles::larger(floor, lowered);
    let reaches = |p: ScoredPickView| doubles::at_least(p.score, cutoff);
    let all = settled(pool);
    let sorted = ranked(pool);
    let kept = sorted.filter(reaches);
    let best = text::at_most(kept, query::MAX_ASSEMBLED_ITEMS as int);
    lemma_settled(pool);
    assert forall|k: int| 0 <= k < all.len() implies member(#[trigger] all[k]) by {
        let m = choose|m: int| 0 <= m < pool.len() && pool[m] == all[k];
        assert(doubles::is_number(pool[m].score));
    }
    order::lemma_ordered_is_ordered(all, before, member);
    order::lemma_ordered_contains(all, before);
    order::lemma_ordered_permutes(all, before);
    order::lemma_filter_is_ordered(sorted, reaches, before);
    assert(all.no_duplicates()) by {
        assert forall|i: int, j: int|
            0 <= i < all.len() && 0 <= j < all.len() && i != j implies all[i] != all[j] by {
            if i < j {
                assert(all[i].dedup_key != all[j].dedup_key);
            } else {
                assert(all[j].dedup_key != all[i].dedup_key);
            }
        }
    }
    all.lemma_multiset_has_no_duplicates();
    sorted.lemma_multiset_has_no_duplicates_conv();
    order::lemma_filter_distinct(sorted, reaches);
    assert forall|i: int| 0 <= i < kept.len() implies all.contains(#[trigger] kept[i]) && reaches(
        kept[i],
    ) by {
        order::lemma_filter_contains(sorted, reaches, kept[i]);
        assert(kept.contains(kept[i]));
        assert(sorted.contains(kept[i]));
    }
    assert forall|i: int, j: int| 0 <= i < j < kept.len() implies doubles::at_least(
        (#[trigger] kept[i]).score,
        (#[trigger] kept[j]).score,
    ) by {
        assert(!before(kept[j], kept[i]));
    }
    assert forall|p: ScoredPickView| #[trigger]
        all.contains(p) && doubles::at_least(p.score, SUMMON_MIN_ITEM_SCORE) && (doubles::is_number(
            lowered,
        ) ==> doubles::at_least(p.score, lowered)) implies best.contains(p) || best.len() == 10
        && forall|i: int|
        0 <= i < 10 ==> doubles::at_least((#[trigger] best[i]).score, p.score) by {
        order::lemma_filter_contains(sorted, reaches, p);
        assert(sorted.contains(p));
        assert(kept.contains(p));
        let k = choose|k: int| 0 <= k < kept.len() && kept[k] == p;
        if k < best.len() {
            assert(best[k] == p);
        }
    }
    best
}

/// An item of the live desktop becomes a pick of the first window with its id,
/// as it stands, under an id that tells it from stored windows, and of its tab
/// alone where it is a tab; there is none only where no window has its id.
pub proof fn live_items_keep_their_window(nodes: Seq<WindowNodeView>, item_ref: ItemRefView)
    ensures
        match live_pick_of(nodes, item_ref) {
            None => forall|k: int|
                0 <= k < nodes.len() ==> (#[trigger] nodes[k]).node_id != item_ref.node_id,
            Some(pick) => {
                &&& pick.node.node_id == "live::"@ + item_ref.node_id
                &&& item_ref.tab_index is None ==> pick.tab_indices is None
                &&& item_ref.tab_index matches Some(index) ==> pick.tab_indices == Some(seq![index])
                &&& exists|k: int|
                    {
                        &&& 0 <= k < nodes.len()
                        &&& (#[trigger] nodes[k]).node_id == item_ref.node_id
                        &&& forall|m: int|
                            0 <= m < k ==> (#[trigger] nodes[m]).node_id != item_ref.node_id
                        &&& pick.node.bundle_id == nodes[k].bundle_id
                        &&& pick.node.app_name == nodes[k].app_name
                        &&& pick.node.window_title == nodes[k].window_title
                        &&& pick.node.geometry == nodes[k].geometry
                        &&& pick.node.adapter == nodes[k].adapter
                        &&& pick.node.payload == nodes[k].payload
                    }
            },
        },
{
    let pred = |n: WindowNodeView| n.node_id == item_ref.node_id;
    order::lemma_first_where(nodes, pred, 0);
    let at = grouping::node_at(nodes, item_ref.node_id);
    if at < nodes.len() {
        assert(pred(nodes[at]));
        assert forall|m: int| 0 <= m < at implies (#[trigger] nodes[m]).node_id
            != item_ref.node_id by {
            assert(!pred(nodes[m]));
        }
        assert(nodes[at].node_id == item_ref.node_id);
    } else {
        assert forall|k: int| 0 <= k < nodes.len() implies (#[trigger] nodes[k]).node_id
            != item_ref.node_id by {
            assert(!pred(nodes[k]));
        }
    }
}

/// Every item of the live desktop whose window is there joins the pool once and in
/// order, with its own score and identity, and nothing else does.
#[verifier::rlimit(40)]
pub proof fn live_items_join_the_pool(
    nodes: Seq<WindowNodeView>,
    items: Seq<WorkspaceItemView>,
    scores: Seq<u64>,
)
    requires
        items.len() == scores.len(),
    ensures
        live_pool(nodes, items, scores).map_values(|p: ScoredPickView| p.dedup_key) == items.filter(
            |w: WorkspaceItemView| live_pick_of(nodes, w.item_ref) is Some,
        ).map_values(|w: WorkspaceItemView| w.dedup_key),
        forall|i: int|
            0 <= i < items.len() ==> (live_pick_of(nodes, (#[trigger] items[i]).item_ref) matches Some(
                pick,
            ) ==> live_pool(nodes, items, scores).contains(
                ScoredPickView {
                    score: scores[i],
                    from_live: true,
                    dedup_key: items[i].dedup_key,
                    pick,
                },
            )),
        forall|j: int|
            0 <= j < live_pool(nodes, items, scores).len() ==> {
                let p = #[trigger] live_pool(nodes, items, scores)[j];
                p.from_live && exists|i: int|
                    {
                        &&& 0 <= i < items.len()
                        &&& p.dedup_key == (#[trigger] items[i]).dedup_key
                        &&& p.score == scores[i]
                        &&& live_pick_of(nodes, items[i].item_ref) == Some(p.pick)
                    }
            },
{
    let places = Seq::new(items.len(), |i: int| i);
    let keep = |i: int| live_pick_of(nodes, items[i].item_ref) is Some;
    let read = |i: int|
        ScoredPickView {
            score: scores[i],
            from_live: true,
            dedup_key: items[i].dedup_key,
            pick: live_pick_of(nodes, items[i].item_ref)->0,
        };
    let f = |i: int|
        match live_pick_of(nodes, items[i].item_ref) {
            Some(pick) => seq![
                ScoredPickView {
                    score: scores[i],
                    from_live: true,
                    dedup_key: items[i].dedup_key,
                    pick,
                },
            ],
            None => Seq::empty(),
        };
    text::lemma_gathered_kept(places, f, keep, read);
    let pool = live_pool(nodes, items, scores);
    assert(pool == text::gathered(places, f));
    let on = |w: WorkspaceItemView| live_pick_of(nodes, w.item_ref) is Some;
    lemma_kept_places(items, on, items.len() as int);
    assert(places.take(items.len() as int) =~= places);
    assert(items.take(items.len() as int) =~= items);
    assert(places.filter(keep) =~= places.filter(|i: int| on(items[i]))) by {
        order::lemma_filter_same(places, keep, |i: int| on(items[i]));
    }
    let kept = places.filter(keep);
    let found = items.filter(on);
    assert(found == kept.map_values(|i: int| items[i]));
    assert(pool.map_values(|p: ScoredPickView| p.dedup_key) =~= found.map_values(
        |w: WorkspaceItemView| w.dedup_key,
    ));
    assert forall|i: int| 0 <= i < items.len() implies (live_pick_of(
        nodes,
        (#[trigger] items[i]).item_ref,
    ) matches Some(pick) ==> pool.contains(
        ScoredPickView { score: scores[i], from_live: true, dedup_key: items[i].dedup_key, pick },
    )) by {
        if keep(i) {
            assert(places[i] == i);
            text::lemma_gathered_contains(places, f, i, 0);
        }
    }
    assert forall|j: int| 0 <= j < pool.len() implies ({
        let p = #[trigger] pool[j];
        p.from_live && exists|i: int|
            {
                &&& 0 <= i < items.len()
                &&& p.dedup_key == (#[trigger] items[i]).dedup_key
                &&& p.score == scores[i]
                &&& live_pick_of(nodes, items[i].item_ref) == Some(p.pick)
            }
    }) by {
        let (i, k) = text::lemma_gathered_from(places, f, j);
        assert(pool[j] == f(places[i])[k]);
        assert(places[i] == i);
        assert(items[i].dedup_key == pool[j].dedup_key);
    }
}

proof fn lemma_kept_places<A>(s: Seq<A>, keep: spec_fn(A) -> bool, n: int)
    requires
        0 <= n <= s.len(),
    ensures
        Seq::new(s.len(), |i: int| i).take(n).filter(|i: int| keep(s[i])).map_values(|i: int| s[i])
            == s.take(n).filter(keep),
    decreases n,
{
    reveal(Seq::filter);
    if n > 0 {
        let places = Seq::new(s.len(), |i: int| i);
        lemma_kept_places(s, keep, n - 1);
        text::lemma_take_step(places, n - 1);
        text::lemma_take_step(s, n - 1);
    }
    assert(Seq::new(s.len(), |i: int| i).take(n).filter(|i: int| keep(s[i])).map_values(
        |i: int| s[i],
    ) =~= s.take(n).filter(keep));
}

/// Every stored item whose window is still in its snapshot joins the pool with
/// its own score and identity, as a historical pick, in the order of the hits,
/// and nothing else does.
pub proof fn stored_items_join_the_pool(
    hits: Seq<ScoredItemView>,
    sources: Seq<SourceSnapshotView>,
)
    ensures
        ({
            let found = hits.filter(
                |h: ScoredItemView| query::stored_pick(h.item, sources) is Some,
            );
            let pool = history_pool(hits, sources);
            &&& pool.len() == found.len()
            &&& forall|i: int|
                0 <= i < pool.len() ==> {
                    &&& !(#[trigger] pool[i]).from_live
                    &&& pool[i].score == found[i].score
                    &&& pool[i].dedup_key == found[i].item.dedup_key
                    &&& query::stored_pick(found[i].item, sources) == Some(pool[i].pick)
                }
        }),
{
    let keep = |h: ScoredItemView| query::stored_pick(h.item, sources) is Some;
    let read = |h: ScoredItemView|
        ScoredPickView {
            score: h.score,
            from_live: false,
            dedup_key: h.item.dedup_key,
            pick: query::stored_pick(h.item, sources)->0,
        };
    let f = |h: ScoredItemView|
        match query::stored_pick(h.item, sources) {
            Some(pick) => seq![
                ScoredPickView {
                    score: h.score,
                    from_live: false,
                    dedup_key: h.item.dedup_key,
                    pick,
                },
            ],
            None => Seq::empty(),
        };
    text::lemma_gathered_kept(hits, f, keep, read);
    let found = hits.filter(keep);
    let pool = history_pool(hits, sources);
    assert(pool == text::gathered(hits, f));
    order::lemma_filtered(hits, keep);
    assert forall|i: int| 0 <= i < pool.len() implies {
        &&& !(#[trigger] pool[i]).from_live
        &&& pool[i].score == found[i].score
        &&& pool[i].dedup_key == found[i].item.dedup_key
        &&& query::stored_pick(found[i].item, sources) == Some(pool[i].pick)
    } by {
        assert(keep(found[i]));
        assert(pool[i] == read(found[i]));
    }
}

/// A summoned workspace holds the windows of its picks and, behind them, one
/// window for each app to open: that of an app found in the catalog, by its id
/// and name, with nothing captured in it. There is none only where there is
/// neither.
#[verifier::rlimit(40)]
pub proof fn summoned_windows_are_items_and_launches(
    picks: Seq<NodePickView>,
    running: Seq<Seq<char>>,
    found: Seq<ScoredAppView>,
    inferred: Seq<Seq<char>>,
    text: Seq<char>,
    workspace_id: Seq<char>,
    now: i64,
)
    ensures
        ({
            let items = grouping::synthesized(picks);
            let apps = launch_picks(found, inferred, present_ids(running, items));
            match summoned(picks, running, found, inferred, text, workspace_id, now) {
                None => items.len() == 0 && apps.len() == 0,
                Some(c) => {
                    &&& items.len() + apps.len() > 0
                    &&& c.kind == CandidateKind::Summoned
                    &&& c.source_workspace_id is None
                    &&& c.score == 0
                    &&& c.workspace.workspace_id == workspace_id
                    &&& c.workspace.captured_at_unix_ms == now
                    &&& c.workspace.groups.len() == 0
                    &&& c.workspace.tags == tagging::tags_of(c.workspace.nodes)
                    &&& c.workspace.nodes.len() == items.len() + apps.len()
                    &&& apps.len() <= 3
                    &&& c.workspace.nodes.take(items.len() as int) == items
                    &&& c.speculative_node_ids.len() == apps.len()
                    &&& forall|i: int|
                        items.len() <= i < c.workspace.nodes.len() ==> {
                            let n = #[trigger] c.workspace.nodes[i];
                            &&& n.node_id == "n"@ + text::decimal(i as nat)
                            &&& n.bundle_id == apps[i - items.len()].bundle_id
                            &&& n.app_name == apps[i - items.len()].app_name
                            &&& n.window_title.len() == 0
                            &&& n.geometry == (WindowGeometry { x: 0, y: 0, width: 0, height: 0 })
                            &&& n.adapter == AdapterKind::Generic
                            &&& n.payload is Generic
                            &&& exists|k: int|
                                0 <= k < found.len() && (#[trigger] found[k]).record.bundle_id
                                    == n.bundle_id && found[k].record.app_name == n.app_name
                        }
                    &&& apps.len() == 0 ==> c.workspace.summary == "Summoned for \""@ + text
                        + "\" · "@ + text::decimal(items.len()) + " items"@
                    &&& apps.len() > 0 ==> c.workspace.summary == "Summoned for \""@ + text
                        + "\" · "@ + text::decimal(items.len()) + " items, "@ + text::decimal(
                        apps.len(),
                    ) + " apps to open"@
                },
            }
        }),
{
    let items = grouping::synthesized(picks);
    let present = present_ids(running, items);
    let apps = launch_picks(found, inferred, present);
    let candidates = found.map_values(|a: ScoredAppView| launch_candidate(a));
    catalog::picks_are_capped(candidates, inferred, present, SUMMON_MAX_CATALOG_PICKS as int);
    if let Some(c) = summoned(picks, running, found, inferred, text, workspace_id, now) {
        let nodes = c.workspace.nodes;
        assert(nodes.take(items.len() as int) =~= items);
        assert forall|i: int| items.len() <= i < nodes.len() implies ({
            let n = #[trigger] nodes[i];
            &&& n.node_id == "n"@ + text::decimal(i as nat)
            &&& n.bundle_id == apps[i - items.len()].bundle_id
            &&& n.app_name == apps[i - items.len()].app_name
            &&& n.window_title.len() == 0
            &&& n.geometry == (WindowGeometry { x: 0, y: 0, width: 0, height: 0 })
            &&& n.adapter == AdapterKind::Generic
            &&& n.payload is Generic
            &&& exists|k: int|
                0 <= k < found.len() && (#[trigger] found[k]).record.bundle_id == n.bundle_id
                    && found[k].record.app_name == n.app_name
        }) by {
            let at = i - items.len();
            catalog::picks_are_warranted(
                candidates,
                inferred,
                present,
                SUMMON_MAX_CATALOG_PICKS as int,
                at,
            );
            assert(candidates.contains(apps[at]));
            let k = choose|k: int| 0 <= k < candidates.len() && candidates[k] == apps[at];
            assert(candidates[k] == launch_candidate(found[k]));
            assert(found[k].record.bundle_id == apps[at].bundle_id);
        }
        reveal_strlit(" items");
        reveal_strlit(", ");
        reveal_strlit(" items, ");
        assert(" items, "@ =~= " items"@ + ", "@);
        let head = "Summoned for \""@ + text + "\" · "@ + text::decimal(items.len());
        let tail = text::decimal(apps.len()) + " apps to open"@;
        if apps.len() > 0 {
            assert(c.workspace.summary =~= head + " items, "@ + text::decimal(apps.len())
                + " apps to open"@);
        } else {
            assert(c.workspace.summary =~= head + " items"@);
        }
    }
}

/// The apps that a summons may open are those found in the catalog, each under
/// its own id, name and score, with the capabilities its record lists, or with
/// none where the record cannot be read.
pub proof fn found_apps_are_offered_as_recorded(app: ScoredAppView)
    ensures
        launch_candidate(app).bundle_id == app.record.bundle_id,
        launch_candidate(app).app_name == app.record.app_name,
        launch_candidate(app).score == app.score,
        tagger::json_strings(app.record.capabilities_json) matches Some(caps) ==> launch_candidate(
            app,
        ).capabilities == caps,
        tagger::json_strings(app.record.capabilities_json) is None ==> launch_candidate(
            app,
        ).capabilities.len() == 0,
{
}

/// What counts as present is what runs and what a picked window belongs to.
pub proof fn present_apps_run_or_are_picked(
    running: Seq<Seq<char>>,
    nodes: Seq<WindowNodeView>,
    id: Seq<char>,
)
    ensures
        present_ids(running, nodes).contains(id) <==> running.contains(id) || exists|k: int|
            0 <= k < nodes.len() && (#[trigger] nodes[k]).bundle_id == id,
{
    let all = present_ids(running, nodes);
    if all.contains(id) {
        let k = choose|k: int| 0 <= k < all.len() && all[k] == id;
        if k < running.len() {
            assert(running[k] == id);
        } else {
            assert(nodes[k - running.len()].bundle_id == id);
        }
    }
    if running.contains(id) {
        let k = choose|k: int| 0 <= k < running.len() && running[k] == id;
        assert(all[k] == id);
    }
    if exists|k: int| 0 <= k < nodes.len() && (#[trigger] nodes[k]).bundle_id == id {
        let k = choose|k: int| 0 <= k < nodes.len() && (#[trigger] nodes[k]).bundle_id == id;
        assert(all[running.len() + k] == id);
    }
}

/// The best score of a pool is one that an identity settles on, and none settles
/// on a higher one; of an empty pool it is zero.
pub proof fn the_best_score_is_the_highest(pool: &Vec<ScoredPick>, best: u64)
    requires
        forall|i: int| 0 <= i < pool.len() ==> doubles::is_number((#[trigger] pool@[i]).score),
        call_ensures(best_score, (pool,), best),
    ensures
        ({
            let all = settled(pool.deep_view());
            &&& all.len() == 0 ==> best == 0
            &&& all.len() > 0 ==> exists|i: int|
                0 <= i < all.len() && (#[trigger] all[i]).score == best
            &&& forall|i: int|
                0 <= i < all.len() ==> doubles::at_least(best, (#[trigger] all[i]).score)
        }),
{
    let views = pool.deep_view();
    let all = settled(views);
    let sorted = ranked(views);
    let before = |a: ScoredPickView, b: ScoredPickView| doubles::below(b.score, a.score);
    let member = |p: ScoredPickView| doubles::is_number(p.score);
    lemma_settled(views);
    assert forall|k: int| 0 <= k < all.len() implies member(#[trigger] all[k]) by {
        let m = choose|m: int| 0 <= m < views.len() && views[m] == all[k];
        assert(doubles::is_number(pool@[m].score));
    }
    order::lemma_ordered_is_ordered(all, before, member);
    order::lemma_ordered_contains(all, before);
    order::lemma_ordered_permutes(all, before);
    order::lemma_ordered_members(all, before, member);
    if all.len() > 0 {
        assert(sorted.contains(sorted[0]));
        let i = choose|i: int| 0 <= i < all.len() && all[i] == sorted[0];
        assert(all[i].score == best);
        assert forall|i: int| 0 <= i < all.len() implies doubles::at_least(
            best,
            (#[trigger] all[i]).score,
        ) by {
            assert(all.contains(all[i]));
            assert(sorted.contains(all[i]));
            let k = choose|k: int| 0 <= k < sorted.len() && sorted[k] == all[i];
            assert(member(all[i]) && member(sorted[0]));
            if k > 0 {
                assert(!before(sorted[k], sorted[0]));
            }
        }
    }
}

/// Identities settle in the order in which the pool first names them.
pub proof fn identities_settle_in_order(pool: Seq<ScoredPickView>)
    ensures
        settled(pool).map_values(|p: ScoredPickView| p.dedup_key) == text::unique_of(
            pool.map_values(|p: ScoredPickView| p.dedup_key),
        ),
    decreases pool.len(),
{
    let key = |p: ScoredPickView| p.dedup_key;
    if pool.len() == 0 {
        assert(settled(pool).map_values(key) =~= text::unique_of(pool.map_values(key)));
    } else {
        let rest = pool.drop_last();
        identities_settle_in_order(rest);
        let kept = settled(rest);
        let p = pool.last();
        let pred = has_key(p.dedup_key);
        order::lemma_first_where(kept, pred, 0);
        let at = order::first_where(kept, pred, 0);
        let keys = pool.map_values(key);
        assert(keys.drop_last() =~= rest.map_values(key));
        assert(keys.last() == p.dedup_key);
        let seen = kept.map_values(key);
        if at < kept.len() {
            assert(pred(kept[at]));
            assert(seen[at] == p.dedup_key);
            assert(settled(pool).map_values(key) =~= seen);
        } else {
            if seen.contains(p.dedup_key) {
                let k = choose|k: int| 0 <= k < seen.len() && seen[k] == p.dedup_key;
                assert(!pred(kept[k]));
            }
            assert(settled(pool).map_values(key) =~= seen.push(p.dedup_key));
        }
    }
}

} // verus!
