//! Retrieval: the candidates a query yields.
//!
//! Similarity scores are computed by the vector index and travel as patterns of
//! doubles. Which hits count, how duplicates resolve and what a virtual
//! workspace is made of is decided here.

use vstd::prelude::*;

use crate::doubles;
use crate::grouping;
use crate::grouping::{find_node, materialize_group, synthesize_nodes, NodePick, NodePickView};
use crate::order;
use crate::store::{ItemRecord, ItemRecordView};
use crate::tagging;
use crate::tagging::derive_tags;
use crate::text;
use crate::text::{decimal_of, str_eq, trim, unique};
use crate::types::{
    CandidateKind, QueryCandidate, QueryCandidateView, WindowNodeView, WorkspaceGroup,
    WorkspaceGroupView,
    WorkspaceState, WorkspaceStateView,
};

verus! {

/// How many raw item hits to pull before dedup and thresholding.
pub const ITEM_SEARCH_POOL: usize = 48;

/// Items scoring below this (0.55) never enter an assembled workspace: better no
/// assembled candidate than one padded with weak matches.
pub const MIN_ASSEMBLED_SCORE: u64 = 0x3FE1_9999_9999_999A;

/// Items must also land within this margin (0.18) of the query's best item:
/// similarity is only meaningful relative to the query.
pub const ASSEMBLED_SCORE_MARGIN: u64 = 0x3FC7_0A3D_70A3_D70A;

/// Upper bound on items in an assembled workspace.
pub const MAX_ASSEMBLED_ITEMS: usize = 10;

/// A stored item with its similarity to a query, as the pattern of a double.
#[derive(Debug, PartialEq)]
pub struct ScoredItem {
    pub item: ItemRecord,
    pub score: u64,
}

/// What a `ScoredItem` says: its texts as character sequences, its lists as sequences.
#[verifier::ext_equal]
pub struct ScoredItemView {
    pub item: ItemRecordView,
    pub score: u64,
}

impl DeepView for ScoredItem {
    type V = ScoredItemView;

    open spec fn deep_view(&self) -> ScoredItemView {
        ScoredItemView {
            item: self.item.deep_view(),
            score: self.score,
        }
    }
}

impl Clone for ScoredItem {
    fn clone(&self) -> (r: Self)
        ensures
            r.deep_view() == self.deep_view(),
    {
        ScoredItem {
            item: self.item.clone(),
            score: self.score,
        }
    }
}

/// A stored workspace that items point into.
#[derive(Debug, PartialEq)]
pub struct SourceSnapshot {
    pub workspace_id: String,
    pub workspace: WorkspaceState,
}

/// What a `SourceSnapshot` says: its texts as character sequences, its lists as sequences.
#[verifier::ext_equal]
pub struct SourceSnapshotView {
    pub workspace_id: Seq<char>,
    pub workspace: WorkspaceStateView,
}

impl DeepView for SourceSnapshot {
    type V = SourceSnapshotView;

    open spec fn deep_view(&self) -> SourceSnapshotView {
        SourceSnapshotView {
            workspace_id: self.workspace_id.deep_view(),
            workspace: self.workspace.deep_view(),
        }
    }
}

impl Clone for SourceSnapshot {
    fn clone(&self) -> (r: Self)
        ensures
            r.deep_view() == self.deep_view(),
    {
        SourceSnapshot {
            workspace_id: self.workspace_id.clone(),
            workspace: self.workspace.clone(),
        }
    }
}

/// A stored workspace with its similarity to a query; `None` when the stored
/// payload does not decode.
#[derive(Debug, PartialEq)]
pub struct ScoredWorkspace {
    pub workspace: Option<WorkspaceState>,
    pub score: u64,
}

/// What a `ScoredWorkspace` says: its texts as character sequences, its lists as sequences.
#[verifier::ext_equal]
pub struct ScoredWorkspaceView {
    pub workspace: Option<WorkspaceStateView>,
    pub score: u64,
}

impl DeepView for ScoredWorkspace {
    type V = ScoredWorkspaceView;

    open spec fn deep_view(&self) -> ScoredWorkspaceView {
        ScoredWorkspaceView {
            workspace: self.workspace.deep_view(),
            score: self.score,
        }
    }
}

impl Clone for ScoredWorkspace {
    fn clone(&self) -> (r: Self)
        ensures
            r.deep_view() == self.deep_view(),
    {
        ScoredWorkspace {
            workspace: self.workspace.clone(),
            score: self.score,
        }
    }
}

/// The text to search for, without surrounding whitespace; none when there is
/// no embedder or nothing to search for, which means recency order.
pub open spec fn search_text(text: Seq<char>, has_embedder: bool) -> Option<Seq<char>> {
    if has_embedder && text::trimmed(text).len() > 0 {
        Some(text::trimmed(text))
    } else {
        None
    }
}

/// Decides how a query is answered: with the text to embed, or (`None`) by
/// recency.
pub fn query_route(text: &str, has_embedder: bool) -> (r: Option<String>)
    ensures
        r.deep_view() == search_text(text@, has_embedder),
{
    let trimmed = trim(text);
    if has_embedder && !trimmed.as_str().is_empty() {
        Some(trimmed)
    } else {
        None
    }
}

/// Whether the menu shows each workspace's groups too: only when nothing was
/// searched for.
pub fn shows_groups(text: &str) -> (r: bool)
    ensures
        r == (text::trimmed(text@).len() == 0),
{
    let trimmed = trim(text);
    trimmed.as_str().is_empty()
}

/// How many candidates a requested limit stands for.
pub fn candidate_limit(limit: i32) -> (r: usize)
    ensures
        r == if limit > 0 {
            limit as int
        } else {
            0
        },
{
    if limit > 0 {
        limit as usize
    } else {
        0
    }
}

/// A whole snapshot as a candidate.
pub open spec fn snapshot_candidate(w: WorkspaceStateView, score: u64) -> QueryCandidateView {
    QueryCandidateView {
        workspace: w,
        score,
        kind: CandidateKind::Workspace,
        source_workspace_id: None,
        speculative_node_ids: Seq::empty(),
    }
}

/// One group of a snapshot as a candidate; none when nothing of it is left.
pub open spec fn group_candidate(w: WorkspaceStateView, group: WorkspaceGroupView) -> Seq<
    QueryCandidateView,
> {
    match grouping::materialized(w, group.group_id) {
        None => Seq::empty(),
        Some(m) => seq![
            QueryCandidateView {
                workspace: m,
                score: 0,
                kind: CandidateKind::Group,
                source_workspace_id: Some(w.workspace_id),
                speculative_node_ids: Seq::empty(),
            },
        ],
    }
}

/// What one snapshot contributes to the recency list: itself, and on the menu
/// its groups behind it, when there are at least two.
pub open spec fn recency_entry(w: Option<WorkspaceStateView>, with_groups: bool) -> Seq<
    QueryCandidateView,
> {
    match w {
        None => Seq::empty(),
        Some(w) => seq![snapshot_candidate(w, 0)] + if with_groups && w.groups.len() >= 2 {
            text::gathered(w.groups, |g: WorkspaceGroupView| group_candidate(w, g))
        } else {
            Seq::empty()
        },
    }
}

/// The recency list: the first `limit` snapshots, those that don't decode left
/// out.
pub open spec fn recency_list(
    snapshots: Seq<Option<WorkspaceStateView>>,
    with_groups: bool,
    limit: int,
) -> Seq<QueryCandidateView> {
    text::gathered(
        text::at_most(snapshots, limit),
        |w: Option<WorkspaceStateView>| recency_entry(w, with_groups),
    )
}

fn push_groups(w: &WorkspaceState, out: &mut Vec<QueryCandidate>)
    ensures
        final(out).deep_view() == old(out).deep_view() + text::gathered(
            w.deep_view().groups,
            |g: WorkspaceGroupView| group_candidate(w.deep_view(), g),
        ),
{
    let ghost start = out.deep_view();
    let ghost v = w.deep_view();
    let ghost groups = v.groups;
    let ghost f = |g: WorkspaceGroupView| group_candidate(v, g);
    let mut i: usize = 0;
    assert(start =~= start + text::gathered(groups.take(0), f));
    while i < w.groups.len()
        invariant
            i <= w.groups.len(),
            v == w.deep_view(),
            groups == v.groups,
            f == (|g: WorkspaceGroupView| group_candidate(v, g)),
            out.deep_view() == start + text::gathered(groups.take(i as int), f),
        decreases w.groups.len() - i,
    {
        let ghost here = out.deep_view();
        let group: &WorkspaceGroup = &w.groups[i];
        if let Some(m) = materialize_group(w, group.group_id.as_str()) {
            let c = QueryCandidate {
                workspace: m,
                score: 0,
                kind: CandidateKind::Group,
                source_workspace_id: Some(w.workspace_id.clone()),
                speculative_node_ids: Vec::new(),
            };
            assert(c.deep_view() =~~= group_candidate(v, groups[i as int])[0]);
            out.push(c);
        }
        proof {
            text::lemma_take_step(groups, i as int);
            assert(out.deep_view() =~= here + f(groups[i as int]));
            assert(out.deep_view() =~= start + text::gathered(groups.take(i + 1), f));
        }
        i = i + 1;
    }
    assert(groups.take(groups.len() as int) =~= groups);
}

fn snapshot(w: WorkspaceState, score: u64) -> (r: QueryCandidate)
    ensures
        r.deep_view() == snapshot_candidate(w.deep_view(), score),
{
    let r = QueryCandidate {
        workspace: w,
        score,
        kind: CandidateKind::Workspace,
        source_workspace_id: None,
        speculative_node_ids: Vec::new(),
    };
    assert(r.speculative_node_ids.deep_view() =~= Seq::<Seq<char>>::empty());
    r
}

/// Lists snapshots by recency, given in that order and decoded (`None` where a
/// stored payload does not decode). Scores are 0.0. With `with_groups` each
/// snapshot's stored groups follow it as selectable sub-candidates.
pub fn recency_candidates(
    snapshots: &Vec<Option<WorkspaceState>>,
    with_groups: bool,
    limit: usize,
) -> (r: Vec<QueryCandidate>)
    ensures
        r.deep_view() == recency_list(snapshots.deep_view(), with_groups, limit as int),
{
    let ghost all = text::at_most(snapshots.deep_view(), limit as int);
    let ghost f = |w: Option<WorkspaceStateView>| recency_entry(w, with_groups);
    let n: usize = if snapshots.len() <= limit {
        snapshots.len()
    } else {
        limit
    };
    assert(all.len() == n);
    let mut out: Vec<QueryCandidate> = Vec::new();
    let mut i: usize = 0;
    assert(out.deep_view() =~= text::gathered(all.take(0), f));
    while i < n
        invariant
            i <= n <= snapshots.len(),
            all == text::at_most(snapshots.deep_view(), limit as int),
            all.len() == n,
            f == (|w: Option<WorkspaceStateView>| recency_entry(w, with_groups)),
            out.deep_view() == text::gathered(all.take(i as int), f),
        decreases n - i,
    {
        let ghost before = out.deep_view();
        assert(all[i as int] == snapshots.deep_view()[i as int]);
        assert(all[i as int] == snapshots[i as int].deep_view());
        match &snapshots[i] {
            Some(w) => {
                out.push(snapshot(w.clone(), 0));
                assert(out.deep_view() =~= before + seq![snapshot_candidate(w.deep_view(), 0)]);
                if with_groups && w.groups.len() >= 2 {
                    push_groups(w, &mut out);
                }
                assert(out.deep_view() =~= before + f(all[i as int]));
            },
            None => {
                assert(out.deep_view() =~= before + f(all[i as int]));
            },
        }
        proof {
            text::lemma_take_step(all, i as int);
        }
        i = i + 1;
    }
    assert(all.take(all.len() as int) =~= all);
    out
}

/// The snapshots the vector index found, in its order, those that don't decode
/// left out.
pub open spec fn hit_list(hits: Seq<ScoredWorkspaceView>) -> Seq<QueryCandidateView> {
    text::gathered(
        hits,
        |h: ScoredWorkspaceView|
            match h.workspace {
                Some(w) => seq![snapshot_candidate(w, h.score)],
                None => Seq::empty(),
            },
    )
}

/// Lists the snapshots the vector index found, with a synthesized candidate, if
/// there is one, in front.
pub fn hit_candidates(hits: &Vec<ScoredWorkspace>, synthesized: Option<QueryCandidate>) -> (r: Vec<
    QueryCandidate,
>)
    ensures
        r.deep_view() == match synthesized.deep_view() {
            Some(c) => seq![c] + hit_list(hits.deep_view()),
            None => hit_list(hits.deep_view()),
        },
{
    let ghost all = hits.deep_view();
    let ghost f = |h: ScoredWorkspaceView|
        match h.workspace {
            Some(w) => seq![snapshot_candidate(w, h.score)],
            None => Seq::empty(),
        };
    let mut out: Vec<QueryCandidate> = Vec::new();
    if let Some(c) = synthesized {
        out.push(c);
    }
    let ghost start = out.deep_view();
    assert(start =~= match synthesized.deep_view() {
        Some(c) => seq![c],
        None => Seq::empty(),
    });
    let mut i: usize = 0;
    assert(start =~= start + text::gathered(all.take(0), f));
    while i < hits.len()
        invariant
            i <= hits.len(),
            all == hits.deep_view(),
            f == (|h: ScoredWorkspaceView|
                match h.workspace {
                    Some(w) => seq![snapshot_candidate(w, h.score)],
                    None => Seq::empty(),
                }),
            out.deep_view() == start + text::gathered(all.take(i as int), f),
        decreases hits.len() - i,
    {
        let ghost here = out.deep_view();
        if let Some(w) = &hits[i].workspace {
            out.push(snapshot(w.clone(), hits[i].score));
        }
        proof {
            text::lemma_take_step(all, i as int);
            assert(out.deep_view() =~= here + f(all[i as int]));
            assert(out.deep_view() =~= start + text::gathered(all.take(i + 1), f));
        }
        i = i + 1;
    }
    assert(all.take(all.len() as int) =~= all);
    assert(start + hit_list(all) =~= match synthesized.deep_view() {
        Some(c) => seq![c] + hit_list(all),
        None => hit_list(all),
    });
    out
}

/// The score of the best hit, which is the first; 0.0 when there is none.
pub fn top_score(hits: &Vec<ScoredItem>) -> (r: u64)
    ensures
        r == if hits.deep_view().len() > 0 {
            hits.deep_view()[0].score
        } else {
            0
        },
{
    if hits.len() > 0 {
        assert(hits.deep_view()[0] == hits[0].deep_view());
        hits[0].score
    } else {
        0
    }
}

/// The score items must reach: the fixed floor, or the best score less a margin
/// where that is higher. `lowered` is that difference.
pub fn assembly_cutoff(lowered: u64) -> (r: u64)
    ensures
        r == doubles::larger(MIN_ASSEMBLED_SCORE, lowered),
{
    doubles::max_of(MIN_ASSEMBLED_SCORE, lowered)
}

/// The test for one identity.
pub open spec fn has_key(key: Seq<char>) -> spec_fn(ScoredItemView) -> bool {
    |s: ScoredItemView| s.item.dedup_key == key
}

/// Hits, best first, with those below the cutoff dropped and repeats of an
/// identity folded into its first occurrence: that one fixes rank and score, a
/// fresher repeat only replaces the record behind it.
pub open spec fn freshest(hits: Seq<ScoredItemView>, cutoff: u64) -> Seq<ScoredItemView>
    decreases hits.len(),
{
    if hits.len() == 0 {
        Seq::empty()
    } else {
        let kept = freshest(hits.drop_last(), cutoff);
        let hit = hits.last();
        let at = order::first_where(kept, has_key(hit.item.dedup_key), 0);
        if doubles::below(hit.score, cutoff) {
            kept
        } else if at >= kept.len() {
            kept.push(hit)
        } else if hit.item.captured_at_unix_ms > kept[at].item.captured_at_unix_ms {
            kept.update(at, ScoredItemView { item: hit.item, score: kept[at].score })
        } else {
            kept
        }
    }
}

fn find_key(kept: &Vec<ScoredItem>, key: &str) -> (r: usize)
    ensures
        r == order::first_where(kept.deep_view(), has_key(key@), 0),
        r <= kept.len(),
{
    let ghost all = kept.deep_view();
    let ghost pred = has_key(key@);
    let mut i: usize = 0;
    while i < kept.len()
        invariant
            i <= kept.len(),
            all == kept.deep_view(),
            pred == has_key(key@),
            order::first_where(all, pred, 0) == order::first_where(all, pred, i as int),
        decreases kept.len() - i,
    {
        if str_eq(kept[i].item.dedup_key.as_str(), key) {
            assert(pred(all[i as int]));
            return i;
        }
        assert(!pred(all[i as int]));
        i = i + 1;
    }
    i
}

/// The hits an assembled workspace is made of: above the cutoff, each identity
/// once with its freshest record, at most `MAX_ASSEMBLED_ITEMS`. None when fewer
/// than two are left.
pub fn assembly_items(hits: &Vec<ScoredItem>, cutoff: u64) -> (r: Option<Vec<ScoredItem>>)
    ensures
        r.deep_view() == ({
            let best = text::at_most(
                freshest(hits.deep_view(), cutoff),
                MAX_ASSEMBLED_ITEMS as int,
            );
            if best.len() < 2 {
                None
            } else {
                Some(best)
            }
        }),
{
    let ghost all = hits.deep_view();
    let mut best: Vec<ScoredItem> = Vec::new();
    let mut i: usize = 0;
    assert(best.deep_view() =~= freshest(all.take(0), cutoff));
    while i < hits.len()
        invariant
            i <= hits.len(),
            all == hits.deep_view(),
            best.deep_view() == freshest(all.take(i as int), cutoff),
        decreases hits.len() - i,
    {
        let ghost kept = best.deep_view();
        let hit = &hits[i];
        proof {
            text::lemma_take_step(all, i as int);
            assert(all[i as int] == hit.deep_view());
        }
        if !doubles::is_below(hit.score, cutoff) {
            let at: usize = find_key(&best, hit.item.dedup_key.as_str());
            if at >= best.len() {
                best.push(hit.clone());
                assert(best.deep_view() =~= kept.push(hit.deep_view()));
            } else if hit.item.captured_at_unix_ms > best[at].item.captured_at_unix_ms {
                let newer = ScoredItem { item: hit.item.clone(), score: best[at].score };
                let ghost v = newer.deep_view();
                best.set(at, newer);
                assert(best.deep_view() =~= kept.update(at as int, v));
            }
        }
        i = i + 1;
    }
    assert(all.take(all.len() as int) =~= all);
    let ghost full = best.deep_view();
    best.truncate(MAX_ASSEMBLED_ITEMS);
    assert(best.deep_view() =~= text::at_most(full, MAX_ASSEMBLED_ITEMS as int));
    if best.len() < 2 {
        None
    } else {
        Some(best)
    }
}

/// The snapshots to load for a list of items, each once.
pub fn source_ids(items: &Vec<ScoredItem>) -> (r: Vec<String>)
    ensures
        r.deep_view() == text::unique_of(
            items.deep_view().map_values(|s: ScoredItemView| s.item.workspace_id),
        ),
{
    let ghost all = items.deep_view().map_values(|s: ScoredItemView| s.item.workspace_id);
    let mut ids: Vec<String> = Vec::new();
    let mut i: usize = 0;
    assert(ids.deep_view() =~= all.take(0));
    while i < items.len()
        invariant
            i <= items.len(),
            all == items.deep_view().map_values(|s: ScoredItemView| s.item.workspace_id),
            ids.deep_view() == all.take(i as int),
        decreases items.len() - i,
    {
        let ghost before = ids.deep_view();
        ids.push(items[i].item.workspace_id.clone());
        assert(all[i as int] == items[i as int].item.workspace_id@);
        assert(ids.deep_view() =~= before.push(all[i as int]));
        assert(ids.deep_view() =~= all.take(i + 1));
        i = i + 1;
    }
    assert(all.take(all.len() as int) =~= all);
    unique(&ids)
}

/// The test for one snapshot.
pub open spec fn is_snapshot(id: Seq<char>) -> spec_fn(SourceSnapshotView) -> bool {
    |s: SourceSnapshotView| s.workspace_id == id
}

/// What a stored item points at, if its snapshot was loaded and still has the
/// node. Snapshots reuse "n0", "n1", ..; the id is qualified so that picks from
/// different snapshots never merge as if they were one window.
pub open spec fn stored_pick(item: ItemRecordView, sources: Seq<SourceSnapshotView>) -> Option<
    NodePickView,
> {
    let at = order::first_where(sources, is_snapshot(item.workspace_id), 0);
    if at >= sources.len() {
        None
    } else {
        let nodes = sources[at].workspace.nodes;
        let k = grouping::node_at(nodes, item.node_id);
        if k >= nodes.len() {
            None
        } else {
            Some(
                NodePickView {
                    node: WindowNodeView {
                        node_id: item.workspace_id + "::"@ + item.node_id,
                        ..nodes[k]
                    },
                    tab_indices: match item.tab_index {
                        Some(index) => Some(seq![index as i32]),
                        None => None,
                    },
                },
            )
        }
    }
}

fn find_snapshot(sources: &Vec<SourceSnapshot>, id: &str) -> (r: usize)
    ensures
        r == order::first_where(sources.deep_view(), is_snapshot(id@), 0),
        r <= sources.len(),
{
    let ghost all = sources.deep_view();
    let ghost pred = is_snapshot(id@);
    let mut i: usize = 0;
    while i < sources.len()
        invariant
            i <= sources.len(),
            all == sources.deep_view(),
            pred == is_snapshot(id@),
            order::first_where(all, pred, 0) == order::first_where(all, pred, i as int),
        decreases sources.len() - i,
    {
        if str_eq(sources[i].workspace_id.as_str(), id) {
            assert(pred(all[i as int]));
            return i;
        }
        assert(!pred(all[i as int]));
        i = i + 1;
    }
    i
}

/// Resolves a stored item against the snapshots that were loaded.
pub fn pick_stored(item: &ItemRecord, sources: &Vec<SourceSnapshot>) -> (r: Option<NodePick>)
    ensures
        r.deep_view() == stored_pick(item.deep_view(), sources.deep_view()),
{
    let at: usize = find_snapshot(sources, item.workspace_id.as_str());
    if at >= sources.len() {
        return None;
    }
    let nodes = &sources[at].workspace.nodes;
    assert(nodes.deep_view() == sources.deep_view()[at as int].workspace.nodes);
    let k: usize = find_node(nodes, item.node_id.as_str());
    if k >= nodes.len() {
        return None;
    }
    let mut node = nodes[k].clone();
    node.node_id = item.workspace_id.clone().concat("::").concat(item.node_id.as_str());
    let tab_indices: Option<Vec<i32>> = match item.tab_index {
        Some(index) => {
            let mut one: Vec<i32> = Vec::new();
            one.push(index as i32);
            assert(one.deep_view() =~= seq![index as i32]);
            Some(one)
        },
        None => None,
    };
    Some(NodePick { node, tab_indices })
}

/// The items that resolve, in order.
pub open spec fn usable(items: Seq<ScoredItemView>, sources: Seq<SourceSnapshotView>) -> Seq<
    ScoredItemView,
> {
    items.filter(|s: ScoredItemView| stored_pick(s.item, sources) is Some)
}

/// What the items that resolve point at, in order.
pub open spec fn usable_picks(
    items: Seq<ScoredItemView>,
    sources: Seq<SourceSnapshotView>,
) -> Seq<NodePickView> {
    usable(items, sources).map_values(|s: ScoredItemView| stored_pick(s.item, sources)->0)
}

fn resolve_items(items: &Vec<ScoredItem>, sources: &Vec<SourceSnapshot>) -> (r: (
    Vec<NodePick>,
    Vec<u64>,
))
    ensures
        r.0.deep_view() == usable_picks(items.deep_view(), sources.deep_view()),
        r.1@ == usable(items.deep_view(), sources.deep_view()).map_values(
            |s: ScoredItemView| s.score,
        ),
{
    let ghost all = items.deep_view();
    let ghost src = sources.deep_view();
    let ghost keep = |s: ScoredItemView| stored_pick(s.item, src) is Some;
    let ghost f = |s: ScoredItemView| stored_pick(s.item, src)->0;
    let ghost g = |s: ScoredItemView| s.score;
    let mut picks: Vec<NodePick> = Vec::new();
    let mut scores: Vec<u64> = Vec::new();
    let mut i: usize = 0;
    reveal(Seq::filter);
    assert(picks.deep_view() =~= all.take(0).filter(keep).map_values(f));
    assert(scores@ =~= all.take(0).filter(keep).map_values(g));
    while i < items.len()
        invariant
            i <= items.len(),
            all == items.deep_view(),
            src == sources.deep_view(),
            keep == (|s: ScoredItemView| stored_pick(s.item, src) is Some),
            f == (|s: ScoredItemView| stored_pick(s.item, src)->0),
            g == (|s: ScoredItemView| s.score),
            picks.deep_view() == all.take(i as int).filter(keep).map_values(f),
            scores@ == all.take(i as int).filter(keep).map_values(g),
        decreases items.len() - i,
    {
        let ghost p0 = picks.deep_view();
        let ghost s0 = scores@;
        let ghost done = all.take(i as int).filter(keep);
        let ghost x = all[i as int];
        proof {
            text::lemma_take_step(all, i as int);
            assert(all.take(i + 1).filter(keep) == if keep(x) {
                done.push(x)
            } else {
                done
            }) by {
                reveal(Seq::filter);
            }
        }
        assert(x == items[i as int].deep_view());
        if let Some(pick) = pick_stored(&items[i].item, sources) {
            assert(keep(x));
            picks.push(pick);
            scores.push(items[i].score);
            assert(picks.deep_view() =~= p0.push(f(x)));
            assert(done.push(x).map_values(f) =~= p0.push(f(x)));
            assert(done.push(x).map_values(g) =~= s0.push(g(x)));
        }
        i = i + 1;
    }
    assert(all.take(all.len() as int) =~= all);
    (picks, scores)
}

/// The scores of the items an assembled workspace is made of; their mean is its
/// own score.
pub fn assembled_scores(items: &Vec<ScoredItem>, sources: &Vec<SourceSnapshot>) -> (r: Vec<u64>)
    ensures
        r@ == usable(items.deep_view(), sources.deep_view()).map_values(
            |s: ScoredItemView| s.score,
        ),
{
    resolve_items(items, sources).1
}

/// The virtual workspace items make up; none when fewer than two resolve or no
/// window is left.
pub open spec fn assembled(
    items: Seq<ScoredItemView>,
    sources: Seq<SourceSnapshotView>,
    query_text: Seq<char>,
    workspace_id: Seq<char>,
    now: i64,
    mean_score: u64,
) -> Option<QueryCandidateView> {
    let used = usable(items, sources).len();
    let nodes = grouping::synthesized(usable_picks(items, sources));
    if used < 2 || nodes.len() == 0 {
        None
    } else {
        Some(
            QueryCandidateView {
                workspace: WorkspaceStateView {
                    workspace_id,
                    captured_at_unix_ms: now,
                    summary: "Assembled · "@ + text::decimal(used) + " items for \""@ + query_text
                        + "\""@,
                    tags: tagging::tags_of(nodes),
                    nodes,
                    groups: Seq::empty(),
                },
                score: mean_score,
                kind: CandidateKind::Assembled,
                source_workspace_id: None,
                speculative_node_ids: Seq::empty(),
            },
        )
    }
}

/// Synthesizes items from any number of snapshots into one virtual workspace,
/// under a fresh id. None when fewer than two items resolve.
pub fn assemble_candidate(
    items: &Vec<ScoredItem>,
    sources: &Vec<SourceSnapshot>,
    query_text: &str,
    workspace_id: String,
    now: i64,
    mean_score: u64,
) -> (r: Option<QueryCandidate>)
    ensures
        r.deep_view() == assembled(
            items.deep_view(),
            sources.deep_view(),
            query_text@,
            workspace_id@,
            now,
            mean_score,
        ),
{
    let (picks, scores) = resolve_items(items, sources);
    let used: usize = scores.len();
    let nodes = synthesize_nodes(picks);
    if used < 2 || nodes.len() == 0 {
        return None;
    }
    let bare = WorkspaceState {
        workspace_id,
        captured_at_unix_ms: now,
        summary: "Assembled · ".to_owned().concat(decimal_of(used as u128).as_str()).concat(
            " items for \"",
        ).concat(query_text).concat("\""),
        tags: Vec::new(),
        nodes,
        groups: Vec::new(),
    };
    assert(bare.groups.deep_view() =~= Seq::<WorkspaceGroupView>::empty());
    let tags = derive_tags(&bare);
    let r = QueryCandidate {
        workspace: WorkspaceState { tags, ..bare },
        score: mean_score,
        kind: CandidateKind::Assembled,
        source_workspace_id: None,
        speculative_node_ids: Vec::new(),
    };
    assert(r.speculative_node_ids.deep_view() =~= Seq::<Seq<char>>::empty());
    Some(r)
}

/// No identity enters an assembled workspace twice, and nothing below the
/// cutoff does.
pub proof fn assembled_items_are_distinct(hits: Seq<ScoredItemView>, cutoff: u64)
    ensures
        forall|i: int, j: int|
            0 <= i < j < freshest(hits, cutoff).len() ==> (#[trigger] freshest(
                hits,
                cutoff,
            )[i]).item.dedup_key != (#[trigger] freshest(hits, cutoff)[j]).item.dedup_key,
        forall|i: int|
            0 <= i < freshest(hits, cutoff).len() ==> !doubles::below(
                (#[trigger] freshest(hits, cutoff)[i]).score,
                cutoff,
            ),
    decreases hits.len(),
{
    if hits.len() > 0 {
        assembled_items_are_distinct(hits.drop_last(), cutoff);
        let kept = freshest(hits.drop_last(), cutoff);
        let hit = hits.last();
        let pred = has_key(hit.item.dedup_key);
        order::lemma_first_where(kept, pred, 0);
        let out = freshest(hits, cutoff);
        assert forall|i: int, j: int| 0 <= i < j < out.len() implies (
        #[trigger] out[i]).item.dedup_key != (#[trigger] out[j]).item.dedup_key by {
            if i < kept.len() {
                assert(kept[i].item.dedup_key == out[i].item.dedup_key);
            }
            if j < kept.len() {
                assert(kept[j].item.dedup_key == out[j].item.dedup_key);
            } else {
                assert(!pred(kept[i]));
            }
        }
        assert forall|i: int| 0 <= i < out.len() implies !doubles::below(
            (#[trigger] out[i]).score,
            cutoff,
        ) by {
            if i < kept.len() {
                assert(kept[i].score == out[i].score);
            }
        }
    }
}

/// Of a repeated identity the freshest record wins: every hit that clears the
/// cutoff has its identity among those kept, with a record at least as fresh.
pub proof fn freshest_record_wins(hits: Seq<ScoredItemView>, cutoff: u64, k: int)
    requires
        0 <= k < hits.len(),
        !doubles::below(hits[k].score, cutoff),
    ensures
        exists|i: int|
            0 <= i < freshest(hits, cutoff).len() && (#[trigger] freshest(
                hits,
                cutoff,
            )[i]).item.dedup_key == hits[k].item.dedup_key && freshest(
                hits,
                cutoff,
            )[i].item.captured_at_unix_ms >= hits[k].item.captured_at_unix_ms,
    decreases hits.len(),
{
    let kept = freshest(hits.drop_last(), cutoff);
    let hit = hits.last();
    let pred = has_key(hit.item.dedup_key);
    let at = order::first_where(kept, pred, 0);
    let out = freshest(hits, cutoff);
    order::lemma_first_where(kept, pred, 0);
    if k == hits.len() - 1 {
        if at >= kept.len() {
            assert(out[kept.len() as int] == hit);
        } else {
            assert(pred(kept[at]));
            assert(out[at].item.dedup_key == hit.item.dedup_key);
        }
    } else {
        assert(hits.drop_last()[k] == hits[k]);
        freshest_record_wins(hits.drop_last(), cutoff, k);
        let i = choose|i: int|
            0 <= i < kept.len() && (#[trigger] kept[i]).item.dedup_key == hits[k].item.dedup_key
                && kept[i].item.captured_at_unix_ms >= hits[k].item.captured_at_unix_ms;
        assert(i < out.len());
        if i == at {
            assert(pred(kept[at]));
        }
        assert(out[i].item.dedup_key == kept[i].item.dedup_key);
        assert(out[i].item.captured_at_unix_ms >= kept[i].item.captured_at_unix_ms);
    }
}

/// Instruction that queries are embedded behind; documents are embedded as they
/// are.
pub const QUERY_PREFIX: &'static str = "Represent this sentence for searching relevant passages: ";

/// The text to embed for a query.
pub fn query_input(text: &str) -> (r: String)
    ensures
        r@ == QUERY_PREFIX@ + text@,
{
    QUERY_PREFIX.to_owned().concat(text)
}

/// Picks from different snapshots never merge as if they were one window: where
/// workspace ids hold no ':', and those of stored snapshots don't, a qualified
/// id stands for one node of one snapshot.
pub proof fn qualified_ids_tell_snapshots_apart(
    a: Seq<char>,
    m: Seq<char>,
    b: Seq<char>,
    n: Seq<char>,
)
    requires
        !a.contains(':'),
        !b.contains(':'),
        a + "::"@ + m == b + "::"@ + n,
    ensures
        a == b,
        m == n,
{
    reveal_strlit("::");
    let x = a + "::"@ + m;
    let y = b + "::"@ + n;
    assert(x[a.len() as int] == ':' && y[b.len() as int] == ':');
    if a.len() < b.len() {
        assert(b[a.len() as int] == y[a.len() as int]);
        assert(b.contains(b[a.len() as int]));
    } else if b.len() < a.len() {
        assert(a[b.len() as int] == x[b.len() as int]);
        assert(a.contains(a[b.len() as int]));
    }
    assert(a =~= x.take(a.len() as int) && b =~= y.take(b.len() as int));
    assert(m =~= x.skip(a.len() as int + 2) && n =~= y.skip(b.len() as int + 2));
}

/// On the menu of recent workspaces one that can be read comes whole, unscored,
/// and behind it, where groups are shown and it has at least two, each of its
/// groups that still stands for something, under the workspace it was carved
/// from. One that cannot be read is left out.
pub proof fn one_workspace_on_the_menu(
    w: WorkspaceStateView,
    with_groups: bool,
    limit: int,
)
    requires
        limit >= 1,
    ensures
        recency_list(seq![None], with_groups, limit).len() == 0,
        ({
            let list = recency_list(seq![Some(w)], with_groups, limit);
            let shown = w.groups.filter(
                |g: WorkspaceGroupView| grouping::materialized(w, g.group_id) is Some,
            );
            &&& list.len() == 1 + if with_groups && w.groups.len() >= 2 {
                shown.len()
            } else {
                0
            }
            &&& list[0].kind == CandidateKind::Workspace
            &&& list[0].workspace == w
            &&& list[0].score == 0
            &&& list[0].source_workspace_id is None
            &&& list[0].speculative_node_ids.len() == 0
            &&& forall|i: int|
                1 <= i < list.len() ==> {
                    &&& (#[trigger] list[i]).kind == CandidateKind::Group
                    &&& grouping::materialized(w, shown[i - 1].group_id) == Some(list[i].workspace)
                    &&& list[i].source_workspace_id == Some(w.workspace_id)
                    &&& list[i].score == 0
                    &&& list[i].speculative_node_ids.len() == 0
                }
        }),
{
    let f = |w: Option<WorkspaceStateView>| recency_entry(w, with_groups);
    text::lemma_gathered_one(None, f);
    text::lemma_gathered_one(Some(w), f);
    assert(text::at_most(seq![Some(w)], limit) =~= seq![Some(w)]);
    let keep = |g: WorkspaceGroupView| grouping::materialized(w, g.group_id) is Some;
    let read = |g: WorkspaceGroupView|
        QueryCandidateView {
            workspace: grouping::materialized(w, g.group_id)->0,
            score: 0,
            kind: CandidateKind::Group,
            source_workspace_id: Some(w.workspace_id),
            speculative_node_ids: Seq::empty(),
        };
    let h = |g: WorkspaceGroupView| group_candidate(w, g);
    text::lemma_gathered_kept(w.groups, h, keep, read);
    let list = recency_list(seq![Some(w)], with_groups, limit);
    let shown = w.groups.filter(keep);
    order::lemma_filtered(w.groups, keep);
    assert forall|i: int| 1 <= i < list.len() implies {
        &&& (#[trigger] list[i]).kind == CandidateKind::Group
        &&& grouping::materialized(w, shown[i - 1].group_id) == Some(list[i].workspace)
        &&& list[i].source_workspace_id == Some(w.workspace_id)
        &&& list[i].score == 0
        &&& list[i].speculative_node_ids.len() == 0
    } by {
        assert(list[i] == read(shown[i - 1]));
        assert(keep(shown[i - 1]));
    }
}

/// The menu lists the workspaces one behind the other in the order they are
/// stored, and none beyond the limit.
pub proof fn menus_are_cut_at_the_limit(
    snapshots: Seq<Option<WorkspaceStateView>>,
    more: Seq<Option<WorkspaceStateView>>,
    with_groups: bool,
    limit: int,
)
    requires
        limit >= 0,
    ensures
        snapshots.len() + more.len() <= limit ==> recency_list(
            snapshots + more,
            with_groups,
            limit,
        ) == recency_list(snapshots, with_groups, limit) + recency_list(more, with_groups, limit),
        snapshots.len() == limit ==> recency_list(snapshots + more, with_groups, limit)
            == recency_list(snapshots, with_groups, limit),
        recency_list(Seq::empty(), with_groups, limit).len() == 0,
{
    let f = |w: Option<WorkspaceStateView>| recency_entry(w, with_groups);
    text::lemma_gathered_add(snapshots, more, f);
    if snapshots.len() == limit {
        assert(text::at_most(snapshots + more, limit) =~= snapshots);
    }
}

/// Whether a candidate is one group of a workspace.
pub open spec fn is_carved_from(c: QueryCandidateView, w: WorkspaceStateView) -> bool {
    c.source_workspace_id == Some(w.workspace_id) && exists|g: int|
        0 <= g < w.groups.len() && grouping::materialized(w, (#[trigger] w.groups[g]).group_id)
            == Some(c.workspace)
}

/// Whatever else is on the menu, a workspace within the limit is on it, and
/// behind it each of its groups that stands for something, where groups are
/// shown and it has at least two; and no group is there for another reason.
#[verifier::rlimit(40)]
pub proof fn groups_are_on_the_menu(
    snapshots: Seq<Option<WorkspaceStateView>>,
    with_groups: bool,
    limit: int,
    i: int,
)
    requires
        0 <= i < snapshots.len(),
        i < limit,
    ensures
        ({
            let list = recency_list(snapshots, with_groups, limit);
            &&& snapshots[i] matches Some(w) ==> exists|p: int|
                {
                    &&& 0 <= p < list.len()
                    &&& (#[trigger] list[p]).kind == CandidateKind::Workspace
                    &&& list[p].workspace == w
                    &&& forall|g: int|
                        with_groups && w.groups.len() >= 2 && 0 <= g < w.groups.len() ==> (
                        grouping::materialized(w, (#[trigger] w.groups[g]).group_id) matches Some(m)
                            ==> exists|q: int|
                            {
                                &&& p < q < list.len()
                                &&& (#[trigger] list[q]).kind == CandidateKind::Group
                                &&& list[q].workspace == m
                                &&& list[q].source_workspace_id == Some(w.workspace_id)
                            })
                }
            &&& forall|q: int|
                0 <= q < list.len() && (#[trigger] list[q]).kind == CandidateKind::Group
                    ==> with_groups && exists|k: int|
                    0 <= k < snapshots.len() && k < limit && (#[trigger] snapshots[k] matches Some(
                        w,
                    ) && w.groups.len() >= 2 && is_carved_from(list[q], w))
        }),
{
    let f = |w: Option<WorkspaceStateView>| recency_entry(w, with_groups);
    let within = text::at_most(snapshots, limit);
    let list = recency_list(snapshots, with_groups, limit);
    assert(within[i] == snapshots[i]);
    if let Some(w) = snapshots[i] {
        let entry = f(within[i]);
        let p = lemma_entry_place(within, f, i);
        let here = list.subrange(p, p + entry.len());
        assert(list[p] == here[0]);
        assert forall|g: int|
            with_groups && w.groups.len() >= 2 && 0 <= g < w.groups.len() implies (
        grouping::materialized(w, (#[trigger] w.groups[g]).group_id) matches Some(m) ==> exists|
            q: int,
        |
            {
                &&& p < q < list.len()
                &&& (#[trigger] list[q]).kind == CandidateKind::Group
                &&& list[q].workspace == m
                &&& list[q].source_workspace_id == Some(w.workspace_id)
            }) by {
            if let Some(m) = grouping::materialized(w, w.groups[g].group_id) {
                let h = |g: WorkspaceGroupView| group_candidate(w, g);
                let behind = text::gathered(w.groups, h);
                text::lemma_gathered_contains(w.groups, h, g, 0);
                assert(behind.contains(h(w.groups[g])[0]));
                let k = choose|k: int| 0 <= k < behind.len() && behind[k] == h(w.groups[g])[0];
                assert(entry[1 + k] == behind[k]);
                assert(list[p + 1 + k] == here[1 + k]);
            }
        }
    }
    assert forall|q: int|
        0 <= q < list.len() && (#[trigger] list[q]).kind
            == CandidateKind::Group implies with_groups && exists|k: int|
        0 <= k < snapshots.len() && k < limit && (#[trigger] snapshots[k] matches Some(w)
            && w.groups.len() >= 2 && is_carved_from(list[q], w)) by {
        let (k, e) = text::lemma_gathered_from(within, f, q);
        assert(within[k] == snapshots[k]);
        assert(list[q] == f(within[k])[e]);
        let w = snapshots[k]->0;
        let h = |g: WorkspaceGroupView| group_candidate(w, g);
        let behind = text::gathered(w.groups, h);
        assert(f(within[k])[e] == behind[e - 1]);
        let (g, z) = text::lemma_gathered_from(w.groups, h, e - 1);
        assert(behind[e - 1] == h(w.groups[g])[z]);
        assert(grouping::materialized(w, w.groups[g].group_id) == Some(list[q].workspace));
        assert(is_carved_from(list[q], w));
    }
}

proof fn lemma_entry_place<A, B>(s: Seq<A>, f: spec_fn(A) -> Seq<B>, i: int) -> (p: int)
    requires
        0 <= i < s.len(),
    ensures
        0 <= p,
        p + f(s[i]).len() <= text::gathered(s, f).len(),
        text::gathered(s, f).subrange(p, p + f(s[i]).len()) == f(s[i]),
{
    let head = s.take(i);
    let tail = s.skip(i + 1);
    assert(s =~= head + seq![s[i]] + tail);
    text::lemma_gathered_add(head + seq![s[i]], tail, f);
    text::lemma_gathered_add(head, seq![s[i]], f);
    text::lemma_gathered_one(s[i], f);
    let p = text::gathered(head, f).len() as int;
    assert(text::gathered(s, f).subrange(p, p + f(s[i]).len()) =~= f(s[i]));
    p
}

/// Of the workspaces found, those that can be read are listed in the order found,
/// each whole and with its own score.
pub proof fn hits_are_listed_as_found(hits: Seq<ScoredWorkspaceView>)
    ensures
        ({
            let found = hits.filter(|h: ScoredWorkspaceView| h.workspace is Some);
            let list = hit_list(hits);
            &&& list.len() == found.len()
            &&& forall|i: int|
                0 <= i < list.len() ==> {
                    &&& found[i].workspace == Some((#[trigger] list[i]).workspace)
                    &&& list[i].score == found[i].score
                    &&& list[i].kind == CandidateKind::Workspace
                    &&& list[i].source_workspace_id is None
                    &&& list[i].speculative_node_ids.len() == 0
                }
        }),
{
    let keep = |h: ScoredWorkspaceView| h.workspace is Some;
    let read = |h: ScoredWorkspaceView| snapshot_candidate(h.workspace->0, h.score);
    let f = |h: ScoredWorkspaceView|
        match h.workspace {
            Some(w) => seq![snapshot_candidate(w, h.score)],
            None => Seq::empty(),
        };
    text::lemma_gathered_kept(hits, f, keep, read);
    order::lemma_filtered(hits, keep);
    let found = hits.filter(keep);
    let list = hit_list(hits);
    assert(list == text::gathered(hits, f));
    assert forall|i: int| 0 <= i < list.len() implies {
        &&& found[i].workspace == Some((#[trigger] list[i]).workspace)
        &&& list[i].score == found[i].score
        &&& list[i].kind == CandidateKind::Workspace
        &&& list[i].source_workspace_id is None
        &&& list[i].speculative_node_ids.len() == 0
    } by {
        assert(keep(found[i]));
        assert(list[i] == read(found[i]));
    }
}

/// A query searches where there is something to search by and a model to do it
/// with; it searches for its text without the whitespace around it.
pub proof fn blank_queries_search_nothing(text: Seq<char>, has_embedder: bool)
    ensures
        search_text(text, has_embedder) is None <==> !has_embedder || forall|i: int|
            0 <= i < text.len() ==> text::is_space(#[trigger] text[i]),
        search_text(text, has_embedder) matches Some(t) ==> t.len() > 0 && !text::is_space(t[0])
            && !text::is_space(t.last()) && exists|a: int, b: int|
            0 <= a <= b <= text.len() && t == #[trigger] text.subrange(a, b),
{
    let (a, b) = text::trimming_drops_outer_space(text);
    assert(a < b ==> !text::is_space(text[a]));
    assert(text::trimmed(text) == text.subrange(a, b));
}

/// Each identity kept for an assembled workspace keeps its place and its score
/// whatever is found behind it, and is represented by one of its hits that clear
/// the cutoff.
pub proof fn identities_keep_their_place(
    hits: Seq<ScoredItemView>,
    more: Seq<ScoredItemView>,
    cutoff: u64,
)
    ensures
        freshest(hits, cutoff).len() <= freshest(hits + more, cutoff).len(),
        forall|i: int|
            0 <= i < freshest(hits, cutoff).len() ==> {
                let (a, b) = (
                    #[trigger] freshest(hits, cutoff)[i],
                    freshest(hits + more, cutoff)[i],
                );
                &&& a.score == b.score
                &&& a.item.dedup_key == b.item.dedup_key
                &&& a.item.captured_at_unix_ms <= b.item.captured_at_unix_ms
            },
        forall|i: int|
            0 <= i < freshest(hits, cutoff).len() ==> exists|k: int|
                0 <= k < hits.len() && (#[trigger] hits[k]).item == (#[trigger] freshest(
                    hits,
                    cutoff,
                )[i]).item && !doubles::below(hits[k].score, cutoff),
        hits.len() == 1 && !doubles::below(hits[0].score, cutoff) ==> freshest(hits, cutoff)
            == hits,
    decreases hits.len() + more.len(),
{
    if more.len() > 0 {
        let rest = more.drop_last();
        identities_keep_their_place(hits, rest, cutoff);
        let all = hits + more;
        assert(all.drop_last() =~= hits + rest);
        let kept = freshest(hits + rest, cutoff);
        let pred = has_key(all.last().item.dedup_key);
        order::lemma_first_where(kept, pred, 0);
        let at = order::first_where(kept, pred, 0);
        if at < kept.len() {
            assert(pred(kept[at]));
        }
        assert forall|i: int| 0 <= i < freshest(hits, cutoff).len() implies {
            let (a, b) = (#[trigger] freshest(hits, cutoff)[i], freshest(all, cutoff)[i]);
            &&& a.score == b.score
            &&& a.item.dedup_key == b.item.dedup_key
            &&& a.item.captured_at_unix_ms <= b.item.captured_at_unix_ms
        } by {
            assert(freshest(hits, cutoff)[i].score == kept[i].score);
        }
    } else if hits.len() > 0 {
        assert(hits + more =~= hits);
        let rest = hits.drop_last();
        identities_keep_their_place(rest, more, cutoff);
        let kept = freshest(rest, cutoff);
        let hit = hits.last();
        let pred = has_key(hit.item.dedup_key);
        order::lemma_first_where(kept, pred, 0);
        let out = freshest(hits, cutoff);
        assert forall|i: int| 0 <= i < out.len() implies exists|k: int|
            0 <= k < hits.len() && (#[trigger] hits[k]).item == (#[trigger] out[i]).item
                && !doubles::below(hits[k].score, cutoff) by {
            if i < kept.len() && out[i].item == kept[i].item {
                let k = choose|k: int|
                    0 <= k < rest.len() && (#[trigger] rest[k]).item == kept[i].item
                        && !doubles::below(rest[k].score, cutoff);
                assert(hits[k].item == out[i].item);
            } else {
                assert(hits[hits.len() - 1].item == out[i].item);
            }
        }
        if hits.len() == 1 && !doubles::below(hits[0].score, cutoff) {
            assert(kept =~= Seq::empty());
            assert(out =~= hits);
        }
    } else {
        assert(hits + more =~= hits);
    }
}

/// A stored item becomes a pick of the first window with its id in the first
/// snapshot with its id, as it stands, under an id that names both, and of its
/// tab alone where it is a tab; there is none only where either is gone.
#[verifier::rlimit(40)]
pub proof fn stored_items_keep_their_window(
    item: ItemRecordView,
    sources: Seq<SourceSnapshotView>,
    s: int,
)
    requires
        0 <= s < sources.len() ==> sources[s].workspace_id == item.workspace_id,
        forall|m: int| 0 <= m < s && m < sources.len() ==> (#[trigger] sources[m]).workspace_id
            != item.workspace_id,
        0 <= s <= sources.len(),
    ensures
        s == sources.len() ==> stored_pick(item, sources) is None,
        s < sources.len() ==> ({
            let nodes = sources[s].workspace.nodes;
            match stored_pick(item, sources) {
                None => forall|k: int|
                    0 <= k < nodes.len() ==> (#[trigger] nodes[k]).node_id != item.node_id,
                Some(pick) => {
                    &&& pick.node.node_id == item.workspace_id + "::"@ + item.node_id
                    &&& item.tab_index is None ==> pick.tab_indices is None
                    &&& item.tab_index matches Some(index) ==> pick.tab_indices == Some(
                        seq![index as i32],
                    )
                    &&& exists|k: int|
                        {
                            &&& 0 <= k < nodes.len()
                            &&& (#[trigger] nodes[k]).node_id == item.node_id
                            &&& forall|m: int|
                                0 <= m < k ==> (#[trigger] nodes[m]).node_id != item.node_id
                            &&& pick.node.bundle_id == nodes[k].bundle_id
                            &&& pick.node.app_name == nodes[k].app_name
                            &&& pick.node.window_title == nodes[k].window_title
                            &&& pick.node.geometry == nodes[k].geometry
                            &&& pick.node.adapter == nodes[k].adapter
                            &&& pick.node.payload == nodes[k].payload
                        }
                },
            }
        }),
{
    let has = is_snapshot(item.workspace_id);
    order::lemma_first_where(sources, has, 0);
    let at = order::first_where(sources, has, 0);
    if at < sources.len() {
        assert(has(sources[at]));
    }
    if s < sources.len() {
        assert(has(sources[s]));
        assert(at == s);
        let nodes = sources[s].workspace.nodes;
        let pred = |n: WindowNodeView| n.node_id == item.node_id;
        order::lemma_first_where(nodes, pred, 0);
        let k = grouping::node_at(nodes, item.node_id);
        if k < nodes.len() {
            assert(pred(nodes[k]));
            assert forall|m: int| 0 <= m < k implies (#[trigger] nodes[m]).node_id
                != item.node_id by {
                assert(!pred(nodes[m]));
            }
            assert(nodes[k].node_id == item.node_id);
        } else {
            assert forall|m: int| 0 <= m < nodes.len() implies (#[trigger] nodes[m]).node_id
                != item.node_id by {
                assert(!pred(nodes[m]));
            }
        }
    }
}

/// An assembled workspace takes at least two items that can still be resolved and
/// leave a window; it holds the windows of all of them and nothing else.
pub proof fn assembled_workspaces_hold_what_was_found(
    items: Seq<ScoredItemView>,
    sources: Seq<SourceSnapshotView>,
    query_text: Seq<char>,
    workspace_id: Seq<char>,
    now: i64,
    mean_score: u64,
)
    ensures
        ({
            let used = items.filter(|s: ScoredItemView| stored_pick(s.item, sources) is Some);
            let picks = Seq::new(used.len(), |i: int| stored_pick(used[i].item, sources)->0);
            match assembled(items, sources, query_text, workspace_id, now, mean_score) {
                None => used.len() < 2 || grouping::synthesized(picks).len() == 0,
                Some(c) => {
                    &&& used.len() >= 2
                    &&& c.kind == CandidateKind::Assembled
                    &&& c.score == mean_score
                    &&& c.source_workspace_id is None
                    &&& c.speculative_node_ids.len() == 0
                    &&& c.workspace.workspace_id == workspace_id
                    &&& c.workspace.captured_at_unix_ms == now
                    &&& c.workspace.groups.len() == 0
                    &&& c.workspace.nodes.len() > 0
                    &&& c.workspace.nodes == grouping::synthesized(picks)
                    &&& c.workspace.tags == tagging::tags_of(c.workspace.nodes)
                    &&& c.workspace.summary == "Assembled · "@ + text::decimal(used.len())
                        + " items for \""@ + query_text + "\""@
                },
            }
        }),
{
    let used = items.filter(|s: ScoredItemView| stored_pick(s.item, sources) is Some);
    let picks = Seq::new(used.len(), |i: int| stored_pick(used[i].item, sources)->0);
    assert(usable(items, sources) == used);
    assert(usable_picks(items, sources) =~= picks);
}

/// An identity kept for an assembled workspace scores as the first of its hits
/// that clears the cutoff.
#[verifier::rlimit(40)]
pub proof fn identities_score_by_their_first_hit(hits: Seq<ScoredItemView>, cutoff: u64, i: int)
    requires
        0 <= i < freshest(hits, cutoff).len(),
    ensures
        exists|k: int|
            {
                &&& 0 <= k < hits.len()
                &&& (#[trigger] hits[k]).score == freshest(hits, cutoff)[i].score
                &&& hits[k].item.dedup_key == freshest(hits, cutoff)[i].item.dedup_key
                &&& !doubles::below(hits[k].score, cutoff)
                &&& forall|m: int|
                    0 <= m < k && (#[trigger] hits[m]).item.dedup_key == hits[k].item.dedup_key
                        ==> doubles::below(hits[m].score, cutoff)
            },
    decreases hits.len(),
{
    let rest = hits.drop_last();
    let kept = freshest(rest, cutoff);
    let hit = hits.last();
    let pred = has_key(hit.item.dedup_key);
    order::lemma_first_where(kept, pred, 0);
    let at = order::first_where(kept, pred, 0);
    let out = freshest(hits, cutoff);
    if at < kept.len() {
        assert(pred(kept[at]));
    }
    if i < kept.len() {
        identities_score_by_their_first_hit(rest, cutoff, i);
        let k = choose|k: int|
            {
                &&& 0 <= k < rest.len()
                &&& (#[trigger] rest[k]).score == kept[i].score
                &&& rest[k].item.dedup_key == kept[i].item.dedup_key
                &&& !doubles::below(rest[k].score, cutoff)
                &&& forall|m: int|
                    0 <= m < k && (#[trigger] rest[m]).item.dedup_key == rest[k].item.dedup_key
                        ==> doubles::below(rest[m].score, cutoff)
            };
        assert(hits[k] == rest[k]);
        assert(out[i].score == kept[i].score);
        assert(out[i].item.dedup_key == kept[i].item.dedup_key);
        assert forall|m: int|
            0 <= m < k && (#[trigger] hits[m]).item.dedup_key
                == hits[k].item.dedup_key implies doubles::below(hits[m].score, cutoff) by {
            assert(rest[m] == hits[m]);
        }
    } else {
        let k = hits.len() - 1;
        assert(hits[k] == out[i]);
        assert forall|m: int|
            0 <= m < k && (#[trigger] hits[m]).item.dedup_key
                == hits[k].item.dedup_key implies doubles::below(hits[m].score, cutoff) by {
            assert(rest[m] == hits[m]);
            if !doubles::below(rest[m].score, cutoff) {
                freshest_record_wins(rest, cutoff, m);
                let j = choose|j: int|
                    0 <= j < kept.len() && (#[trigger] kept[j]).item.dedup_key
                        == rest[m].item.dedup_key && kept[j].item.captured_at_unix_ms
                        >= rest[m].item.captured_at_unix_ms;
                assert(!pred(kept[j]));
            }
        }
    }
}

/// An assembled workspace takes the first of the identities found, ten at most,
/// and is not worth assembling of fewer than two.
pub proof fn two_to_ten_items_are_assembled(
    hits: &Vec<ScoredItem>,
    cutoff: u64,
    r: Option<Vec<ScoredItem>>,
)
    requires
        call_ensures(assembly_items, (hits, cutoff), r),
    ensures
        r is None <==> freshest(hits.deep_view(), cutoff).len() < 2,
        r matches Some(items) ==> {
            let all = freshest(hits.deep_view(), cutoff);
            &&& 2 <= items.len() <= 10
            &&& items.len() == all.len() || items.len() == 10 && all.len() > 10
            &&& forall|i: int| 0 <= i < items.len() ==> items.deep_view()[i] == all[i]
        },
{
    assert(r matches Some(items) ==> items.deep_view().len() == items.len());
}

/// An item is assembled where it scores 0.55 or more and no less than the best
/// score less the margin.
pub proof fn assembly_has_a_floor(lowered: u64, cutoff: u64)
    requires
        call_ensures(assembly_cutoff, (lowered,), cutoff),
        doubles::is_number(lowered),
    ensures
        doubles::at_least(cutoff, 0x3FE1_9999_9999_999A),
        doubles::at_least(cutoff, lowered),
        cutoff == 0x3FE1_9999_9999_999A || cutoff == lowered,
{
}

/// What was assembled leads the list; the workspaces found follow as they do
/// without it.
pub proof fn the_assembled_candidate_leads(
    hits: &Vec<ScoredWorkspace>,
    c: Option<QueryCandidate>,
    list: Vec<QueryCandidate>,
)
    requires
        call_ensures(hit_candidates, (hits, c), list),
    ensures
        c is None ==> list.deep_view() == hit_list(hits.deep_view()),
        c matches Some(first) ==> list.len() > 0 && list.deep_view()[0] == first.deep_view()
            && list.deep_view().skip(1) == hit_list(hits.deep_view()),
{
    if let Some(first) = c {
        assert(c.deep_view() == Some(first.deep_view()));
        assert((seq![first.deep_view()] + hit_list(hits.deep_view())).skip(1) =~= hit_list(
            hits.deep_view(),
        ));
        assert(list.deep_view().len() == list.len());
    }
}

/// Groups are shown where there is nothing to search by, and a limit below zero
/// lists nothing.
pub proof fn blank_queries_show_groups(text: &str, shown: bool, limit: i32, most: usize)
    requires
        call_ensures(shows_groups, (text,), shown),
        call_ensures(candidate_limit, (limit,), most),
    ensures
        shown <==> forall|i: int| 0 <= i < text@.len() ==> text::is_space(#[trigger] text@[i]),
        limit <= 0 ==> most == 0,
        limit > 0 ==> most == limit,
{
    let (a, b) = text::trimming_drops_outer_space(text@);
    assert(a < b ==> !text::is_space(text@[a]));
}

/// The snapshots to load are those of the items, each once.
pub proof fn each_source_is_loaded_once(items: &Vec<ScoredItem>, ids: Vec<String>, id: Seq<char>)
    requires
        call_ensures(source_ids, (items,), ids),
    ensures
        ids.deep_view().no_duplicates(),
        ids.deep_view().contains(id) <==> exists|k: int|
            0 <= k < items.len() && (#[trigger] items.deep_view()[k]).item.workspace_id == id,
{
    let all = items.deep_view().map_values(|s: ScoredItemView| s.item.workspace_id);
    text::lemma_unique(all);
    if all.contains(id) {
        let k = choose|k: int| 0 <= k < all.len() && all[k] == id;
        assert(items.deep_view()[k].item.workspace_id == id);
    }
    if exists|k: int|
        0 <= k < items.len() && (#[trigger] items.deep_view()[k]).item.workspace_id == id {
        let k = choose|k: int|
            0 <= k < items.len() && (#[trigger] items.deep_view()[k]).item.workspace_id == id;
        assert(all[k] == id);
    }
}

} // verus!
