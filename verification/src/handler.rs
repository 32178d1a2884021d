//! Requests and responses: what is refused, and what a client is told.

use vstd::prelude::*;

use crate::grouping;
use crate::grouping::{build_groups, items_for, WorkspaceItem, WorkspaceItemView};
use crate::order;
use crate::rehydrate::{NodeEvent, NodeEventView, RehydrationOutcome, RehydrationOutcomeView};
use crate::store;
use crate::store::{stale_by_age, stale_by_count, StoredSnapshot, StoredSnapshotView};
use crate::tagging;
use crate::tagging::enrich;
use crate::text;
use crate::text::{decimal_of, join, quote, str_eq};
use crate::types::{
    IpcResponse, IpcResponseView, ItemRef, ItemRefView, NodePayload, NodePayloadView,
    RehydrationPayload, WindowNode, WindowNodeView, WorkspaceGroup, WorkspaceGroupView,
    WorkspaceState, WorkspaceStateView,
};

verus! {

/// Upper bound on the nodes of a rehydration payload. A real desktop is a few
/// dozen windows; this rejects pathological payloads before any work.
pub const MAX_REHYDRATE_NODES: usize = 200;

/// Upper bound on the tabs of one node.
pub const MAX_TABS_PER_NODE: usize = 500;

/// How many most-recent snapshots the scheduled freeze retains; older ones are
/// pruned after each capture so that passive freezing can't grow without bound.
pub const AUTO_FREEZE_KEEP: usize = 100;

/// How many tabs a node has, browser or terminal.
pub open spec fn tabs_of(n: WindowNodeView) -> nat {
    match n.payload {
        NodePayloadView::Browser { tabs, active_tab_index: _ } => tabs.len(),
        NodePayloadView::Terminal { tabs } => tabs.len(),
        _ => 0,
    }
}

/// Whether a node has more tabs than allowed.
pub open spec fn too_many_tabs() -> spec_fn(WindowNodeView) -> bool {
    |n: WindowNodeView| tabs_of(n) > MAX_TABS_PER_NODE
}

/// Whether a payload is small enough to work on; the message names its size,
/// or the first node with too many tabs.
pub open spec fn payload_verdict(nodes: Seq<WindowNodeView>) -> Result<(), Seq<char>> {
    let at = order::first_where(nodes, too_many_tabs(), 0);
    if nodes.len() > MAX_REHYDRATE_NODES {
        Err(
            "payload has "@ + text::decimal(nodes.len()) + " nodes; maximum is "@ + text::decimal(
                MAX_REHYDRATE_NODES as nat,
            ),
        )
    } else if at < nodes.len() {
        Err(
            "node "@ + text::quoted(nodes[at].node_id) + " has "@ + text::decimal(
                tabs_of(nodes[at]),
            ) + " tabs; maximum is "@ + text::decimal(MAX_TABS_PER_NODE as nat),
        )
    } else {
        Ok(())
    }
}

fn tab_count(node: &WindowNode) -> (r: usize)
    ensures
        r == tabs_of(node.deep_view()),
{
    match &node.payload {
        NodePayload::Browser { tabs, active_tab_index: _ } => tabs.len(),
        NodePayload::Terminal { tabs } => tabs.len(),
        NodePayload::Editor { folder_path: _, open_files: _ } => 0,
        NodePayload::Generic => 0,
    }
}

/// Rejects an oversized rehydration payload. Content is not otherwise
/// validated: what reaches a browser or a launcher is filtered there.
pub fn validate_payload_size(payload: &RehydrationPayload) -> (r: Result<(), String>)
    ensures
        text::verdict(r) == payload_verdict(payload.deep_view().workspace.nodes),
{
    let nodes = &payload.workspace.nodes;
    let ghost all = nodes.deep_view();
    if nodes.len() > MAX_REHYDRATE_NODES {
        return Err(
            "payload has ".to_owned().concat(decimal_of(nodes.len() as u128).as_str()).concat(
                " nodes; maximum is ",
            ).concat(decimal_of(MAX_REHYDRATE_NODES as u128).as_str()),
        );
    }
    let mut i: usize = 0;
    while i < nodes.len()
        invariant
            i <= nodes.len(),
            nodes.len() <= MAX_REHYDRATE_NODES,
            all == nodes.deep_view(),
            all == payload.deep_view().workspace.nodes,
            order::first_where(all, too_many_tabs(), 0) == order::first_where(
                all,
                too_many_tabs(),
                i as int,
            ),
        decreases nodes.len() - i,
    {
        let node = &nodes[i];
        assert(all[i as int] == node.deep_view());
        let tabs: usize = tab_count(node);
        if tabs > MAX_TABS_PER_NODE {
            assert(too_many_tabs()(all[i as int]));
            return Err(
                "node ".to_owned().concat(quote(node.node_id.as_str()).as_str()).concat(
                    " has ",
                ).concat(decimal_of(tabs as u128).as_str()).concat(" tabs; maximum is ").concat(
                    decimal_of(MAX_TABS_PER_NODE as u128).as_str(),
                ),
            );
        }
        assert(!too_many_tabs()(all[i as int]));
        i = i + 1;
    }
    Ok(())
}

/// A payload is accepted exactly when it has no more nodes than allowed, and
/// none of them more tabs than allowed.
pub proof fn accepted_payloads_are_bounded(nodes: Seq<WindowNodeView>)
    ensures
        payload_verdict(nodes) is Ok <==> nodes.len() <= MAX_REHYDRATE_NODES && forall|i: int|
            0 <= i < nodes.len() ==> tabs_of(#[trigger] nodes[i]) <= MAX_TABS_PER_NODE,
{
    let pred = too_many_tabs();
    let at = order::first_where(nodes, pred, 0);
    order::lemma_first_where(nodes, pred, 0);
    if at < nodes.len() {
        assert(pred(nodes[at]));
    } else {
        assert forall|i: int| 0 <= i < nodes.len() implies tabs_of(#[trigger] nodes[i])
            <= MAX_TABS_PER_NODE by {
            assert(!pred(nodes[i]));
        }
    }
}

/// An error response.
pub fn error_response(code: &str, message: &str) -> (r: IpcResponse)
    ensures
        r.deep_view() == (IpcResponseView::Error { code: code@, message: message@ }),
{
    IpcResponse::Error { code: code.to_owned(), message: message.to_owned() }
}

/// A response that ends a request well.
pub fn done(message: String) -> (r: IpcResponse)
    ensures
        r.deep_view() == (IpcResponseView::Done { message: message@ }),
{
    IpcResponse::Done { message }
}

/// How a freeze came to nothing.
#[derive(Debug, Clone, Copy, PartialEq, Eq, Structural)]
pub enum FreezeError {
    /// A task did not finish.
    Internal,
    /// The workspace could not be stored.
    Storage,
}

/// The code a client is given for a failed freeze.
pub open spec fn freeze_code(e: FreezeError) -> Seq<char> {
    match e {
        FreezeError::Internal => "E_INTERNAL"@,
        FreezeError::Storage => "E_STORAGE"@,
    }
}

impl FreezeError {
    /// The code a client is given.
    pub fn code(&self) -> (r: &'static str)
        ensures
            r@ == freeze_code(*self),
    {
        match *self {
            FreezeError::Internal => "E_INTERNAL",
            FreezeError::Storage => "E_STORAGE",
        }
    }
}

/// How far a freeze is.
#[derive(Debug, Clone, Copy, PartialEq, Eq, Structural)]
pub enum FreezeStage {
    /// About to read the desktop.
    Extract,
    /// The desktop was read.
    Tag { windows: usize },
    /// About to store.
    Persist,
}

/// What a client is told of a stage.
pub open spec fn stage_progress(stage: FreezeStage) -> IpcResponseView {
    match stage {
        FreezeStage::Extract => IpcResponseView::Progress {
            stage: "extract"@,
            detail: "desktop state"@,
            percent: 10,
        },
        FreezeStage::Tag { windows } => IpcResponseView::Progress {
            stage: "tag"@,
            detail: text::decimal(windows as nat) + " windows captured"@,
            percent: 60,
        },
        FreezeStage::Persist => IpcResponseView::Progress {
            stage: "persist"@,
            detail: Seq::empty(),
            percent: 90,
        },
    }
}

/// Tells a client how far a freeze is.
pub fn freeze_progress(stage: FreezeStage) -> (r: IpcResponse)
    ensures
        r.deep_view() == stage_progress(stage),
{
    match stage {
        FreezeStage::Extract => IpcResponse::Progress {
            stage: "extract".to_owned(),
            detail: "desktop state".to_owned(),
            percent: 10,
        },
        FreezeStage::Tag { windows } => IpcResponse::Progress {
            stage: "tag".to_owned(),
            detail: decimal_of(windows as u128).concat(" windows captured"),
            percent: 60,
        },
        FreezeStage::Persist => {
            let r = IpcResponse::Progress {
                stage: "persist".to_owned(),
                detail: String::new(),
                percent: 90,
            };
            assert(r.deep_view() =~= stage_progress(stage));
            r
        },
    }
}

/// What a client is told once a freeze is stored.
pub fn freeze_message(workspace_id: &str, node_count: usize) -> (r: String)
    ensures
        r@ == "froze workspace "@ + workspace_id@ + " ("@ + text::decimal(node_count as nat)
            + " windows)"@,
{
    "froze workspace ".to_owned().concat(workspace_id).concat(" (").concat(
        decimal_of(node_count as u128).as_str(),
    ).concat(" windows)")
}

/// A workspace before it is tagged: no summary, no tags, no groups.
pub open spec fn untagged(
    workspace_id: Seq<char>,
    captured_at_unix_ms: i64,
    nodes: Seq<WindowNodeView>,
) -> WorkspaceStateView {
    WorkspaceStateView {
        workspace_id,
        captured_at_unix_ms,
        summary: Seq::empty(),
        tags: Seq::empty(),
        nodes,
        groups: Seq::empty(),
    }
}

/// Puts captured nodes into a workspace, without summary and tags.
pub fn to_workspace(workspace_id: String, captured_at_unix_ms: i64, nodes: Vec<WindowNode>) -> (r:
    WorkspaceState)
    ensures
        r.deep_view() == untagged(workspace_id@, captured_at_unix_ms, nodes.deep_view()),
{
    let r = WorkspaceState {
        workspace_id,
        captured_at_unix_ms,
        summary: String::new(),
        tags: Vec::new(),
        nodes,
        groups: Vec::new(),
    };
    assert(r.tags.deep_view() =~= Seq::<Seq<char>>::empty());
    assert(r.groups.deep_view() =~= Seq::<WorkspaceGroupView>::empty());
    assert(r.summary@ =~= Seq::<char>::empty());
    r
}

/// What a freeze stores: the captured nodes, tagged.
pub fn frozen_workspace(workspace_id: String, now: i64, nodes: Vec<WindowNode>) -> (r:
    WorkspaceState)
    ensures
        r.deep_view() == (WorkspaceStateView {
            tags: tagging::tags_of(nodes.deep_view()),
            summary: tagging::summary_of(nodes.deep_view()),
            ..untagged(workspace_id@, now, nodes.deep_view())
        }),
{
    enrich(to_workspace(workspace_id, now, nodes))
}

/// Gives a workspace the groups its items cluster into. Membership is fixed
/// from here on.
pub fn with_groups(w: WorkspaceState, items: &Vec<WorkspaceItem>, clusters: &Vec<Vec<usize>>) -> (r:
    WorkspaceState)
    requires
        forall|c: int, j: int|
            0 <= c < clusters.len() && 0 <= j < clusters@[c].len() ==> (#[trigger] clusters@[c]@[j])
                < items.len(),
    ensures
        r.deep_view() == (WorkspaceStateView {
            groups: grouping::groups_of(items.deep_view(), clusters.deep_view()),
            ..w.deep_view()
        }),
{
    let groups = build_groups(items, clusters);
    WorkspaceState { groups, ..w }
}

/// The groups a workspace stored without items gets: those it has already, or
/// else those its items cluster into.
pub fn backfilled(w: WorkspaceState, items: &Vec<WorkspaceItem>, clusters: &Vec<Vec<usize>>) -> (r:
    WorkspaceState)
    requires
        forall|c: int, j: int|
            0 <= c < clusters.len() && 0 <= j < clusters@[c].len() ==> (#[trigger] clusters@[c]@[j])
                < items.len(),
    ensures
        r.deep_view() == if w.deep_view().groups.len() == 0 {
            WorkspaceStateView {
                groups: grouping::groups_of(items.deep_view(), clusters.deep_view()),
                ..w.deep_view()
            }
        } else {
            w.deep_view()
        },
{
    if w.groups.len() == 0 {
        with_groups(w, items, clusters)
    } else {
        w
    }
}

/// The test for what a reference points at.
pub open spec fn refers_to(item_ref: ItemRefView) -> spec_fn(WorkspaceItemView) -> bool {
    |i: WorkspaceItemView| i.item_ref == item_ref
}

/// The title of the item a reference points at; none when it is stale.
pub open spec fn title_of(items: Seq<WorkspaceItemView>, item_ref: ItemRefView) -> Seq<Seq<char>> {
    let at = order::first_where(items, refers_to(item_ref), 0);
    if at < items.len() {
        seq![items[at].title]
    } else {
        Seq::empty()
    }
}

/// What the labeling prompt says of a group: the titles of its members.
pub open spec fn context_of(items: Seq<WorkspaceItemView>, group: WorkspaceGroupView) -> Seq<char> {
    text::joined(text::gathered(group.items, |r: ItemRefView| title_of(items, r)), "\n"@)
}

fn same_ref(a: &ItemRef, b: &ItemRef) -> (r: bool)
    ensures
        r == (a.deep_view() == b.deep_view()),
{
    let same_tab = match (a.tab_index, b.tab_index) {
        (Some(x), Some(y)) => x == y,
        (None, None) => true,
        _ => false,
    };
    same_tab && str_eq(a.node_id.as_str(), b.node_id.as_str())
}

fn find_title(items: &Vec<WorkspaceItem>, item_ref: &ItemRef) -> (r: Option<String>)
    ensures
        title_of(items.deep_view(), item_ref.deep_view()) == match r {
            Some(t) => seq![t@],
            None => Seq::empty(),
        },
{
    let ghost all = items.deep_view();
    let ghost pred = refers_to(item_ref.deep_view());
    let mut i: usize = 0;
    while i < items.len()
        invariant
            i <= items.len(),
            all == items.deep_view(),
            pred == refers_to(item_ref.deep_view()),
            order::first_where(all, pred, 0) == order::first_where(all, pred, i as int),
        decreases items.len() - i,
    {
        assert(all[i as int].item_ref == items[i as int].item_ref.deep_view());
        if same_ref(&items[i].item_ref, item_ref) {
            assert(pred(all[i as int]));
            return Some(items[i].title.clone());
        }
        assert(!pred(all[i as int]));
        i = i + 1;
    }
    None
}

fn group_context(items: &Vec<WorkspaceItem>, group: &WorkspaceGroup) -> (r: String)
    ensures
        r@ == context_of(items.deep_view(), group.deep_view()),
{
    let ghost all = items.deep_view();
    let ghost refs = group.items.deep_view();
    let ghost f = |r: ItemRefView| title_of(all, r);
    let mut titles: Vec<String> = Vec::new();
    let mut i: usize = 0;
    assert(titles.deep_view() =~= text::gathered(refs.take(0), f));
    while i < group.items.len()
        invariant
            i <= group.items.len(),
            all == items.deep_view(),
            refs == group.items.deep_view(),
            f == (|r: ItemRefView| title_of(all, r)),
            titles.deep_view() == text::gathered(refs.take(i as int), f),
        decreases group.items.len() - i,
    {
        let ghost before = titles.deep_view();
        if let Some(title) = find_title(items, &group.items[i]) {
            titles.push(title);
        }
        proof {
            text::lemma_take_step(refs, i as int);
            assert(refs[i as int] == group.items[i as int].deep_view());
            assert(titles.deep_view() =~= before + f(refs[i as int]));
        }
        i = i + 1;
    }
    assert(refs.take(refs.len() as int) =~= refs);
    join(&titles, "\n")
}

/// What the labeling prompt says of each group of a workspace; none unless it
/// has at least two groups.
pub fn group_contexts(w: &WorkspaceState) -> (r: Option<Vec<String>>)
    ensures
        r.deep_view() == if w.deep_view().groups.len() < 2 {
            None
        } else {
            Some(
                w.deep_view().groups.map_values(
                    |g: WorkspaceGroupView|
                        context_of(grouping::items_of(w.deep_view().nodes), g),
                ),
            )
        },
{
    if w.groups.len() < 2 {
        return None;
    }
    let items = items_for(w);
    let ghost all = items.deep_view();
    let ghost groups = w.groups.deep_view();
    let ghost f = |g: WorkspaceGroupView| context_of(all, g);
    let mut out: Vec<String> = Vec::new();
    let mut i: usize = 0;
    assert(out.deep_view() =~= groups.take(0).map_values(f));
    while i < w.groups.len()
        invariant
            i <= w.groups.len(),
            all == items.deep_view(),
            groups == w.groups.deep_view(),
            f == (|g: WorkspaceGroupView| context_of(all, g)),
            out.deep_view() == groups.take(i as int).map_values(f),
        decreases w.groups.len() - i,
    {
        let ghost before = out.deep_view();
        out.push(group_context(&items, &w.groups[i]));
        assert(groups[i as int] == w.groups[i as int].deep_view());
        assert(out.deep_view() =~= before.push(f(groups[i as int])));
        assert(out.deep_view() =~= groups.take(i + 1).map_values(f));
        i = i + 1;
    }
    assert(groups.take(groups.len() as int) =~= groups);
    Some(out)
}

/// The groups with generated labels, as far as there are labels.
pub open spec fn relabeled(groups: Seq<WorkspaceGroupView>, labels: Seq<Seq<char>>) -> Seq<
    WorkspaceGroupView,
> {
    Seq::new(
        groups.len(),
        |i: int|
            if i < labels.len() {
                WorkspaceGroupView { label: labels[i], ..groups[i] }
            } else {
                groups[i]
            },
    )
}

/// Replaces heuristic group labels by generated ones. Ids and membership stay:
/// they are fixed at freeze time.
pub fn apply_labels(w: WorkspaceState, labels: &Vec<String>) -> (r: WorkspaceState)
    ensures
        r.deep_view() == (WorkspaceStateView {
            groups: relabeled(w.deep_view().groups, labels.deep_view()),
            ..w.deep_view()
        }),
{
    let ghost all = w.groups.deep_view();
    let ghost done = relabeled(all, labels.deep_view());
    let mut out: Vec<WorkspaceGroup> = Vec::new();
    let mut i: usize = 0;
    assert(out.deep_view() =~= done.take(0));
    while i < w.groups.len()
        invariant
            i <= w.groups.len(),
            all == w.groups.deep_view(),
            done == relabeled(all, labels.deep_view()),
            out.deep_view() == done.take(i as int),
        decreases w.groups.len() - i,
    {
        let ghost before = out.deep_view();
        let mut group = w.groups[i].clone();
        assert(group.deep_view() == all[i as int]);
        if i < labels.len() {
            group.label = labels[i].clone();
            assert(labels.deep_view()[i as int] == labels[i as int]@);
        }
        assert(group.deep_view() =~= done[i as int]);
        out.push(group);
        assert(out.deep_view() =~= before.push(done[i as int]));
        assert(out.deep_view() =~= done.take(i + 1));
        i = i + 1;
    }
    assert(done.take(done.len() as int) =~= done);
    WorkspaceState { groups: out, ..w }
}

/// Whatever is generated for a workspace, its windows and the membership of its
/// groups stay as they were frozen, so that references into it remain valid.
pub proof fn enrichment_keeps_nodes_and_membership(
    summary: Seq<char>,
    tags: Seq<Seq<char>>,
    labels: Seq<Seq<char>>,
    w: WorkspaceStateView,
    i: int,
)
    requires
        0 <= i < w.groups.len(),
    ensures
        ({
            let merged = tagging::with_llm_tags(summary, tags, w);
            let groups = relabeled(merged.groups, labels);
            &&& merged.nodes == w.nodes
            &&& merged.workspace_id == w.workspace_id
            &&& groups.len() == w.groups.len()
            &&& groups[i].group_id == w.groups[i].group_id
            &&& groups[i].items == w.groups[i].items
        }),
{
}

/// What a client is told as a node of a rehydration starts or ends, of `total`.
pub open spec fn event_response(event: NodeEventView, total: usize) -> IpcResponseView {
    match event {
        NodeEventView::Started { index, app_name } => IpcResponseView::Progress {
            stage: "launch"@,
            detail: app_name,
            percent: if total == 0 {
                100
            } else {
                ((index * 100) / total as int) as i32
            },
        },
        NodeEventView::Finished { index: _, node_id, app_name, ok, message } =>
            IpcResponseView::NodeResult { node_id, app_name, ok, message },
    }
}

/// Tells a client that a node starts, with how far the payload is, or how it
/// ended.
pub fn node_response(event: NodeEvent, total: usize) -> (r: IpcResponse)
    requires
        event.deep_view() matches NodeEventView::Started { index, app_name } ==> index * 100
            <= usize::MAX,
    ensures
        r.deep_view() == event_response(event.deep_view(), total),
{
    match event {
        NodeEvent::Started { index, app_name } => {
            let percent: i32 = if total == 0 {
                100
            } else {
                (index * 100 / total) as i32
            };
            IpcResponse::Progress { stage: "launch".to_owned(), detail: app_name, percent }
        },
        NodeEvent::Finished { index: _, node_id, app_name, ok, message } =>
            IpcResponse::NodeResult { node_id, app_name, ok, message },
    }
}

/// Progress never leaves 0 to 99 while nodes are still starting, and never
/// falls from one node to the next.
pub proof fn progress_climbs(
    index: usize,
    next: usize,
    total: usize,
    app: Seq<char>,
    other: Seq<char>,
)
    requires
        index <= next < total,
    ensures
        event_response(NodeEventView::Started { index, app_name: app }, total) matches
            IpcResponseView::Progress { stage: _, detail: _, percent: a } && event_response(
            NodeEventView::Started { index: next, app_name: other },
            total,
        ) matches IpcResponseView::Progress { stage: _, detail: _, percent: b } && 0 <= a <= b
            < 100,
{
    let t = total as int;
    vstd::arithmetic::div_mod::lemma_div_is_ordered(index * 100, next * 100, t);
    vstd::arithmetic::div_mod::lemma_div_pos_is_pos(index * 100, t);
    vstd::arithmetic::div_mod::lemma_multiply_divide_lt(next * 100, t, 100);
}

/// What a client is told at the end of a rehydration.
pub open spec fn outcome_message(outcome: RehydrationOutcomeView) -> Seq<char> {
    let failed = outcome.failures.len();
    "rehydrated "@ + text::decimal(outcome.restored as nat) + " windows"@ + if failed == 0 {
        Seq::empty()
    } else {
        "; "@ + text::decimal(failed) + " failed: "@ + text::joined(outcome.failures, "; "@)
    }
}

/// Sums up a rehydration: how many windows came back, and every failure.
pub fn rehydrate_message(outcome: &RehydrationOutcome) -> (r: String)
    ensures
        r@ == outcome_message(outcome.deep_view()),
{
    let head = "rehydrated ".to_owned().concat(
        decimal_of(outcome.restored as u128).as_str(),
    ).concat(" windows");
    if outcome.failures.len() == 0 {
        assert(head@ =~= outcome_message(outcome.deep_view()));
        head
    } else {
        let tail = "; ".to_owned().concat(
            decimal_of(outcome.failures.len() as u128).as_str(),
        ).concat(" failed: ").concat(join(&outcome.failures, "; ").as_str());
        let r = head.concat(tail.as_str());
        assert(r@ =~= outcome_message(outcome.deep_view()));
        r
    }
}

/// Which stored workspaces a prune request drops.
#[derive(Debug, PartialEq)]
pub enum PrunePlan {
    /// Those captured before this time.
    OlderThan { cutoff_unix_ms: i64 },
    /// All but this many of the latest.
    KeepLatest { keep: usize },
}

/// What a `PrunePlan` says: its texts as character sequences, its lists as sequences.
#[verifier::ext_equal]
pub enum PrunePlanView {
    OlderThan { cutoff_unix_ms: i64 },
    KeepLatest { keep: usize },
}

impl DeepView for PrunePlan {
    type V = PrunePlanView;

    open spec fn deep_view(&self) -> PrunePlanView {
        match self {
            PrunePlan::OlderThan { cutoff_unix_ms } => PrunePlanView::OlderThan {
                cutoff_unix_ms: *cutoff_unix_ms,
            },
            PrunePlan::KeepLatest { keep } => PrunePlanView::KeepLatest {
                keep: *keep,
            },
        }
    }
}

impl Clone for PrunePlan {
    fn clone(&self) -> (r: Self)
        ensures
            r.deep_view() == self.deep_view(),
    {
        match self {
            PrunePlan::OlderThan { cutoff_unix_ms } => PrunePlan::OlderThan {
                cutoff_unix_ms: *cutoff_unix_ms,
            },
            PrunePlan::KeepLatest { keep } => PrunePlan::KeepLatest {
                keep: *keep,
            },
        }
    }
}

/// What a prune request asks for; none unless it says exactly one thing.
pub open spec fn prune_plan_of(older_than: Option<i64>, keep_latest: Option<i32>) -> Option<
    PrunePlanView,
> {
    match (older_than, keep_latest) {
        (Some(cutoff_unix_ms), None) => Some(PrunePlanView::OlderThan { cutoff_unix_ms }),
        (None, Some(keep)) => Some(
            PrunePlanView::KeepLatest {
                keep: if keep > 0 {
                    keep as usize
                } else {
                    0
                },
            },
        ),
        _ => None,
    }
}

/// Reads a prune request. One that names neither or both of its criteria is
/// refused.
pub fn prune_plan(older_than_unix_ms: Option<i64>, keep_latest: Option<i32>) -> (r: Result<
    PrunePlan,
    String,
>)
    ensures
        match r {
            Ok(plan) => prune_plan_of(older_than_unix_ms, keep_latest) == Some(plan.deep_view()),
            Err(m) => prune_plan_of(older_than_unix_ms, keep_latest) is None && m@
                == "prune requires exactly one of olderThanUnixMs or keepLatest"@,
        },
{
    match (older_than_unix_ms, keep_latest) {
        (Some(cutoff_unix_ms), None) => Ok(PrunePlan::OlderThan { cutoff_unix_ms }),
        (None, Some(keep)) => {
            let keep: usize = if keep > 0 {
                keep as usize
            } else {
                0
            };
            Ok(PrunePlan::KeepLatest { keep })
        },
        _ => Err("prune requires exactly one of olderThanUnixMs or keepLatest".to_owned()),
    }
}

/// The ids of the stored workspaces a plan drops.
pub open spec fn dropped_by(plan: PrunePlanView, stored: Seq<StoredSnapshotView>) -> Seq<
    Seq<char>,
> {
    store::snapshot_ids(
        match plan {
            PrunePlanView::OlderThan { cutoff_unix_ms } => store::older_than(
                stored,
                cutoff_unix_ms,
            ),
            PrunePlanView::KeepLatest { keep } => store::beyond_latest(stored, keep as nat),
        },
    )
}

/// Lists what a plan drops of the workspaces that are stored.
pub fn pruned_ids(plan: &PrunePlan, stored: &Vec<StoredSnapshot>) -> (r: Vec<String>)
    ensures
        r.deep_view() == dropped_by(plan.deep_view(), stored.deep_view()),
{
    match plan {
        PrunePlan::OlderThan { cutoff_unix_ms } => stale_by_age(stored, *cutoff_unix_ms),
        PrunePlan::KeepLatest { keep } => stale_by_count(stored, *keep),
    }
}

/// A prune is done once: asked for again, whatever the plan, it drops none of
/// what it left.
pub proof fn pruning_is_idempotent(plan: PrunePlanView, stored: Seq<StoredSnapshotView>)
    requires
        store::is_keyed(stored),
    ensures
        dropped_by(plan, store::left_of(stored, dropped_by(plan, stored))).len() == 0,
{
    match plan {
        PrunePlanView::OlderThan { cutoff_unix_ms } => {
            store::pruning_by_age_again_drops_none(stored, cutoff_unix_ms);
        },
        PrunePlanView::KeepLatest { keep } => {
            store::pruning_again_drops_none(stored, keep as nat);
        },
    }
}

/// What a client is told after a prune.
pub fn prune_message(removed: usize) -> (r: String)
    ensures
        r@ == "pruned "@ + text::decimal(removed as nat) + " workspace(s)"@,
{
    "pruned ".to_owned().concat(decimal_of(removed as u128).as_str()).concat(" workspace(s)")
}

/// Whether the character is a lowercase hexadecimal digit.
pub open spec fn is_hex(c: char) -> bool {
    text::is_digit(c) || 'a' <= c <= 'f'
}

/// Whether a text has the shape of a random identifier: 32 hexadecimal digits in
/// groups of 8, 4, 4, 4 and 12, hyphens between, marked as version 4.
pub open spec fn is_random_id(s: Seq<char>) -> bool {
    &&& s.len() == 36
    &&& forall|i: int|
        0 <= i < 36 ==> if i == 8 || i == 13 || i == 18 || i == 23 {
            #[trigger] s[i] == '-'
        } else {
            is_hex(s[i])
        }
    &&& s[14] == '4'
    &&& s[19] == '8' || s[19] == '9' || s[19] == 'a' || s[19] == 'b'
}

/// `uuid::Uuid::new_v4`, written out by its `Display`: the hyphenated, lowercase
/// form of a version 4 identifier. Which one it is, is chance.
#[verifier::external_body]
fn random_id() -> (r: String)
    ensures
        is_random_id(r@),
{
    uuid::Uuid::new_v4().to_string()
}

/// A fresh workspace id: a prefix that says where it comes from ("ws-",
/// "virtual-", "summoned-"), then a random identifier.
pub fn fresh_id(prefix: &str) -> (r: String)
    ensures
        text::has_prefix(r@, prefix@),
        is_random_id(r@.skip(prefix@.len() as int)),
{
    let id = random_id();
    let r = prefix.to_owned().concat(id.as_str());
    assert(r@.take(prefix@.len() as int) =~= prefix@);
    assert(r@.skip(prefix@.len() as int) =~= id@);
    r
}

/// A reading of the clock.
#[verifier::external_type_specification]
#[verifier::external_body]
pub struct ExSystemTime(std::time::SystemTime);

/// `SystemTime::now`. Which time it is, is left unsaid.
#[verifier::external_body]
fn clock() -> (r: std::time::SystemTime) {
    std::time::SystemTime::now()
}

/// `SystemTime::duration_since` 1970; `None` for a reading from before that.
/// Readings are opaque, so which duration it is, is left unsaid.
#[verifier::external_body]
fn since_epoch(reading: &std::time::SystemTime) -> (r: Option<std::time::Duration>) {
    reading.duration_since(std::time::UNIX_EPOCH).ok()
}

/// `Duration::as_millis`. Durations are opaque, so the number is left unsaid.
#[verifier::external_body]
fn whole_ms(duration: &std::time::Duration) -> (r: u128) {
    duration.as_millis()
}

/// Milliseconds since 1970 as they are stored.
pub fn stored_ms(elapsed: Option<u128>) -> (r: Option<i64>)
    ensures
        r == match elapsed {
            Some(ms) => Some(ms as i64),
            None => None,
        },
{
    match elapsed {
        Some(ms) => Some(ms as i64),
        None => None,
    }
}

/// The current time in milliseconds since 1970; `None` for a clock that stands
/// before that. `stored_ms` says how the clock's reading is stored.
pub fn unix_ms() -> (r: Option<i64>) {
    match since_epoch(&clock()) {
        Some(elapsed) => stored_ms(Some(whole_ms(&elapsed))),
        None => stored_ms(None),
    }
}

/// A request is refused where it has more than 200 windows, or else a window with
/// more than 500 tabs, and says which limit it broke: the first such window is
/// named, with its count.
pub proof fn refusals_name_what_is_too_large(nodes: Seq<WindowNodeView>, k: int)
    requires
        0 <= k <= nodes.len(),
        forall|m: int| 0 <= m < k ==> tabs_of(#[trigger] nodes[m]) <= 500,
        k < nodes.len() ==> tabs_of(nodes[k]) > 500,
    ensures
        nodes.len() > 200 ==> payload_verdict(nodes) == Err::<(), Seq<char>>(
            "payload has "@ + text::decimal(nodes.len()) + " nodes; maximum is "@ + text::decimal(
                200,
            ),
        ),
        nodes.len() <= 200 && k < nodes.len() ==> payload_verdict(nodes) == Err::<(), Seq<char>>(
            "node "@ + text::quoted(nodes[k].node_id) + " has "@ + text::decimal(tabs_of(nodes[k]))
                + " tabs; maximum is "@ + text::decimal(500),
        ),
        nodes.len() <= 200 && k == nodes.len() ==> payload_verdict(nodes) is Ok,
{
    let pred = too_many_tabs();
    order::lemma_first_where(nodes, pred, 0);
    let at = order::first_where(nodes, pred, 0);
    if at < nodes.len() {
        assert(pred(nodes[at]));
    }
    if k < nodes.len() {
        assert(pred(nodes[k]));
    }
}

/// What counts against the limit of tabs are the tabs of a browser and the
/// sessions of a terminal; other windows have none.
pub proof fn tabs_and_sessions_count(n: WindowNodeView)
    ensures
        match n.payload {
            NodePayloadView::Browser { tabs, active_tab_index: _ } => tabs_of(n) == tabs.len(),
            NodePayloadView::Terminal { tabs } => tabs_of(n) == tabs.len(),
            NodePayloadView::Editor { folder_path: _, open_files: _ } => tabs_of(n) == 0,
            NodePayloadView::Generic => tabs_of(n) == 0,
        },
{
}

/// A freeze reports its three stages in order, each further along than the one
/// before, and how many windows it captured once it knows.
pub proof fn freezing_goes_forward(windows: usize)
    ensures
        stage_progress(FreezeStage::Extract) matches IpcResponseView::Progress {
            stage: first,
            detail: _,
            percent: a,
        } && stage_progress(FreezeStage::Tag { windows }) matches IpcResponseView::Progress {
            stage: second,
            detail,
            percent: b,
        } && stage_progress(FreezeStage::Persist) matches IpcResponseView::Progress {
            stage: third,
            detail: _,
            percent: c,
        } && first == "extract"@ && second == "tag"@ && third == "persist"@ && 0 < a < b < c < 100
            && detail == text::decimal(windows as nat) + " windows captured"@,
{
}

/// A captured desktop becomes a workspace of exactly its windows, under the id and
/// time given, without groups and not yet summed up.
pub proof fn captured_windows_make_a_workspace(
    workspace_id: Seq<char>,
    captured_at_unix_ms: i64,
    nodes: Seq<WindowNodeView>,
)
    ensures
        ({
            let w = untagged(workspace_id, captured_at_unix_ms, nodes);
            &&& w.workspace_id == workspace_id
            &&& w.captured_at_unix_ms == captured_at_unix_ms
            &&& w.nodes == nodes
            &&& w.summary.len() == 0
            &&& w.tags.len() == 0
            &&& w.groups.len() == 0
        }),
{
}

/// The model is told of a group by the titles of its items, one line each, in the
/// group's order; a reference without an item is passed over.
pub proof fn contexts_list_the_titles(
    items: Seq<WorkspaceItemView>,
    group: WorkspaceGroupView,
    titles: Seq<Seq<char>>,
)
    requires
        titles.len() == group.items.len(),
        forall|k: int|
            0 <= k < titles.len() ==> exists|i: int|
                {
                    &&& 0 <= i < items.len()
                    &&& (#[trigger] items[i]).item_ref == group.items[k]
                    &&& items[i].title == #[trigger] titles[k]
                    &&& forall|m: int|
                        0 <= m < i ==> (#[trigger] items[m]).item_ref != group.items[k]
                },
    ensures
        context_of(items, group) == text::joined(titles, "\n"@),
{
    let f = |r: ItemRefView| title_of(items, r);
    assert forall|k: int| 0 <= k < group.items.len() implies f(#[trigger] group.items[k]) == seq![
        titles[k],
    ] by {
        let r = group.items[k];
        assert(titles[k] == titles[k]);
        let i = choose|i: int|
            {
                &&& 0 <= i < items.len()
                &&& (#[trigger] items[i]).item_ref == r
                &&& items[i].title == titles[k]
                &&& forall|m: int| 0 <= m < i ==> (#[trigger] items[m]).item_ref != r
            };
        let pred = refers_to(r);
        order::lemma_first_where(items, pred, 0);
        let at = order::first_where(items, pred, 0);
        assert(pred(items[i]));
        if at < items.len() {
            assert(pred(items[at]));
        }
        assert(at == i);
    }
    text::lemma_gathered_singles(group.items, f, titles);
}

/// A reference that no item has adds no title.
pub proof fn lost_references_add_no_title(items: Seq<WorkspaceItemView>, item_ref: ItemRefView)
    ensures
        title_of(items, item_ref).len() == 0 <==> forall|i: int|
            0 <= i < items.len() ==> (#[trigger] items[i]).item_ref != item_ref,
        title_of(items, item_ref).len() <= 1,
{
    let pred = refers_to(item_ref);
    order::lemma_first_where(items, pred, 0);
    let at = order::first_where(items, pred, 0);
    if at < items.len() {
        assert(pred(items[at]));
        assert(items[at].item_ref == item_ref);
    } else {
        assert forall|i: int| 0 <= i < items.len() implies (#[trigger] items[i]).item_ref
            != item_ref by {
            assert(!pred(items[i]));
        }
    }
}

/// Labels go to the groups in order; a group beyond them keeps its own, and
/// nothing but the label changes.
pub proof fn labels_go_to_groups_in_order(groups: Seq<WorkspaceGroupView>, labels: Seq<Seq<char>>)
    ensures
        relabeled(groups, labels).len() == groups.len(),
        forall|i: int|
            0 <= i < groups.len() ==> {
                let g = #[trigger] relabeled(groups, labels)[i];
                &&& g.group_id == groups[i].group_id
                &&& g.items == groups[i].items
                &&& i < labels.len() ==> g.label == labels[i]
                &&& i >= labels.len() ==> g.label == groups[i].label
            },
{
}

/// A client is told that a window is being opened, by its app and by how many of
/// a hundred parts are behind it, and how each window ended.
pub proof fn windows_are_reported_as_they_go(
    index: usize,
    total: usize,
    node_id: Seq<char>,
    app_name: Seq<char>,
    ok: bool,
    message: Option<Seq<char>>,
)
    requires
        index < total,
    ensures
        event_response(NodeEventView::Started { index, app_name }, total) matches
            IpcResponseView::Progress { stage, detail, percent } && stage == "launch"@ && detail
            == app_name && percent * total <= index * 100 < (percent + 1) * total,
        event_response(NodeEventView::Started { index, app_name }, 0) matches
            IpcResponseView::Progress { stage: _, detail: _, percent: whole } && whole == 100,
        event_response(
            NodeEventView::Finished { index, node_id, app_name, ok, message },
            total,
        ) == (IpcResponseView::NodeResult { node_id, app_name, ok, message }),
{
    let t = total as int;
    let n = index as int * 100;
    let q = n / t;
    assert(q * t <= n < (q + 1) * t && 0 <= q < 100) by (nonlinear_arith)
        requires
            q == n / t,
            0 <= n < 100 * t,
            0 < t,
    ;
}

/// After a rehydration a client is told how many windows came back and, where any
/// did not, how many and why.
pub proof fn outcomes_are_told(outcome: RehydrationOutcomeView)
    ensures
        outcome.failures.len() == 0 ==> outcome_message(outcome) == "rehydrated "@ + text::decimal(
            outcome.restored as nat,
        ) + " windows"@,
        outcome.failures.len() > 0 ==> outcome_message(outcome) == "rehydrated "@ + text::decimal(
            outcome.restored as nat,
        ) + " windows"@ + ("; "@ + text::decimal(outcome.failures.len()) + " failed: "@
            + text::joined(outcome.failures, "; "@)),
{
    if outcome.failures.len() == 0 {
        assert(outcome_message(outcome) =~= "rehydrated "@ + text::decimal(
            outcome.restored as nat,
        ) + " windows"@);
    }
}

/// A prune goes by exactly one of a time and a number; a number below zero keeps
/// none. With both or neither there is no plan.
pub proof fn prunes_go_by_one_limit(older_than: Option<i64>, keep_latest: Option<i32>)
    ensures
        prune_plan_of(older_than, keep_latest) is Some <==> older_than is Some
            != keep_latest is Some,
        prune_plan_of(older_than, keep_latest) matches Some(PrunePlanView::OlderThan {
            cutoff_unix_ms,
        }) ==> older_than == Some(cutoff_unix_ms),
        prune_plan_of(older_than, keep_latest) matches Some(PrunePlanView::KeepLatest { keep })
            ==> (keep_latest matches Some(n) && keep == if n < 0 {
            0
        } else {
            n as int
        }),
        keep_latest is None ==> !(prune_plan_of(older_than, keep_latest) matches Some(
            PrunePlanView::KeepLatest { keep: _ },
        )),
{
}

/// What a prune drops are the ids of the rows that its plan names: those captured
/// before its time, or those behind the latest it keeps.
pub proof fn plans_drop_what_they_say(
    plan: PrunePlanView,
    stored: Seq<StoredSnapshotView>,
    id: Seq<char>,
)
    ensures
        plan matches PrunePlanView::OlderThan { cutoff_unix_ms } ==> (dropped_by(
            plan,
            stored,
        ).contains(id) <==> exists|k: int|
            0 <= k < stored.len() && (#[trigger] stored[k]).workspace_id == id
                && stored[k].captured_at_unix_ms < cutoff_unix_ms),
        plan matches PrunePlanView::KeepLatest { keep } ==> dropped_by(plan, stored).len() == if keep
            < stored.len() {
            stored.len() - keep
        } else {
            0
        },
        plan matches PrunePlanView::KeepLatest { keep } ==> forall|i: int|
            0 <= i < dropped_by(plan, stored).len() ==> #[trigger] dropped_by(plan, stored)[i]
                == store::by_recency(stored)[keep + i].workspace_id,
{
    match plan {
        PrunePlanView::OlderThan { cutoff_unix_ms } => {
            let old = store::older_than(stored, cutoff_unix_ms);
            let ids = dropped_by(plan, stored);
            if ids.contains(id) {
                let i = choose|i: int| 0 <= i < ids.len() && ids[i] == id;
                store::pruning_by_age_is_exact(stored, cutoff_unix_ms, old[i]);
                assert(old.contains(old[i]));
                let k = choose|k: int| 0 <= k < stored.len() && stored[k] == old[i];
                assert(stored[k].workspace_id == id);
            }
            if exists|k: int|
                0 <= k < stored.len() && (#[trigger] stored[k]).workspace_id == id
                    && stored[k].captured_at_unix_ms < cutoff_unix_ms {
                let k = choose|k: int|
                    0 <= k < stored.len() && (#[trigger] stored[k]).workspace_id == id
                        && stored[k].captured_at_unix_ms < cutoff_unix_ms;
                store::pruning_by_age_is_exact(stored, cutoff_unix_ms, stored[k]);
                assert(stored.contains(stored[k]));
                let i = choose|i: int| 0 <= i < old.len() && old[i] == stored[k];
                assert(ids[i] == id);
            }
        },
        PrunePlanView::KeepLatest { keep } => {
            store::pruning_by_count_drops_the_tail(stored, keep as nat);
        },
    }
}

/// The ways a freeze can fail are told apart by their codes.
pub proof fn freeze_failures_are_told_apart(e: FreezeError)
    ensures
        e == FreezeError::Internal ==> freeze_code(e) == "E_INTERNAL"@,
        e == FreezeError::Storage ==> freeze_code(e) == "E_STORAGE"@,
{
}

/// A frozen desktop is kept as it was captured, tagged and summed up by what is on
/// it.
pub proof fn frozen_desktops_are_kept_as_captured(
    workspace_id: String,
    now: i64,
    nodes: Vec<WindowNode>,
    w: WorkspaceState,
)
    requires
        call_ensures(frozen_workspace, (workspace_id, now, nodes), w),
    ensures
        w.deep_view().workspace_id == workspace_id@,
        w.deep_view().captured_at_unix_ms == now,
        w.deep_view().nodes == nodes.deep_view(),
        w.deep_view().tags == tagging::tags_of(nodes.deep_view()),
        w.deep_view().summary == tagging::summary_of(nodes.deep_view()),
        w.deep_view().groups.len() == 0,
{
}

/// Groups are added to a workspace that has none; nothing else of it changes, and
/// a workspace that has groups keeps them.
pub proof fn groups_are_added_once(
    w: WorkspaceState,
    items: &Vec<WorkspaceItem>,
    clusters: &Vec<Vec<usize>>,
    grouped: WorkspaceState,
    filled: WorkspaceState,
)
    requires
        call_ensures(with_groups, (w, items, clusters), grouped),
        call_ensures(backfilled, (w, items, clusters), filled),
    ensures
        grouped.deep_view().groups == grouping::groups_of(items.deep_view(), clusters.deep_view()),
        grouped.deep_view().nodes == w.deep_view().nodes,
        grouped.deep_view().workspace_id == w.deep_view().workspace_id,
        grouped.deep_view().captured_at_unix_ms == w.deep_view().captured_at_unix_ms,
        grouped.deep_view().summary == w.deep_view().summary,
        grouped.deep_view().tags == w.deep_view().tags,
        w.deep_view().groups.len() > 0 ==> filled.deep_view() == w.deep_view(),
        w.deep_view().groups.len() == 0 ==> filled.deep_view() == grouped.deep_view(),
{
}

/// The model is asked for labels where there are at least two groups, and is told
/// of each of them, in order.
pub proof fn labels_are_asked_for_groups(w: &WorkspaceState, r: Option<Vec<String>>)
    requires
        call_ensures(group_contexts, (w,), r),
    ensures
        r is Some <==> w.deep_view().groups.len() >= 2,
        r matches Some(contexts) ==> contexts.len() == w.deep_view().groups.len() && forall|i: int|
            0 <= i < contexts.len() ==> #[trigger] contexts.deep_view()[i] == context_of(
                grouping::items_of(w.deep_view().nodes),
                w.deep_view().groups[i],
            ),
{
    if let Some(contexts) = r {
        assert(r.deep_view() == Some(contexts.deep_view()));
        assert(contexts.deep_view().len() == contexts.len());
    }
}

/// New labels change nothing but the labels.
pub proof fn labels_change_labels_only(
    w: WorkspaceState,
    labels: &Vec<String>,
    r: WorkspaceState,
)
    requires
        call_ensures(apply_labels, (w, labels), r),
    ensures
        r.deep_view().nodes == w.deep_view().nodes,
        r.deep_view().tags == w.deep_view().tags,
        r.deep_view().summary == w.deep_view().summary,
        r.deep_view().workspace_id == w.deep_view().workspace_id,
        r.deep_view().captured_at_unix_ms == w.deep_view().captured_at_unix_ms,
        r.deep_view().groups.len() == w.deep_view().groups.len(),
        forall|i: int|
            0 <= i < labels.len() && i < w.deep_view().groups.len() ==> (
            #[trigger] r.deep_view().groups[i]).label == labels.deep_view()[i],
{
    assert(labels.deep_view().len() == labels.len());
}

} // verus!
