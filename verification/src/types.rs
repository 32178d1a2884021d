//! Domain model: what a frozen desktop is made of, and the messages exchanged
//! about it.
//!
//! Every type has a view in which texts are character sequences and lists are
//! sequences; contracts speak of those views.

use vstd::prelude::*;

verus! {

/// Geometry of a single window in global (screen) coordinates, in points.
/// Each number is held as the bit pattern of its IEEE-754 double, so that it
/// travels unchanged; `doubles` orders such patterns.
#[derive(Debug, Clone, Copy, PartialEq, Eq, Structural)]
pub struct WindowGeometry {
    pub x: u64,
    pub y: u64,
    pub width: u64,
    pub height: u64,
}

impl Default for WindowGeometry {
    /// The empty rectangle at the origin (the pattern of 0.0 is 0).
    fn default() -> (r: Self)
        ensures
            r == (WindowGeometry { x: 0, y: 0, width: 0, height: 0 }),
    {
        WindowGeometry { x: 0, y: 0, width: 0, height: 0 }
    }
}

/// Which adapter captured (and can rehydrate) a node.
#[derive(Debug, Clone, Copy, PartialEq, Eq, Structural)]
pub enum AdapterKind {
    Chrome,
    TerminalApp,
    VsCode,
    Cursor,
    Generic,
}

/// What a query candidate represents. `Group`, `Assembled` and `Summoned`
/// candidates carry an already-materialized workspace, so staging and
/// rehydration treat every kind identically.
#[derive(Debug, Clone, Copy, PartialEq, Eq, Structural)]
pub enum CandidateKind {
    /// A whole frozen snapshot.
    Workspace,
    /// One semantic sub-group of a snapshot, materialized standalone.
    Group,
    /// A virtual workspace assembled from cross-snapshot item search.
    Assembled,
    /// A workspace composed for a stated intent.
    Summoned,
}

impl Default for CandidateKind {
    /// A candidate that says nothing of its kind is a whole snapshot.
    fn default() -> (r: Self)
        ensures
            r == CandidateKind::Workspace,
    {
        CandidateKind::Workspace
    }
}

/// One tab of a browser window.
#[derive(Debug, PartialEq)]
pub struct BrowserTab {
    pub url: String,
    pub title: String,
}

/// What a `BrowserTab` says: its texts as character sequences, its lists as sequences.
#[verifier::ext_equal]
pub struct BrowserTabView {
    pub url: Seq<char>,
    pub title: Seq<char>,
}

impl DeepView for BrowserTab {
    type V = BrowserTabView;

    open spec fn deep_view(&self) -> BrowserTabView {
        BrowserTabView {
            url: self.url.deep_view(),
            title: self.title.deep_view(),
        }
    }
}

impl Clone for BrowserTab {
    fn clone(&self) -> (r: Self)
        ensures
            r.deep_view() == self.deep_view(),
    {
        BrowserTab {
            url: self.url.clone(),
            title: self.title.clone(),
        }
    }
}

/// One tab of a terminal window.
#[derive(Debug, PartialEq)]
pub struct TerminalTab {
    pub tty: String,
    /// Working directory of the shell attached to the tty.
    pub cwd: String,
}

/// What a `TerminalTab` says: its texts as character sequences, its lists as sequences.
#[verifier::ext_equal]
pub struct TerminalTabView {
    pub tty: Seq<char>,
    pub cwd: Seq<char>,
}

impl DeepView for TerminalTab {
    type V = TerminalTabView;

    open spec fn deep_view(&self) -> TerminalTabView {
        TerminalTabView {
            tty: self.tty.deep_view(),
            cwd: self.cwd.deep_view(),
        }
    }
}

impl Clone for TerminalTab {
    fn clone(&self) -> (r: Self)
        ensures
            r.deep_view() == self.deep_view(),
    {
        TerminalTab {
            tty: self.tty.clone(),
            cwd: self.cwd.clone(),
        }
    }
}

/// Adapter-specific state carried by a window node.
#[derive(Debug, PartialEq)]
#[allow(inconsistent_fields)]
pub enum NodePayload {
    Browser { tabs: Vec<BrowserTab>, active_tab_index: i32 },
    Terminal { tabs: Vec<TerminalTab> },
    Editor { folder_path: String, open_files: Vec<String> },
    Generic,
}

/// What a `NodePayload` says: its texts as character sequences, its lists as sequences.
#[verifier::ext_equal]
#[allow(inconsistent_fields)]
pub enum NodePayloadView {
    Browser { tabs: Seq<BrowserTabView>, active_tab_index: i32 },
    Terminal { tabs: Seq<TerminalTabView> },
    Editor { folder_path: Seq<char>, open_files: Seq<Seq<char>> },
    Generic,
}

impl DeepView for NodePayload {
    type V = NodePayloadView;

    open spec fn deep_view(&self) -> NodePayloadView {
        match self {
            NodePayload::Browser { tabs, active_tab_index } => NodePayloadView::Browser {
                tabs: tabs.deep_view(),
                active_tab_index: *active_tab_index,
            },
            NodePayload::Terminal { tabs } => NodePayloadView::Terminal {
                tabs: tabs.deep_view(),
            },
            NodePayload::Editor { folder_path, open_files } => NodePayloadView::Editor {
                folder_path: folder_path.deep_view(),
                open_files: open_files.deep_view(),
            },
            NodePayload::Generic => NodePayloadView::Generic,
        }
    }
}

impl Clone for NodePayload {
    fn clone(&self) -> (r: Self)
        ensures
            r.deep_view() == self.deep_view(),
    {
        match self {
            NodePayload::Browser { tabs, active_tab_index } => NodePayload::Browser {
                tabs: tabs.clone(),
                active_tab_index: *active_tab_index,
            },
            NodePayload::Terminal { tabs } => NodePayload::Terminal {
                tabs: tabs.clone(),
            },
            NodePayload::Editor { folder_path, open_files } => NodePayload::Editor {
                folder_path: folder_path.clone(),
                open_files: open_files.clone(),
            },
            NodePayload::Generic => NodePayload::Generic,
        }
    }
}

/// One captured window: the unit the user can toggle in the staging preview.
#[derive(Debug, PartialEq)]
pub struct WindowNode {
    pub node_id: String,
    pub bundle_id: String,
    pub app_name: String,
    pub window_title: String,
    pub geometry: WindowGeometry,
    pub adapter: AdapterKind,
    pub payload: NodePayload,
}

/// What a `WindowNode` says: its texts as character sequences, its lists as sequences.
#[verifier::ext_equal]
pub struct WindowNodeView {
    pub node_id: Seq<char>,
    pub bundle_id: Seq<char>,
    pub app_name: Seq<char>,
    pub window_title: Seq<char>,
    pub geometry: WindowGeometry,
    pub adapter: AdapterKind,
    pub payload: NodePayloadView,
}

impl DeepView for WindowNode {
    type V = WindowNodeView;

    open spec fn deep_view(&self) -> WindowNodeView {
        WindowNodeView {
            node_id: self.node_id.deep_view(),
            bundle_id: self.bundle_id.deep_view(),
            app_name: self.app_name.deep_view(),
            window_title: self.window_title.deep_view(),
            geometry: self.geometry,
            adapter: self.adapter,
            payload: self.payload.deep_view(),
        }
    }
}

impl Clone for WindowNode {
    fn clone(&self) -> (r: Self)
        ensures
            r.deep_view() == self.deep_view(),
    {
        WindowNode {
            node_id: self.node_id.clone(),
            bundle_id: self.bundle_id.clone(),
            app_name: self.app_name.clone(),
            window_title: self.window_title.clone(),
            geometry: self.geometry,
            adapter: self.adapter,
            payload: self.payload.clone(),
        }
    }
}

/// Points at one embeddable, rehydratable unit inside a workspace: a whole
/// window node, or (for Browser nodes) a single tab within it. Tab indices are
/// stable because nodes never change after capture.
#[derive(Debug, PartialEq)]
pub struct ItemRef {
    pub node_id: String,
    /// `Some(i)` is the i-th tab of a Browser node; `None` is the whole node.
    pub tab_index: Option<i32>,
}

/// What an `ItemRef` says: its texts as character sequences, its lists as sequences.
#[verifier::ext_equal]
pub struct ItemRefView {
    pub node_id: Seq<char>,
    pub tab_index: Option<i32>,
}

impl DeepView for ItemRef {
    type V = ItemRefView;

    open spec fn deep_view(&self) -> ItemRefView {
        ItemRefView {
            node_id: self.node_id.deep_view(),
            tab_index: self.tab_index.deep_view(),
        }
    }
}

impl Clone for ItemRef {
    fn clone(&self) -> (r: Self)
        ensures
            r.deep_view() == self.deep_view(),
    {
        ItemRef {
            node_id: self.node_id.clone(),
            tab_index: self.tab_index,
        }
    }
}

/// A semantic activity cluster within one workspace ("coding", "writing").
/// Membership is fixed at freeze time; only the label upgrades later.
#[derive(Debug, PartialEq)]
pub struct WorkspaceGroup {
    /// "g0", "g1", ... ordered by member count, largest first.
    pub group_id: String,
    pub label: String,
    pub items: Vec<ItemRef>,
}

/// What a `WorkspaceGroup` says: its texts as character sequences, its lists as sequences.
#[verifier::ext_equal]
pub struct WorkspaceGroupView {
    pub group_id: Seq<char>,
    pub label: Seq<char>,
    pub items: Seq<ItemRefView>,
}

impl DeepView for WorkspaceGroup {
    type V = WorkspaceGroupView;

    open spec fn deep_view(&self) -> WorkspaceGroupView {
        WorkspaceGroupView {
            group_id: self.group_id.deep_view(),
            label: self.label.deep_view(),
            items: self.items.deep_view(),
        }
    }
}

impl Clone for WorkspaceGroup {
    fn clone(&self) -> (r: Self)
        ensures
            r.deep_view() == self.deep_view(),
    {
        WorkspaceGroup {
            group_id: self.group_id.clone(),
            label: self.label.clone(),
            items: self.items.clone(),
        }
    }
}

/// A frozen desktop: flat record, overwritten in place (no history).
#[derive(Debug, PartialEq)]
pub struct WorkspaceState {
    pub workspace_id: String,
    pub captured_at_unix_ms: i64,
    pub summary: String,
    pub tags: Vec<String>,
    pub nodes: Vec<WindowNode>,
    /// Semantic sub-groups; empty when clustering found no meaningful split.
    pub groups: Vec<WorkspaceGroup>,
}

/// What a `WorkspaceState` says: its texts as character sequences, its lists as sequences.
#[verifier::ext_equal]
pub struct WorkspaceStateView {
    pub workspace_id: Seq<char>,
    pub captured_at_unix_ms: i64,
    pub summary: Seq<char>,
    pub tags: Seq<Seq<char>>,
    pub nodes: Seq<WindowNodeView>,
    pub groups: Seq<WorkspaceGroupView>,
}

impl DeepView for WorkspaceState {
    type V = WorkspaceStateView;

    open spec fn deep_view(&self) -> WorkspaceStateView {
        WorkspaceStateView {
            workspace_id: self.workspace_id.deep_view(),
            captured_at_unix_ms: self.captured_at_unix_ms,
            summary: self.summary.deep_view(),
            tags: self.tags.deep_view(),
            nodes: self.nodes.deep_view(),
            groups: self.groups.deep_view(),
        }
    }
}

impl Clone for WorkspaceState {
    fn clone(&self) -> (r: Self)
        ensures
            r.deep_view() == self.deep_view(),
    {
        WorkspaceState {
            workspace_id: self.workspace_id.clone(),
            captured_at_unix_ms: self.captured_at_unix_ms,
            summary: self.summary.clone(),
            tags: self.tags.clone(),
            nodes: self.nodes.clone(),
            groups: self.groups.clone(),
        }
    }
}

/// What the user approved in the staging preview.
#[derive(Debug, PartialEq)]
pub struct RehydrationPayload {
    pub workspace: WorkspaceState,
    pub excluded_node_ids: Vec<String>,
}

/// What a `RehydrationPayload` says: its texts as character sequences, its lists as sequences.
#[verifier::ext_equal]
pub struct RehydrationPayloadView {
    pub workspace: WorkspaceStateView,
    pub excluded_node_ids: Seq<Seq<char>>,
}

impl DeepView for RehydrationPayload {
    type V = RehydrationPayloadView;

    open spec fn deep_view(&self) -> RehydrationPayloadView {
        RehydrationPayloadView {
            workspace: self.workspace.deep_view(),
            excluded_node_ids: self.excluded_node_ids.deep_view(),
        }
    }
}

impl Clone for RehydrationPayload {
    fn clone(&self) -> (r: Self)
        ensures
            r.deep_view() == self.deep_view(),
    {
        RehydrationPayload {
            workspace: self.workspace.clone(),
            excluded_node_ids: self.excluded_node_ids.clone(),
        }
    }
}

/// Per-node dry run of what rehydration would do, without launching anything.
#[derive(Debug, PartialEq)]
pub struct PreflightNode {
    pub node_id: String,
    pub app_name: String,
    pub adapter: AdapterKind,
    /// Whether the owning app appears installed.
    pub installed: bool,
    /// Whether the captured window would be moved to fit an active display.
    pub geometry_clamped: bool,
    /// Browser tabs captured; zero for other nodes.
    pub total_tabs: u32,
    /// Browser tabs that will be skipped for a disallowed URL scheme.
    pub skipped_tabs: u32,
    /// Notes for anything the user should know before committing.
    pub issues: Vec<String>,
}

/// What a `PreflightNode` says: its texts as character sequences, its lists as sequences.
#[verifier::ext_equal]
pub struct PreflightNodeView {
    pub node_id: Seq<char>,
    pub app_name: Seq<char>,
    pub adapter: AdapterKind,
    pub installed: bool,
    pub geometry_clamped: bool,
    pub total_tabs: u32,
    pub skipped_tabs: u32,
    pub issues: Seq<Seq<char>>,
}

impl DeepView for PreflightNode {
    type V = PreflightNodeView;

    open spec fn deep_view(&self) -> PreflightNodeView {
        PreflightNodeView {
            node_id: self.node_id.deep_view(),
            app_name: self.app_name.deep_view(),
            adapter: self.adapter,
            installed: self.installed,
            geometry_clamped: self.geometry_clamped,
            total_tabs: self.total_tabs,
            skipped_tabs: self.skipped_tabs,
            issues: self.issues.deep_view(),
        }
    }
}

impl Clone for PreflightNode {
    fn clone(&self) -> (r: Self)
        ensures
            r.deep_view() == self.deep_view(),
    {
        PreflightNode {
            node_id: self.node_id.clone(),
            app_name: self.app_name.clone(),
            adapter: self.adapter,
            installed: self.installed,
            geometry_clamped: self.geometry_clamped,
            total_tabs: self.total_tabs,
            skipped_tabs: self.skipped_tabs,
            issues: self.issues.clone(),
        }
    }
}

/// One search hit.
#[derive(Debug, PartialEq)]
pub struct QueryCandidate {
    pub workspace: WorkspaceState,
    /// Cosine similarity in [0, 1], as the bit pattern of its double.
    pub score: u64,
    pub kind: CandidateKind,
    /// For Group candidates: the snapshot this group was carved from.
    pub source_workspace_id: Option<String>,
    /// For Summoned candidates: nodes that launch an app not yet open.
    pub speculative_node_ids: Vec<String>,
}

/// What a `QueryCandidate` says: its texts as character sequences, its lists as sequences.
#[verifier::ext_equal]
pub struct QueryCandidateView {
    pub workspace: WorkspaceStateView,
    pub score: u64,
    pub kind: CandidateKind,
    pub source_workspace_id: Option<Seq<char>>,
    pub speculative_node_ids: Seq<Seq<char>>,
}

impl DeepView for QueryCandidate {
    type V = QueryCandidateView;

    open spec fn deep_view(&self) -> QueryCandidateView {
        QueryCandidateView {
            workspace: self.workspace.deep_view(),
            score: self.score,
            kind: self.kind,
            source_workspace_id: self.source_workspace_id.deep_view(),
            speculative_node_ids: self.speculative_node_ids.deep_view(),
        }
    }
}

impl Clone for QueryCandidate {
    fn clone(&self) -> (r: Self)
        ensures
            r.deep_view() == self.deep_view(),
    {
        QueryCandidate {
            workspace: self.workspace.clone(),
            score: self.score,
            kind: self.kind,
            source_workspace_id: self.source_workspace_id.clone(),
            speculative_node_ids: self.speculative_node_ids.clone(),
        }
    }
}

/// Requests from the interface to the daemon.
#[derive(Debug, PartialEq)]
pub enum IpcRequest {
    Ping,
    Freeze,
    Query { text: String, limit: i32 },
    /// Compose a workspace for a stated intent.
    SummonIntent { text: String },
    Rehydrate { payload: RehydrationPayload },
    /// Dry-run a rehydration: report per-node preflight without launching.
    RehydratePreview { payload: RehydrationPayload },
    /// Screen Recording and Accessibility permission check.
    PermissionStatus,
    /// Delete old workspace records. Exactly one field should be set.
    Prune { older_than_unix_ms: Option<i64>, keep_latest: Option<i32> },
}

/// What an `IpcRequest` says: its texts as character sequences, its lists as sequences.
#[verifier::ext_equal]
pub enum IpcRequestView {
    Ping,
    Freeze,
    Query { text: Seq<char>, limit: i32 },
    SummonIntent { text: Seq<char> },
    Rehydrate { payload: RehydrationPayloadView },
    RehydratePreview { payload: RehydrationPayloadView },
    PermissionStatus,
    Prune { older_than_unix_ms: Option<i64>, keep_latest: Option<i32> },
}

impl DeepView for IpcRequest {
    type V = IpcRequestView;

    open spec fn deep_view(&self) -> IpcRequestView {
        match self {
            IpcRequest::Ping => IpcRequestView::Ping,
            IpcRequest::Freeze => IpcRequestView::Freeze,
            IpcRequest::Query { text, limit } => IpcRequestView::Query {
                text: text.deep_view(),
                limit: *limit,
            },
            IpcRequest::SummonIntent { text } => IpcRequestView::SummonIntent {
                text: text.deep_view(),
            },
            IpcRequest::Rehydrate { payload } => IpcRequestView::Rehydrate {
                payload: payload.deep_view(),
            },
            IpcRequest::RehydratePreview { payload } => IpcRequestView::RehydratePreview {
                payload: payload.deep_view(),
            },
            IpcRequest::PermissionStatus => IpcRequestView::PermissionStatus,
            IpcRequest::Prune { older_than_unix_ms, keep_latest } => IpcRequestView::Prune {
                older_than_unix_ms: older_than_unix_ms.deep_view(),
                keep_latest: keep_latest.deep_view(),
            },
        }
    }
}

impl Clone for IpcRequest {
    fn clone(&self) -> (r: Self)
        ensures
            r.deep_view() == self.deep_view(),
    {
        match self {
            IpcRequest::Ping => IpcRequest::Ping,
            IpcRequest::Freeze => IpcRequest::Freeze,
            IpcRequest::Query { text, limit } => IpcRequest::Query {
                text: text.clone(),
                limit: *limit,
            },
            IpcRequest::SummonIntent { text } => IpcRequest::SummonIntent {
                text: text.clone(),
            },
            IpcRequest::Rehydrate { payload } => IpcRequest::Rehydrate {
                payload: payload.clone(),
            },
            IpcRequest::RehydratePreview { payload } => IpcRequest::RehydratePreview {
                payload: payload.clone(),
            },
            IpcRequest::PermissionStatus => IpcRequest::PermissionStatus,
            IpcRequest::Prune { older_than_unix_ms, keep_latest } => IpcRequest::Prune {
                older_than_unix_ms: *older_than_unix_ms,
                keep_latest: *keep_latest,
            },
        }
    }
}

/// Responses from the daemon. Progress and NodeResult may stream several times
/// before the last one.
#[derive(Debug, PartialEq)]
#[allow(inconsistent_fields)]
pub enum IpcResponse {
    Pong,
    FreezeStarted { workspace_id: String },
    QueryResults { candidates: Vec<QueryCandidate> },
    RehydrateStarted,
    /// What each node that takes part would do.
    RehydratePreview { nodes: Vec<PreflightNode> },
    Progress { stage: String, detail: String, percent: i32 },
    /// One rehydrated node's outcome, streamed as each node finishes.
    NodeResult { node_id: String, app_name: String, ok: bool, message: Option<String> },
    PermissionStatus { screen_recording: bool, accessibility: bool },
    Done { message: String },
    Error { code: String, message: String },
}

/// What an `IpcResponse` says: its texts as character sequences, its lists as sequences.
#[verifier::ext_equal]
#[allow(inconsistent_fields)]
pub enum IpcResponseView {
    Pong,
    FreezeStarted { workspace_id: Seq<char> },
    QueryResults { candidates: Seq<QueryCandidateView> },
    RehydrateStarted,
    RehydratePreview { nodes: Seq<PreflightNodeView> },
    Progress { stage: Seq<char>, detail: Seq<char>, percent: i32 },
    NodeResult { node_id: Seq<char>, app_name: Seq<char>, ok: bool, message: Option<Seq<char>> },
    PermissionStatus { screen_recording: bool, accessibility: bool },
    Done { message: Seq<char> },
    Error { code: Seq<char>, message: Seq<char> },
}

impl DeepView for IpcResponse {
    type V = IpcResponseView;

    open spec fn deep_view(&self) -> IpcResponseView {
        match self {
            IpcResponse::Pong => IpcResponseView::Pong,
            IpcResponse::FreezeStarted { workspace_id } => IpcResponseView::FreezeStarted {
                workspace_id: workspace_id.deep_view(),
            },
            IpcResponse::QueryResults { candidates } => IpcResponseView::QueryResults {
                candidates: candidates.deep_view(),
            },
            IpcResponse::RehydrateStarted => IpcResponseView::RehydrateStarted,
            IpcResponse::RehydratePreview { nodes } => IpcResponseView::RehydratePreview {
                nodes: nodes.deep_view(),
            },
            IpcResponse::Progress { stage, detail, percent } => IpcResponseView::Progress {
                stage: stage.deep_view(),
                detail: detail.deep_view(),
                percent: *percent,
            },
            IpcResponse::NodeResult { node_id, app_name, ok, message } => IpcResponseView::NodeResult {
                node_id: node_id.deep_view(),
                app_name: app_name.deep_view(),
                ok: *ok,
                message: message.deep_view(),
            },
            IpcResponse::PermissionStatus { screen_recording, accessibility } => IpcResponseView::PermissionStatus {
                screen_recording: *screen_recording,
                accessibility: *accessibility,
            },
            IpcResponse::Done { message } => IpcResponseView::Done {
                message: message.deep_view(),
            },
            IpcResponse::Error { code, message } => IpcResponseView::Error {
                code: code.deep_view(),
                message: message.deep_view(),
            },
        }
    }
}

impl Clone for IpcResponse {
    fn clone(&self) -> (r: Self)
        ensures
            r.deep_view() == self.deep_view(),
    {
        match self {
            IpcResponse::Pong => IpcResponse::Pong,
            IpcResponse::FreezeStarted { workspace_id } => IpcResponse::FreezeStarted {
                workspace_id: workspace_id.clone(),
            },
            IpcResponse::QueryResults { candidates } => IpcResponse::QueryResults {
                candidates: candidates.clone(),
            },
            IpcResponse::RehydrateStarted => IpcResponse::RehydrateStarted,
            IpcResponse::RehydratePreview { nodes } => IpcResponse::RehydratePreview {
                nodes: nodes.clone(),
            },
            IpcResponse::Progress { stage, detail, percent } => IpcResponse::Progress {
                stage: stage.clone(),
                detail: detail.clone(),
                percent: *percent,
            },
            IpcResponse::NodeResult { node_id, app_name, ok, message } => IpcResponse::NodeResult {
                node_id: node_id.clone(),
                app_name: app_name.clone(),
                ok: *ok,
                message: message.clone(),
            },
            IpcResponse::PermissionStatus { screen_recording, accessibility } => IpcResponse::PermissionStatus {
                screen_recording: *screen_recording,
                accessibility: *accessibility,
            },
            IpcResponse::Done { message } => IpcResponse::Done {
                message: message.clone(),
            },
            IpcResponse::Error { code, message } => IpcResponse::Error {
                code: code.clone(),
                message: message.clone(),
            },
        }
    }
}

} // verus!
