//! Probe client: which request a command sends, and which response ends it.

use vstd::prelude::*;

use crate::order;
use crate::text;
use crate::text::str_eq;
use crate::types::{
    IpcRequest, IpcRequestView, IpcResponse, IpcResponseView, QueryCandidate, QueryCandidateView,
    RehydrationPayload, RehydrationPayloadView, WorkspaceState, WorkspaceStateView,
};

verus! {

/// How many recent workspaces a lookup goes through.
pub const LOOKUP_LIMIT: i32 = 100;

/// What a probe client can ask.
#[derive(Debug, PartialEq)]
pub enum ProbeCommand {
    /// Liveness check (expects pong).
    Ping,
    /// Freeze the current desktop state.
    Freeze,
    /// Semantic query for stored workspaces.
    Query { text: String, limit: i32 },
    /// Rehydrate a stored workspace by id (no exclusions).
    Rehydrate { workspace_id: String },
}

/// What a `ProbeCommand` says: its texts as character sequences, its lists as sequences.
#[verifier::ext_equal]
pub enum ProbeCommandView {
    Ping,
    Freeze,
    Query { text: Seq<char>, limit: i32 },
    Rehydrate { workspace_id: Seq<char> },
}

impl DeepView for ProbeCommand {
    type V = ProbeCommandView;

    open spec fn deep_view(&self) -> ProbeCommandView {
        match self {
            ProbeCommand::Ping => ProbeCommandView::Ping,
            ProbeCommand::Freeze => ProbeCommandView::Freeze,
            ProbeCommand::Query { text, limit } => ProbeCommandView::Query {
                text: text.deep_view(),
                limit: *limit,
            },
            ProbeCommand::Rehydrate { workspace_id } => ProbeCommandView::Rehydrate {
                workspace_id: workspace_id.deep_view(),
            },
        }
    }
}

impl Clone for ProbeCommand {
    fn clone(&self) -> (r: Self)
        ensures
            r.deep_view() == self.deep_view(),
    {
        match self {
            ProbeCommand::Ping => ProbeCommand::Ping,
            ProbeCommand::Freeze => ProbeCommand::Freeze,
            ProbeCommand::Query { text, limit } => ProbeCommand::Query {
                text: text.clone(),
                limit: *limit,
            },
            ProbeCommand::Rehydrate { workspace_id } => ProbeCommand::Rehydrate {
                workspace_id: workspace_id.clone(),
            },
        }
    }
}

/// The request that lists the workspaces a lookup goes through.
pub fn lookup_request() -> (r: IpcRequest)
    ensures
        r.deep_view() == (IpcRequestView::Query { text: Seq::empty(), limit: LOOKUP_LIMIT }),
{
    let r = IpcRequest::Query { text: String::new(), limit: LOOKUP_LIMIT };
    assert(r.deep_view() =~= (IpcRequestView::Query { text: Seq::empty(), limit: LOOKUP_LIMIT }));
    r
}

/// The test for one workspace.
pub open spec fn has_id(id: Seq<char>) -> spec_fn(QueryCandidateView) -> bool {
    |c: QueryCandidateView| c.workspace.workspace_id == id
}

/// The first candidate with a workspace id.
pub open spec fn looked_up(candidates: Seq<QueryCandidateView>, id: Seq<char>) -> Option<
    WorkspaceStateView,
> {
    let at = order::first_where(candidates, has_id(id), 0);
    if at < candidates.len() {
        Some(candidates[at].workspace)
    } else {
        None
    }
}

/// Finds the workspace with an id among those listed; the error says that there
/// is none.
pub fn fetch_workspace(candidates: &Vec<QueryCandidate>, workspace_id: &str) -> (r: Result<
    WorkspaceState,
    String,
>)
    ensures
        match r {
            Ok(w) => looked_up(candidates.deep_view(), workspace_id@) == Some(w.deep_view()),
            Err(m) => looked_up(candidates.deep_view(), workspace_id@) is None && m@
                == "no stored workspace with id "@ + workspace_id@,
        },
{
    let ghost all = candidates.deep_view();
    let ghost pred = has_id(workspace_id@);
    let mut i: usize = 0;
    while i < candidates.len()
        invariant
            i <= candidates.len(),
            all == candidates.deep_view(),
            pred == has_id(workspace_id@),
            order::first_where(all, pred, 0) == order::first_where(all, pred, i as int),
        decreases candidates.len() - i,
    {
        assert(all[i as int] == candidates[i as int].deep_view());
        if str_eq(candidates[i].workspace.workspace_id.as_str(), workspace_id) {
            assert(pred(all[i as int]));
            return Ok(candidates[i].workspace.clone());
        }
        assert(!pred(all[i as int]));
        i = i + 1;
    }
    Err("no stored workspace with id ".to_owned().concat(workspace_id))
}

/// The request a command sends; `workspace` is the one a rehydration names.
pub open spec fn request_of(
    command: ProbeCommandView,
    workspace: WorkspaceStateView,
) -> IpcRequestView {
    match command {
        ProbeCommandView::Ping => IpcRequestView::Ping,
        ProbeCommandView::Freeze => IpcRequestView::Freeze,
        ProbeCommandView::Query { text, limit } => IpcRequestView::Query { text, limit },
        ProbeCommandView::Rehydrate { workspace_id: _ } => IpcRequestView::Rehydrate {
            payload: RehydrationPayloadView { workspace, excluded_node_ids: Seq::empty() },
        },
    }
}

/// The id of the workspace a command has to look up first, if it does.
pub fn wanted_workspace(command: &ProbeCommand) -> (r: Option<String>)
    ensures
        r.deep_view() == match command.deep_view() {
            ProbeCommandView::Rehydrate { workspace_id } => Some(workspace_id),
            _ => None,
        },
{
    match command {
        ProbeCommand::Rehydrate { workspace_id } => Some(workspace_id.clone()),
        _ => None,
    }
}

/// The request a command that needs no lookup sends; `None` for one that does.
pub fn simple_request(command: &ProbeCommand) -> (r: Option<IpcRequest>)
    ensures
        match r {
            Some(request) => !(command.deep_view() is Rehydrate) && forall|w: WorkspaceStateView|
                request.deep_view() == #[trigger] request_of(command.deep_view(), w),
            None => command.deep_view() is Rehydrate,
        },
{
    match command {
        ProbeCommand::Ping => Some(IpcRequest::Ping),
        ProbeCommand::Freeze => Some(IpcRequest::Freeze),
        ProbeCommand::Query { text, limit } => Some(
            IpcRequest::Query { text: text.clone(), limit: *limit },
        ),
        ProbeCommand::Rehydrate { workspace_id: _ } => None,
    }
}

/// The request that rehydrates a whole workspace.
pub fn rehydrate_request(workspace: WorkspaceState) -> (r: IpcRequest)
    ensures
        forall|id: Seq<char>|
            r.deep_view() == #[trigger] request_of(
                ProbeCommandView::Rehydrate { workspace_id: id },
                workspace.deep_view(),
            ),
{
    let none: Vec<String> = Vec::new();
    assert(none.deep_view() =~= Seq::<Seq<char>>::empty());
    IpcRequest::Rehydrate { payload: RehydrationPayload { workspace, excluded_node_ids: none } }
}

/// Whether a response ends its request; progress and per-node results don't.
pub open spec fn ends_request(response: IpcResponseView) -> bool {
    match response {
        IpcResponseView::FreezeStarted { workspace_id: _ } => false,
        IpcResponseView::RehydrateStarted => false,
        IpcResponseView::Progress { stage: _, detail: _, percent: _ } => false,
        IpcResponseView::NodeResult { node_id: _, app_name: _, ok: _, message: _ } => false,
        _ => true,
    }
}

/// Whether a response ends its request.
pub fn is_terminal(response: &IpcResponse) -> (r: bool)
    ensures
        r == ends_request(response.deep_view()),
{
    match response {
        IpcResponse::FreezeStarted { workspace_id: _ } => false,
        IpcResponse::RehydrateStarted => false,
        IpcResponse::Progress { stage: _, detail: _, percent: _ } => false,
        IpcResponse::NodeResult { node_id: _, app_name: _, ok: _, message: _ } => false,
        _ => true,
    }
}

/// The "type" a response carries on the wire.
pub open spec fn wire_type(response: IpcResponseView) -> Seq<char> {
    match response {
        IpcResponseView::Pong => "pong"@,
        IpcResponseView::FreezeStarted { workspace_id: _ } => "freeze-started"@,
        IpcResponseView::QueryResults { candidates: _ } => "query-results"@,
        IpcResponseView::RehydrateStarted => "rehydrate-started"@,
        IpcResponseView::RehydratePreview { nodes: _ } => "rehydrate-preview"@,
        IpcResponseView::Progress { stage: _, detail: _, percent: _ } => "progress"@,
        IpcResponseView::NodeResult { node_id: _, app_name: _, ok: _, message: _ } =>
            "node-result"@,
        IpcResponseView::PermissionStatus { screen_recording: _, accessibility: _ } =>
            "permission-status"@,
        IpcResponseView::Done { message: _ } => "done"@,
        IpcResponseView::Error { code: _, message: _ } => "error"@,
    }
}

/// The "type" a response carries on the wire.
pub fn response_type(response: &IpcResponse) -> (r: &'static str)
    ensures
        r@ == wire_type(response.deep_view()),
{
    match response {
        IpcResponse::Pong => "pong",
        IpcResponse::FreezeStarted { workspace_id: _ } => "freeze-started",
        IpcResponse::QueryResults { candidates: _ } => "query-results",
        IpcResponse::RehydrateStarted => "rehydrate-started",
        IpcResponse::RehydratePreview { nodes: _ } => "rehydrate-preview",
        IpcResponse::Progress { stage: _, detail: _, percent: _ } => "progress",
        IpcResponse::NodeResult { node_id: _, app_name: _, ok: _, message: _ } => "node-result",
        IpcResponse::PermissionStatus { screen_recording: _, accessibility: _ } =>
            "permission-status",
        IpcResponse::Done { message: _ } => "done",
        IpcResponse::Error { code: _, message: _ } => "error",
    }
}

/// Name for the text under a key of a JSON object; none when the text is no
/// object or that member is no text.
pub uninterp spec fn json_text(s: Seq<char>, key: Seq<char>) -> Option<Seq<char>>;

/// `serde_json::from_str` into a value, then one of its members as a text, a
/// function of the text and the key alone; the grammar of JSON is left unsaid.
#[verifier::external_body]
fn decode_text(s: &str, key: &str) -> (r: Option<String>)
    ensures
        r.deep_view() == json_text(s@, key@),
{
    serde_json::from_str::<serde_json::Value>(s).ok().and_then(
        |v| v.get(key).and_then(|t| t.as_str()).map(|t| t.to_owned()),
    )
}

/// The response types that end a request's stream.
pub open spec fn terminal_types() -> Seq<Seq<char>> {
    seq![
        "pong"@,
        "done"@,
        "error"@,
        "query-results"@,
        "permission-status"@,
        "rehydrate-preview"@,
    ]
}

/// Whether a response type ends a request's stream, for a shell that ferries
/// responses without decoding them.
pub open spec fn ends_stream(kind: Option<Seq<char>>) -> bool {
    kind matches Some(t) && terminal_types().contains(t)
}

/// Whether a response type ends a request's stream.
pub fn is_terminal_type(kind: &Option<String>) -> (r: bool)
    ensures
        r == ends_stream(kind.deep_view()),
{
    match kind {
        Some(t) => {
            let t = t.as_str();
            proof {
                let all = terminal_types();
                assert(all[0] == "pong"@ && all[1] == "done"@ && all[2] == "error"@ && all[3]
                    == "query-results"@ && all[4] == "permission-status"@ && all[5]
                    == "rehydrate-preview"@);
            }
            str_eq(t, "pong") || str_eq(t, "done") || str_eq(t, "error") || str_eq(
                t,
                "query-results",
            ) || str_eq(t, "permission-status") || str_eq(t, "rehydrate-preview")
        },
        None => false,
    }
}

/// Whether an encoded response ends a request's stream; text that is no
/// response never does.
pub fn is_terminal_json(response_json: &str) -> (r: bool)
    ensures
        r == ends_stream(json_text(response_json@, "type"@)),
{
    is_terminal_type(&decode_text(response_json, "type"))
}

/// A response ends its request's stream exactly when it ends the request: those
/// who decode it and those who only look at its type agree.
pub proof fn wire_types_end_streams(response: IpcResponseView)
    ensures
        ends_stream(Some(wire_type(response))) == ends_request(response),
{
    reveal_strlit("pong");
    reveal_strlit("done");
    reveal_strlit("error");
    reveal_strlit("query-results");
    reveal_strlit("permission-status");
    reveal_strlit("rehydrate-preview");
    reveal_strlit("freeze-started");
    reveal_strlit("rehydrate-started");
    reveal_strlit("progress");
    reveal_strlit("node-result");
    let all = terminal_types();
    let t = wire_type(response);
    assert(all[0] == "pong"@ && all[1] == "done"@ && all[2] == "error"@ && all[3]
        == "query-results"@ && all[4] == "permission-status"@ && all[5] == "rehydrate-preview"@);
    if !ends_request(response) {
        assert(t[0] == 'f' || t[0] == 'n' || t.len() == 8 || t.len() == 17 && t[11] == 't');
        assert("rehydrate-preview"@[11] == 'r' && "permission-status"@[11] == 's');
        assert forall|i: int| 0 <= i < all.len() implies all[i] != t by {
            assert(i == 0 || i == 1 || i == 2 || i == 3 || i == 4 || i == 5);
            assert("pong"@[0] == 'p' && "done"@[0] == 'd' && "error"@[0] == 'e'
                && "query-results"@[0] == 'q' && "permission-status"@[0] == 'p'
                && "rehydrate-preview"@[0] == 'r');
        }
    }
}

/// A workspace is looked up by its id: the first candidate that has it is it, and
/// there is none only where no candidate has it.
pub proof fn workspaces_are_looked_up_by_id(
    candidates: Seq<QueryCandidateView>,
    id: Seq<char>,
    k: int,
)
    requires
        0 <= k <= candidates.len(),
        forall|m: int| 0 <= m < k ==> (#[trigger] candidates[m]).workspace.workspace_id != id,
        k < candidates.len() ==> candidates[k].workspace.workspace_id == id,
    ensures
        k < candidates.len() ==> looked_up(candidates, id) == Some(candidates[k].workspace),
        k == candidates.len() ==> looked_up(candidates, id) is None,
{
    let pred = has_id(id);
    order::lemma_first_where(candidates, pred, 0);
    let at = order::first_where(candidates, pred, 0);
    if at < candidates.len() {
        assert(pred(candidates[at]));
    }
    if k < candidates.len() {
        assert(pred(candidates[k]));
    }
}

/// A command asks for what it names: a query for its text and limit, a rehydration
/// for the whole workspace with nothing excluded.
pub proof fn commands_ask_for_what_they_name(
    command: ProbeCommandView,
    workspace: WorkspaceStateView,
)
    ensures
        match command {
            ProbeCommandView::Ping => request_of(command, workspace) is Ping,
            ProbeCommandView::Freeze => request_of(command, workspace) is Freeze,
            ProbeCommandView::Query { text, limit } => request_of(command, workspace) matches
                IpcRequestView::Query { text: asked, limit: most } && asked == text && most
                == limit,
            ProbeCommandView::Rehydrate { workspace_id: _ } => request_of(
                command,
                workspace,
            ) matches IpcRequestView::Rehydrate { payload } && payload.workspace == workspace
                && payload.excluded_node_ids.len() == 0,
        },
{
}

/// A request goes on while it has only started, progresses or reports a window;
/// any other response is its last.
pub proof fn requests_end_with_their_answer(response: IpcResponseView)
    ensures
        response is Pong || response is QueryResults || response is RehydratePreview
            || response is PermissionStatus || response is Done || response is Error
            <==> ends_request(response),
{
}

/// No two kinds of response are called the same on the wire.
#[verifier::rlimit(40)]
pub proof fn wire_types_name_one_kind(a: IpcResponseView, b: IpcResponseView)
    requires
        wire_type(a) == wire_type(b),
    ensures
        a is Pong <==> b is Pong,
        a is FreezeStarted <==> b is FreezeStarted,
        a is QueryResults <==> b is QueryResults,
        a is RehydrateStarted <==> b is RehydrateStarted,
        a is RehydratePreview <==> b is RehydratePreview,
        a is Progress <==> b is Progress,
        a is NodeResult <==> b is NodeResult,
        a is PermissionStatus <==> b is PermissionStatus,
        a is Done <==> b is Done,
        a is Error <==> b is Error,
{
    reveal_strlit("pong");
    reveal_strlit("freeze-started");
    reveal_strlit("query-results");
    reveal_strlit("rehydrate-started");
    reveal_strlit("rehydrate-preview");
    reveal_strlit("progress");
    reveal_strlit("node-result");
    reveal_strlit("permission-status");
    reveal_strlit("done");
    reveal_strlit("error");
    let (x, y) = (wire_type(a), wire_type(b));
    assert(x.len() == y.len());
    assert(x[0] == y[0]);
    assert(x.len() > 10 ==> x[10] == y[10]);
}

/// A stream ends with a response of one of these types, and with no other.
pub proof fn streams_end_with_these_types(kind: Option<Seq<char>>)
    ensures
        kind is None ==> !ends_stream(kind),
        kind matches Some(t) ==> (ends_stream(kind) <==> t == "pong"@ || t == "done"@ || t
            == "error"@ || t == "query-results"@ || t == "permission-status"@ || t
            == "rehydrate-preview"@),
{
    let all = terminal_types();
    assert(all[0] == "pong"@ && all[1] == "done"@ && all[2] == "error"@ && all[3]
        == "query-results"@ && all[4] == "permission-status"@ && all[5] == "rehydrate-preview"@);
}

} // verus!
