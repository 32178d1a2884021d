//! Probe commands and terminal responses.

use temporal::probe::{
    fetch_workspace, is_terminal, is_terminal_json, is_terminal_type, lookup_request,
    rehydrate_request, response_type, simple_request, wanted_workspace, ProbeCommand,
};
use temporal::types::{
    CandidateKind, IpcRequest, IpcResponse, QueryCandidate, RehydrationPayload, WorkspaceState,
};

fn workspace(id: &str) -> WorkspaceState {
    WorkspaceState {
        workspace_id: id.into(),
        captured_at_unix_ms: 0,
        summary: String::new(),
        tags: vec![],
        nodes: vec![],
        groups: vec![],
    }
}

fn candidate(id: &str) -> QueryCandidate {
    QueryCandidate {
        workspace: workspace(id),
        score: 0,
        kind: CandidateKind::default(),
        source_workspace_id: None,
        speculative_node_ids: vec![],
    }
}

#[test]
fn commands_become_requests() {
    assert_eq!(simple_request(&ProbeCommand::Ping), Some(IpcRequest::Ping));
    assert_eq!(simple_request(&ProbeCommand::Freeze), Some(IpcRequest::Freeze));
    assert_eq!(
        simple_request(&ProbeCommand::Query { text: "t".into(), limit: 5 }),
        Some(IpcRequest::Query { text: "t".into(), limit: 5 })
    );
    let rehydrate = ProbeCommand::Rehydrate { workspace_id: "ws-1".into() };
    assert_eq!(simple_request(&rehydrate), None);
    assert_eq!(wanted_workspace(&rehydrate).as_deref(), Some("ws-1"));
    assert_eq!(wanted_workspace(&ProbeCommand::Ping), None);
    assert_eq!(
        rehydrate_request(workspace("ws-1")),
        IpcRequest::Rehydrate {
            payload: RehydrationPayload {
                workspace: workspace("ws-1"),
                excluded_node_ids: vec![]
            }
        }
    );
}

#[test]
fn lookups_go_through_recent_workspaces() {
    assert_eq!(lookup_request(), IpcRequest::Query { text: String::new(), limit: 100 });
    let listed = vec![candidate("a"), candidate("b")];
    assert_eq!(fetch_workspace(&listed, "b"), Ok(workspace("b")));
    assert_eq!(fetch_workspace(&listed, "c"), Err("no stored workspace with id c".into()));
}

#[test]
fn progress_does_not_end_a_request() {
    let message = || "m".to_string();
    for response in [
        IpcResponse::FreezeStarted { workspace_id: message() },
        IpcResponse::RehydrateStarted,
        IpcResponse::Progress { stage: message(), detail: message(), percent: 1 },
        IpcResponse::NodeResult {
            node_id: message(),
            app_name: message(),
            ok: true,
            message: None,
        },
    ] {
        assert!(!is_terminal(&response), "{response:?}");
        assert!(!is_terminal_type(&Some(response_type(&response).into())), "{response:?}");
    }
    for response in [
        IpcResponse::Pong,
        IpcResponse::Done { message: message() },
        IpcResponse::Error { code: message(), message: message() },
        IpcResponse::QueryResults { candidates: vec![] },
        IpcResponse::PermissionStatus { screen_recording: true, accessibility: false },
        IpcResponse::RehydratePreview { nodes: vec![] },
    ] {
        assert!(is_terminal(&response), "{response:?}");
        assert!(is_terminal_type(&Some(response_type(&response).into())), "{response:?}");
    }
}

#[test]
fn encoded_responses_end_streams_by_type() {
    assert!(is_terminal_json("{\"type\":\"pong\"}"));
    assert!(is_terminal_json("{\"type\":\"done\",\"message\":\"m\"}"));
    assert!(is_terminal_json("{\"type\":\"error\"}"));
    assert!(is_terminal_json("{\"type\":\"query-results\",\"candidates\":[]}"));
    assert!(is_terminal_json(
        "{\"type\":\"permission-status\",\"screenRecording\":true,\"accessibility\":true}"
    ));
    assert!(is_terminal_json("{\"type\":\"rehydrate-preview\",\"nodes\":[]}"));
    assert!(!is_terminal_json("{\"type\":\"progress\"}"));
    assert!(!is_terminal_json("{\"type\":1}"));
    assert!(!is_terminal_json("pong"));
    assert!(!is_terminal_type(&None));
    assert!(is_terminal_type(&Some("done".into())));
}
