//! Approvals: classification, rulings and the audit log.

use cuca_plugins::error::PluginError;
use cuca_plugins::json::Json;
use cuca_plugins::plugins::hitl::{
    classify_action, classify_tool_call, ApprovalChannel, ApprovalDecision, ApprovalRequest,
    HitlPlugin, Risk,
};
use cuca_plugins::types::MessageContentBlock;
use std::sync::Arc;

/// Channel that approves every request.
#[derive(Clone, Copy)]
struct AutoApprove;

impl ApprovalChannel for AutoApprove {
    fn request_approval(&self, _req: &ApprovalRequest) -> ApprovalDecision {
        ApprovalDecision::Approved
    }
}

/// Channel that denies every request.
#[derive(Clone, Copy)]
struct AutoDeny;

impl ApprovalChannel for AutoDeny {
    fn request_approval(&self, _req: &ApprovalRequest) -> ApprovalDecision {
        ApprovalDecision::Denied
    }
}

/// Channel that panics if ever consulted.
struct PanicChannel;

impl ApprovalChannel for PanicChannel {
    fn request_approval(&self, _req: &ApprovalRequest) -> ApprovalDecision {
        panic!("low-risk tool must not reach the approval channel")
    }
}

/// Channel that names its approver.
struct NamedApprover;

impl ApprovalChannel for NamedApprover {
    fn request_approval(&self, req: &ApprovalRequest) -> ApprovalDecision {
        assert_eq!(req.action, "file_write");
        ApprovalDecision::Approved
    }

    fn approver_id(&self) -> Option<String> {
        Some("ada".to_string())
    }
}

fn on_stream_chunk(
    plugin: &mut HitlPlugin,
    chunk: &mut MessageContentBlock,
) -> Result<(), PluginError> {
    match HitlPlugin::review(chunk) {
        None => Ok(()),
        Some(request) => {
            let (decision, approver) = plugin.ask(&request);
            plugin.rule(chunk, &request, decision, approver, 1_700_000_000_000)
        }
    }
}

fn call(id: &str, name: &str, arguments: &str) -> MessageContentBlock {
    MessageContentBlock::ToolCall {
        id: id.into(),
        name: name.into(),
        arguments: Json::parse(arguments).unwrap(),
    }
}

#[test]
fn classify_table() {
    for high in [
        "shell",
        "exec",
        "bash",
        "run_command",
        "terminal",
        "write_file",
        "edit_file",
        "delete_file",
        "create_file",
        "http_post",
        "api_write",
    ] {
        assert_eq!(classify_tool_call(high), Risk::High, "{high}");
    }
    for low in ["read_file", "search", "web_search", "get_weather"] {
        assert_eq!(classify_tool_call(low), Risk::Low, "{low}");
    }
    assert!(Risk::High.reason().is_some());
    assert!(Risk::Low.reason().is_none());
}

#[test]
fn high_risk_approved_passes_through() {
    let mut plugin = HitlPlugin::new(Arc::new(AutoApprove));
    let mut chunk = call("call_1", "run_command", r#"{ "cmd": "ls -la" }"#);
    on_stream_chunk(&mut plugin, &mut chunk).unwrap();
    assert!(
        matches!(&chunk, MessageContentBlock::ToolCall { name, .. } if name == "run_command"),
        "approved call must pass through unchanged: {chunk:?}"
    );
    let audit = plugin.audit_log();
    assert_eq!(audit.len(), 1);
    assert_eq!(audit[0].status, "approved");
    assert_eq!(audit[0].action_requested, "shell_exec");
}

#[test]
fn high_risk_denied_becomes_tool_result() {
    let mut plugin = HitlPlugin::new(Arc::new(AutoDeny));
    let mut chunk = call("call_2", "write_file", r#"{ "path": "/tmp/x" }"#);
    on_stream_chunk(&mut plugin, &mut chunk).unwrap();
    match &chunk {
        MessageContentBlock::ToolResult { tool_call_id, output } => {
            assert_eq!(tool_call_id, "call_2");
            assert!(output.contains("denied"), "output: {output}");
        }
        other => panic!("expected ToolResult, got {other:?}"),
    }
    let audit = plugin.audit_log();
    assert_eq!(audit.len(), 1);
    assert_eq!(audit[0].status, "denied");
    assert_eq!(audit[0].action_requested, "file_write");
}

#[test]
fn low_risk_never_hits_channel() {
    let mut plugin = HitlPlugin::new(Arc::new(PanicChannel));
    let mut chunk = call("call_3", "get_weather", r#"{ "city": "Berlin" }"#);
    on_stream_chunk(&mut plugin, &mut chunk).unwrap();
    assert!(
        matches!(&chunk, MessageContentBlock::ToolCall { name, .. } if name == "get_weather"),
        "low-risk call must pass through untouched: {chunk:?}"
    );
    assert!(plugin.audit_log().is_empty(), "low-risk calls are not audited");
}

#[test]
fn hitl_name_and_send_sync() {
    fn assert_send_sync<T: Send + Sync>() {}
    assert_send_sync::<HitlPlugin>();
    let plugin = HitlPlugin::new(Arc::new(AutoApprove));
    assert_eq!(plugin.name(), "hitl-approvals");
}

#[test]
fn audit_log_cap_of_zero_is_rejected() {
    assert!(
        matches!(
            HitlPlugin::with_max_audit_entries(Arc::new(AutoApprove), 0),
            Err(PluginError::Validation { schema, .. }) if schema == "max_audit_entries"
        ),
        "a zero audit cap must be refused"
    );
}

#[test]
fn gated_call_past_the_audit_cap_fails_instead_of_dropping_the_ruling() {
    let mut plugin = match HitlPlugin::with_max_audit_entries(Arc::new(AutoApprove), 1) {
        Ok(plugin) => plugin,
        Err(e) => panic!("a non-zero cap is valid: {e:?}"),
    };
    let mut first = call("call_1", "shell_exec", "{}");
    on_stream_chunk(&mut plugin, &mut first).expect("the first ruling fits the cap");
    assert_eq!(plugin.audit_len(), 1);

    let mut second = call("call_1", "shell_exec", "{}");
    let err = on_stream_chunk(&mut plugin, &mut second)
        .expect_err("a ruling that cannot be audited must fail the block");
    assert!(
        matches!(&err, PluginError::Internal(message) if message.contains("audit log full")),
        "err: {err:?}"
    );
    assert_eq!(
        plugin.audit_len(),
        1,
        "the cap holds: no ruling is silently dropped to make room"
    );
}

#[test]
fn rulings_carry_approver_and_time() {
    let mut plugin = HitlPlugin::new(Arc::new(NamedApprover));
    assert_eq!(plugin.max_audit_entries(), HitlPlugin::DEFAULT_MAX_AUDIT_ENTRIES);
    let mut chunk = call("c", "create_file", "{}");
    on_stream_chunk(&mut plugin, &mut chunk).unwrap();
    let audit = plugin.audit_log();
    assert_eq!(audit[0].approver_id, Some("ada".to_string()));
    assert_eq!(audit[0].timestamp_ms, 1_700_000_000_000);
}

#[test]
fn risk_is_high_exactly_where_there_is_an_action() {
    for name in ["exec", "edit_file", "http_post", "read_file", "", "SHELL"] {
        assert_eq!(
            classify_tool_call(name) == Risk::High,
            classify_action(name).is_some(),
            "{name}"
        );
    }
}

#[test]
fn blocks_that_are_no_calls_are_not_reviewed() {
    assert!(HitlPlugin::review(&MessageContentBlock::Text("shell".into())).is_none());
}

#[test]
fn requests_describe_the_call() {
    let request = HitlPlugin::review(&call("c9", "run_command", r#"{ "cmd": "ls" }"#)).unwrap();
    assert_eq!(request.tool_call_id, "c9");
    assert_eq!(request.action, "shell_exec");
    assert!(request.detail.contains("run_command"), "{}", request.detail);
    assert!(request.detail.contains(r#"{"cmd":"ls"}"#), "{}", request.detail);
}

#[test]
fn each_name_has_its_action() {
    for (name, action) in [
        ("bash", "shell_exec"),
        ("exec_delete_file", "shell_exec"),
        ("http_post", "external_api_write"),
        ("http_put", "external_api_write"),
        ("http_delete", "external_api_write"),
        ("api_write", "external_api_write"),
        ("API_Write", "external_api_write"),
        ("write_file", "file_write"),
        ("edit_file", "file_write"),
        ("delete_file", "file_write"),
        ("create_file", "file_write"),
        ("remove_dir", "file_write"),
        ("rm_rf", "file_write"),
        ("mv_tree", "file_write"),
        ("output_write", "file_write"),
        ("input_edit", "file_write"),
        ("delete_record", "file_write"),
        ("post_message", "external_api_write"),
        ("put_object", "external_api_write"),
    ] {
        assert_eq!(classify_action(name), Some(action), "{name}");
    }
    assert_eq!(classify_action("read_file"), None);
}
