//! The connector for tool servers: transports, routing, arguments and replies.

use cuca_plugins::error::PluginError;
use cuca_plugins::json::{Json, Number};
use cuca_plugins::plugins::mcp::{
    call_arguments, conclude_call, json_kind, render_tool_result, LinkFault, McpPlugin, McpTool,
    McpTransport, ToolContent, ToolReply, ToolResult,
};
use cuca_plugins::types::MessageContentBlock;

fn tool(name: &str, description: &str) -> McpTool {
    McpTool {
        name: name.to_owned(),
        description: Some(description.to_owned()),
        input_schema: Json::object(vec![]),
        title: None,
        output_schema: None,
        annotations: None,
        icons: None,
        meta: None,
    }
}

fn plugin() -> McpPlugin {
    McpPlugin::new(vec![
        tool("search", "Full-text search over documents"),
        tool("get_weather", "Current weather for a city"),
    ])
}

fn text_result(text: &str) -> ToolResult {
    ToolResult {
        content: vec![ToolContent::Text(text.to_owned())],
        structured_content: None,
        is_error: None,
    }
}

fn call(id: &str, name: &str, arguments: &str) -> MessageContentBlock {
    MessageContentBlock::ToolCall {
        id: id.to_owned(),
        name: name.to_owned(),
        arguments: Json::parse(arguments).unwrap(),
    }
}

#[test]
fn stdio_constructor_builds_command_and_empty_args() {
    let transport = McpTransport::stdio("github-mcp-server".to_owned());
    match transport {
        McpTransport::Stdio { command, args } => {
            assert_eq!(command, "github-mcp-server");
            assert!(args.is_empty(), "stdio must default to empty args");
        }
        other => panic!("expected Stdio, got {other:?}"),
    }
}

#[test]
fn plugin_and_transport_are_send_and_sync() {
    fn assert_send_sync<T: Send + Sync>() {}
    assert_send_sync::<McpPlugin>();
    assert_send_sync::<McpTransport>();
}

#[test]
fn connect_discovers_tools() {
    let plugin = plugin();
    let tools = plugin.tools();
    assert_eq!(tools.len(), 2);
    let names: Vec<&str> = tools.iter().map(|tool| tool.name.as_ref()).collect();
    assert_eq!(names, ["get_weather", "search"]);
    assert_eq!(plugin.name(), "mcp-connector");
}

#[test]
fn stream_chunk_routes_known_tool_and_passes_unknown() {
    let plugin = plugin();
    let mut chunk = call("call_1", "get_weather", r#"{ "city": "Berlin" }"#);
    let routed = plugin.route(&chunk).expect("a known tool");
    assert_eq!(routed.name, "get_weather");
    assert_eq!(call_arguments(&routed.arguments), Ok(true));
    let reply = ToolReply::Complete(text_result("weather report for Berlin: sunny, 22C"));
    McpPlugin::deliver(&mut chunk, &routed, &conclude_call(&routed.name, &reply));
    match chunk {
        MessageContentBlock::ToolResult { tool_call_id, output } => {
            assert_eq!(tool_call_id, "call_1");
            assert!(
                output.contains("weather report for Berlin"),
                "unexpected output: {output}"
            );
        }
        other => panic!("expected ToolResult, got {other:?}"),
    }

    let foreign = call("call_2", "not_a_mcp_tool", r#"{ "q": 1 }"#);
    assert!(plugin.route(&foreign).is_none());
}

#[test]
fn input_required_result_surfaces_not_supported() {
    match conclude_call("get_weather", &ToolReply::InputRequired(1)) {
        Err(PluginError::NotSupported(message)) => {
            assert!(
                message.contains("input_required"),
                "message must name the result type: {message}"
            );
            assert!(
                message.contains("1 input request(s)"),
                "message must report the input request count: {message}"
            );
        }
        Err(other) => panic!("expected NotSupported, got {other:?}"),
        Ok(output) => {
            panic!("expected NotSupported, got a fabricated complete result: {output:?}");
        }
    }
}

#[test]
fn websocket_transport_reports_not_supported() {
    let transport = McpTransport::WebSocket { url: "ws://localhost:9999".to_owned() };
    assert_eq!(
        transport.check(),
        Err(PluginError::NotSupported(
            "WebSocket MCP transport is not implemented by rmcp 3.x; use Stdio or StreamableHttp \
             (requested \"ws://localhost:9999\")"
                .to_owned()
        ))
    );
    assert_eq!(McpTransport::stdio("x".to_owned()).check(), Ok(()));
    assert_eq!(McpTransport::StreamableHttp { url: "u".to_owned() }.check(), Ok(()));
}

#[test]
fn a_later_tool_of_one_name_wins() {
    let plugin = McpPlugin::new(vec![tool("a", "first"), tool("b", "other"), tool("a", "second")]);
    let tools = plugin.tools();
    assert_eq!(tools.len(), 2);
    assert_eq!(tools[0].description, Some("second".to_owned()));
    assert!(plugin.knows("b"));
    assert!(!plugin.knows("c"));
}

#[test]
fn arguments_must_be_an_object_or_null() {
    assert_eq!(call_arguments(&Json::object(vec![])), Ok(true));
    assert_eq!(call_arguments(&Json::Null), Ok(false));
    assert_eq!(
        call_arguments(&Json::Array(vec![])),
        Err(PluginError::Validation {
            schema: "tools/call arguments".to_owned(),
            message: "tool arguments must be a JSON object, got array".to_owned(),
        })
    );
    assert_eq!(json_kind(&Json::Bool(true)), "boolean");
    assert_eq!(json_kind(&Json::Number(Number::from_u64(1))), "number");
    assert_eq!(json_kind(&Json::String(String::new())), "string");
    assert_eq!(json_kind(&Json::Null), "null");
    assert_eq!(json_kind(&Json::object(vec![])), "object");
}

#[test]
fn results_render_piece_by_piece() {
    let result = ToolResult {
        content: vec![
            ToolContent::Text("one".to_owned()),
            ToolContent::Image { mime_type: "image/png".to_owned(), base64_len: 8 },
            ToolContent::Audio { mime_type: "audio/wav".to_owned(), base64_len: 12 },
            ToolContent::Resource,
            ToolContent::ResourceLink,
            ToolContent::Other,
        ],
        structured_content: Some(Json::Null),
        is_error: Some(false),
    };
    assert_eq!(
        render_tool_result(&result),
        "one\n[image: image/png (8 base64 chars)]\n[audio: audio/wav (12 base64 chars)]\n\
         [resource content]\n[resource link]\n[content block]"
    );
}

#[test]
fn structured_content_stands_in_for_missing_pieces() {
    let result = ToolResult {
        content: vec![],
        structured_content: Json::parse(r#"{ "b": 1, "a": "x" }"#),
        is_error: Some(true),
    };
    assert_eq!(render_tool_result(&result), r#"tool error: {"a":"x","b":1}"#);
    let empty = ToolResult { content: vec![], structured_content: None, is_error: None };
    assert_eq!(render_tool_result(&empty), "");
}

#[test]
fn replies_that_are_no_result_are_errors() {
    assert_eq!(
        conclude_call("t", &ToolReply::Task),
        Err(PluginError::NotSupported(
            "tool \"t\" returned a task (MCP SEP-2663 resultType \"task\") which the mcp-connector \
             does not poll"
                .to_owned()
        ))
    );
    assert_eq!(
        conclude_call("t", &ToolReply::Unrecognized),
        Err(PluginError::Internal("mcp tool call returned an unrecognized response".to_owned()))
    );
    assert_eq!(
        conclude_call("t", &ToolReply::Failed("gone".to_owned())),
        Err(PluginError::Internal("mcp tool call failed: gone".to_owned()))
    );
}

#[test]
fn a_failed_call_is_answered_with_its_error() {
    let plugin = plugin();
    let mut chunk = call("c", "search", "[]");
    let routed = plugin.route(&chunk).unwrap();
    let outcome = call_arguments(&routed.arguments).map(|_| String::new());
    McpPlugin::deliver(&mut chunk, &routed, &outcome);
    match chunk {
        MessageContentBlock::ToolResult { output, .. } => {
            assert!(output.contains("tool arguments must be a JSON object, got array"), "{output}");
        }
        other => panic!("expected ToolResult, got {other:?}"),
    }
}

#[test]
fn faults_on_the_way_have_their_errors() {
    let internal = |text: &str| PluginError::Internal(text.to_owned());
    let io = |text: &str| PluginError::Io(text.to_owned());
    let x = || "x".to_owned();
    assert_eq!(LinkFault::Process(x()).into_error(), io("x"));
    assert_eq!(LinkFault::Thread(x()).into_error(), io("failed to spawn mcp worker thread: x"));
    assert_eq!(LinkFault::Runtime(x()).into_error(), internal("failed to build worker runtime: x"));
    assert_eq!(LinkFault::Discovery(x()).into_error(), internal("mcp discovery failed: x"));
    assert_eq!(LinkFault::ToolList(x()).into_error(), internal("mcp tools/list failed: x"));
    assert_eq!(
        LinkFault::SetupCutShort.into_error(),
        internal("mcp worker thread exited before completing the connection setup")
    );
    assert_eq!(LinkFault::Ended.into_error(), internal("mcp worker task exited"));
    assert_eq!(
        LinkFault::ReplyDropped.into_error(),
        internal("mcp worker dropped the reply channel")
    );
    assert_eq!(LinkFault::WaitFailed.into_error(), internal("mcp reply wait task failed"));
}

#[test]
fn tools_are_listed_with_all_that_the_server_says() {
    let mut full = tool("full", "everything");
    full.title = Some("Full".to_owned());
    full.output_schema = Some(Json::parse(r#"{"type":"object"}"#).unwrap());
    full.annotations = Some(Json::parse(r#"{"readOnlyHint":true}"#).unwrap());
    full.icons = Some(Json::parse(r#"[{"src":"icon.png"}]"#).unwrap());
    full.meta = Some(Json::parse(r#"{"k":1}"#).unwrap());
    let plugin = McpPlugin::new(vec![full.clone(), tool("bare", "little")]);
    assert_eq!(plugin.tools(), vec![tool("bare", "little"), full]);
}
