//! Guardrails: schemas, retries, exhaustion and the bounded counters.

use cuca_plugins::error::PluginError;
use cuca_plugins::json::Json;
use cuca_plugins::plugins::guardrails::JsonGuardrailPlugin;
use cuca_plugins::string_map::StringMap;
use cuca_plugins::types::MessageContentBlock;

const CITY_SCHEMA: &str = r#"{
    "type": "object",
    "required": ["city"],
    "properties": { "city": { "type": "string" } }
}"#;

fn json(text: &str) -> Json {
    Json::parse(text).expect("valid JSON")
}

fn schema() -> StringMap<Json> {
    StringMap::from_pairs(vec![("get_weather".to_string(), json(CITY_SCHEMA))])
}

fn built(schemas: StringMap<Json>, max_attempts: u32) -> JsonGuardrailPlugin {
    match JsonGuardrailPlugin::with_schemas(schemas, max_attempts) {
        Ok(plugin) => plugin,
        Err(e) => panic!("{e:?}"),
    }
}

#[test]
fn valid_tool_call_passes_through_unchanged() {
    let mut plugin = built(schema(), 3);
    let mut block = MessageContentBlock::ToolCall {
        id: "call-1".to_string(),
        name: "get_weather".to_string(),
        arguments: json(r#"{ "city": "Berlin" }"#),
    };
    plugin.on_stream_chunk(&mut block).unwrap();
    assert!(matches!(
        block,
        MessageContentBlock::ToolCall { ref name, .. } if name == "get_weather"
    ));
}

#[test]
fn invalid_tool_call_replaced_with_retry_result() {
    let mut plugin = built(schema(), 3);
    let mut block = MessageContentBlock::ToolCall {
        id: "call-2".to_string(),
        name: "get_weather".to_string(),
        arguments: json(r#"{ "temp": 1 }"#),
    };
    plugin.on_stream_chunk(&mut block).unwrap();
    let MessageContentBlock::ToolResult {
        tool_call_id,
        output,
    } = block
    else {
        panic!("expected ToolResult");
    };
    assert_eq!(tool_call_id, "call-2");
    assert!(output.contains("schema_validation_failed"));
    // The missing required field should be reported as an issue.
    assert!(output.contains("required") || output.contains("city"));
}

#[test]
fn repeated_injection_exhausts_attempts() {
    let mut plugin = built(schema(), 2);
    // Each iteration re-injects a fresh ToolCall carrying the same id, so the
    // plugin's per-id attempt counter accumulates across them.
    for _ in 0..2 {
        let mut block = MessageContentBlock::ToolCall {
            id: "call-3".to_string(),
            name: "get_weather".to_string(),
            arguments: json(r#"{ "temp": 1 }"#),
        };
        plugin.on_stream_chunk(&mut block).unwrap();
        // Attempts 1 and 2 (<= cap 2) -> retry, not yet exhausted.
        assert!(matches!(
            block,
            MessageContentBlock::ToolResult { ref output, .. }
                if output.contains("schema_validation_failed")
        ));
    }
    // Third injection of the same id (attempt 3 > cap 2) -> exhausted.
    let mut block = MessageContentBlock::ToolCall {
        id: "call-3".to_string(),
        name: "get_weather".to_string(),
        arguments: json(r#"{ "temp": 1 }"#),
    };
    plugin.on_stream_chunk(&mut block).unwrap();
    assert!(matches!(
        block,
        MessageContentBlock::ToolResult { ref output, .. } if output.contains("guardrail_exhausted")
    ));
}

#[test]
fn valid_pass_through_clears_attempt_counter() {
    let mut plugin = built(schema(), 1);
    let mut block = MessageContentBlock::ToolCall {
        id: "call-4".to_string(),
        name: "get_weather".to_string(),
        arguments: json(r#"{ "temp": 1 }"#),
    };
    // First failure: retry, attempt 1.
    plugin.on_stream_chunk(&mut block).unwrap();
    assert!(matches!(
        block,
        MessageContentBlock::ToolResult { ref output, .. }
            if output.contains("schema_validation_failed")
    ));
    // Now a valid call with the same id passes through and clears the counter.
    block = MessageContentBlock::ToolCall {
        id: "call-4".to_string(),
        name: "get_weather".to_string(),
        arguments: json(r#"{ "city": "Berlin" }"#),
    };
    plugin.on_stream_chunk(&mut block).unwrap();
    assert!(matches!(
        block,
        MessageContentBlock::ToolCall { ref name, .. } if name == "get_weather"
    ));
    // A later failure with the same id starts back at attempt 1, so with
    // max_attempts = 1 it is again a retry, not exhausted.
    block = MessageContentBlock::ToolCall {
        id: "call-4".to_string(),
        name: "get_weather".to_string(),
        arguments: json(r#"{ "temp": 1 }"#),
    };
    plugin.on_stream_chunk(&mut block).unwrap();
    assert!(matches!(
        block,
        MessageContentBlock::ToolResult { ref output, .. }
            if output.contains("schema_validation_failed")
    ));
}

#[test]
fn attempt_counters_stop_growing_at_the_tracked_call_cap() {
    let mut plugin = built(schema(), 3);
    // One first-failure per distinct id, one past the cap.
    for i in 0..=JsonGuardrailPlugin::MAX_TRACKED_CALLS {
        let mut block = MessageContentBlock::ToolCall {
            id: format!("call-{i}"),
            name: "get_weather".to_string(),
            arguments: json(r#"{ "temp": 1 }"#),
        };
        plugin.on_stream_chunk(&mut block).unwrap();
    }
    assert_eq!(
        plugin.tracked_calls(),
        JsonGuardrailPlugin::MAX_TRACKED_CALLS,
        "the counter map is capped, not unbounded"
    );
}

#[test]
fn evicted_tool_call_id_starts_back_at_the_first_attempt() {
    let mut plugin = built(schema(), 1);
    let invalid = |id: String| MessageContentBlock::ToolCall {
        id,
        name: "get_weather".to_string(),
        arguments: json(r#"{ "temp": 1 }"#),
    };
    // `call-0` is the oldest tracked id, so filling the map past the cap
    // evicts exactly it.
    for i in 0..=JsonGuardrailPlugin::MAX_TRACKED_CALLS {
        let mut block = invalid(format!("call-{i}"));
        plugin.on_stream_chunk(&mut block).unwrap();
    }
    let mut block = invalid("call-0".to_string());
    plugin.on_stream_chunk(&mut block).unwrap();
    assert!(
        matches!(
            &block,
            MessageContentBlock::ToolResult { output, .. }
                if output.contains("schema_validation_failed")
        ),
        "an evicted id retries from attempt 1 instead of reporting exhaustion: {block:?}"
    );
}

#[test]
fn last_retry_event_tracks_retry_and_exhaustion() {
    let mut plugin = built(schema(), 1);
    // First failure: retry, attempt 1.
    let mut block = MessageContentBlock::ToolCall {
        id: "call-5".to_string(),
        name: "get_weather".to_string(),
        arguments: json(r#"{ "temp": 1 }"#),
    };
    plugin.on_stream_chunk(&mut block).unwrap();
    assert_eq!(
        plugin.last_retry_event(),
        Some((
            "get_weather".to_string(),
            "schema_validation_failed".to_string(),
            1
        ))
    );
    // Second injection of the same id exceeds cap 1 -> exhausted, attempt 2.
    let mut block = MessageContentBlock::ToolCall {
        id: "call-5".to_string(),
        name: "get_weather".to_string(),
        arguments: json(r#"{ "temp": 1 }"#),
    };
    plugin.on_stream_chunk(&mut block).unwrap();
    assert_eq!(
        plugin.last_retry_event(),
        Some((
            "get_weather".to_string(),
            "guardrail_exhausted".to_string(),
            2
        ))
    );
}

#[test]
fn validate_returns_expected_results() {
    let mut plugin = built(schema(), 3);
    // Valid input.
    assert_eq!(
        plugin.validate("get_weather", &json(r#"{ "city": "Berlin" }"#)),
        Ok(())
    );
    // Invalid input yields issue strings.
    match plugin.validate("get_weather", &json(r#"{ "temp": 1 }"#)) {
        Err(issues) => {
            assert!(!issues.is_empty());
            assert!(issues.iter().any(|i| i.contains("city")));
        }
        Ok(()) => panic!("expected validation error"),
    }
    // Unknown schema name passes through.
    assert_eq!(
        plugin.validate("no_such_tool", &json(r#"{ "temp": 1 }"#)),
        Ok(())
    );
}

#[test]
fn response_text_guardrail_reinjects_invalid_json() {
    let mut schemas = schema();
    schemas.insert(
        "response".to_string(),
        json(CITY_SCHEMA),
    );
    let mut plugin = built(schemas, 3);

    // Object-looking JSON that fails the response schema -> re-injected error text.
    let mut block = MessageContentBlock::Text("{\"temp\": 1}".to_string());
    plugin.on_stream_chunk(&mut block).unwrap();
    let MessageContentBlock::Text(text) = block else {
        panic!("expected Text");
    };
    assert!(text.contains("schema_validation_failed"));
    assert!(text.contains("city"));

    // Valid object text passes through unchanged.
    let mut block = MessageContentBlock::Text("{\"city\": \"Berlin\"}".to_string());
    plugin.on_stream_chunk(&mut block).unwrap();
    let MessageContentBlock::Text(text) = block else {
        panic!("expected Text");
    };
    assert_eq!(text, "{\"city\": \"Berlin\"}");
}

#[test]
fn name_is_stable_and_type_is_send_sync() {
    let mut plugin = built(schema(), 3);
    assert_eq!(plugin.name(), "json-guardrails");

    fn assert_send_sync<T: Send + Sync>() {}
    assert_send_sync::<JsonGuardrailPlugin>();
}

#[test]
fn new_file_loaded_path_has_bounded_retries() {
    let document = r#"{
        "get_weather": {
            "type": "object",
            "required": ["city"],
            "properties": { "city": { "type": "string" } }
        }
    }"#;
    let mut plugin = match JsonGuardrailPlugin::from_document("schemas.json", document) {
        Ok(plugin) => plugin,
        Err(e) => panic!("{e:?}"),
    };

    // Attempts 1-3 (<= default cap 3) -> retry, not exhausted.
    for _ in 0..3 {
        let mut block = MessageContentBlock::ToolCall {
            id: "call-file".to_string(),
            name: "get_weather".to_string(),
            arguments: json(r#"{ "temp": 1 }"#),
        };
        plugin.on_stream_chunk(&mut block).unwrap();
        assert!(matches!(
            block,
            MessageContentBlock::ToolResult { ref output, .. }
                if output.contains("schema_validation_failed")
        ));
    }
    // 4th injection of the same id (attempt 4 > cap 3) -> exhausted.
    let mut block = MessageContentBlock::ToolCall {
        id: "call-file".to_string(),
        name: "get_weather".to_string(),
        arguments: json(r#"{ "temp": 1 }"#),
    };
    plugin.on_stream_chunk(&mut block).unwrap();
    assert!(matches!(
        block,
        MessageContentBlock::ToolResult { ref output, .. } if output.contains("guardrail_exhausted")
    ));
}

#[test]
fn issues_are_those_of_the_schema_library() {
    let plugin = built(schema(), 3);
    let value: serde_json::Value = serde_json::from_str(r#"{ "city": 3 }"#).unwrap();
    let schema: serde_json::Value = serde_json::from_str(CITY_SCHEMA).unwrap();
    let expected: Vec<String> = jsonschema::validator_for(&schema)
        .unwrap()
        .iter_errors(&value)
        .map(|e| e.to_string())
        .collect();
    assert_eq!(plugin.validate("get_weather", &json(r#"{ "city": 3 }"#)), Err(expected));
}

#[test]
fn a_schema_that_does_not_compile_is_refused() {
    let schemas = StringMap::from_pairs(vec![("t".to_string(), json(r#"{ "type": "nonsense" }"#))]);
    assert!(matches!(
        JsonGuardrailPlugin::with_schemas(schemas, 3),
        Err(PluginError::Validation { schema, .. }) if schema == "t"
    ));
}

#[test]
fn a_document_that_is_no_object_is_refused() {
    assert!(matches!(
        JsonGuardrailPlugin::from_document("schemas.json", "[1, 2]"),
        Err(PluginError::Validation { schema, .. }) if schema == "schemas.json"
    ));
}

#[test]
fn texts_that_are_no_objects_pass() {
    let mut plugin = built(
        StringMap::from_pairs(vec![("response".to_string(), json(CITY_SCHEMA))]),
        3,
    );
    for text in ["hello", "[1]", "{ not json", ""] {
        let mut block = MessageContentBlock::Text(text.to_string());
        plugin.on_stream_chunk(&mut block).unwrap();
        assert_eq!(block, MessageContentBlock::Text(text.to_string()));
    }
}
