//! The context memory: tokens, budgets, strategies, warnings, observers and graph context.

use cuca_plugins::error::PluginError;
use cuca_plugins::float::{Double, Single};
use cuca_plugins::json::Json;
use cuca_plugins::plugins::memory::compaction::{clamp_oversized, pairing_close, CLAMP_MARKER};
use cuca_plugins::plugins::memory::graph::{
    GraphNode, GraphRelationship, GraphSnapshot, MemoryGraph, MergePolicy, GRAPH_RENDER_MARKER,
};
use cuca_plugins::plugins::memory::{
    choose_window, joined_text, Budget, CompactionStrategy, CompressionAction, ContextUsage,
    ContextUsageObserver, ContextWindowResolver, GraphContextConfig, GraphImportReport,
    MemoryConfig, MemoryPlugin, Summarizer, VectorStore, WindowGauge, WindowReading, SESSION_HINT,
    WARNING_MARKER,
};
use cuca_plugins::request::UnifiedRequest;
use cuca_plugins::string_map::StringMap;
use cuca_plugins::tokenize::{count_tokens, load_encoder};
use cuca_plugins::types::{MessageContentBlock, MessageRole, UnifiedMessage};
use std::sync::{Arc, Mutex};

fn single(value: f32) -> Single {
    Single {
        bits: value.to_bits(),
        text: value.to_string(),
        json_text: serde_json::Value::from(f64::from(value)).to_string(),
    }
}

fn json(text: &str) -> Json {
    Json::parse(text).expect("valid JSON")
}

fn on_request(plugin: &MemoryPlugin, req: &mut UnifiedRequest) -> Result<(), PluginError> {
    plugin.on_request(req, |usage: &ContextUsage| {
        let (max_fraction, warn_fraction) = plugin.fractions();
        let reached = usage.used_tokens as f32 / usage.window_tokens as f32;
        WindowReading {
            gauge: WindowGauge {
                near_limit: warn_fraction
                    .as_ref()
                    .is_some_and(|f| reached >= f32::from_bits(f.bits)),
                percent: format!("{:.0}", reached * 100.0),
            },
            fraction_tokens: max_fraction
                .as_ref()
                .map_or(0, |f| (usage.window_tokens as f32 * f32::from_bits(f.bits)) as u32),
        }
    })
}

/// Fake vector store that records everything handed to it.
struct FakeStore(Mutex<Vec<UnifiedMessage>>);

impl VectorStore for FakeStore {
    fn store_turns(
        &self,
        session_hint: &str,
        turns: &[UnifiedMessage],
    ) -> Result<(), PluginError> {
        assert_eq!(session_hint, SESSION_HINT);
        self.0.lock().unwrap().extend(turns.iter().cloned());
        Ok(())
    }
}

/// Fake vector store whose `store_turns` always fails (fallback testing).
struct FailingStore;

impl VectorStore for FailingStore {
    fn store_turns(
        &self,
        _session_hint: &str,
        _turns: &[UnifiedMessage],
    ) -> Result<(), PluginError> {
        Err(PluginError::Internal("store failure".to_string()))
    }
}

/// Fake summarizer that always emits a fixed marker string.
struct FakeSummarizer;

impl Summarizer for FakeSummarizer {
    fn summarize(&self, _turns: &[UnifiedMessage]) -> String {
        "SUMMARY".to_string()
    }
}

/// Fake observer that records every usage reading.
struct FakeObserver(Mutex<Vec<ContextUsage>>);

impl ContextUsageObserver for FakeObserver {
    fn observe(&self, usage: &ContextUsage) -> Result<(), PluginError> {
        self.0.lock().unwrap().push(*usage);
        Ok(())
    }
}

/// Fake resolver with a hit for one model name.
struct FakeResolver;

impl ContextWindowResolver for FakeResolver {
    fn resolve_window(&self, model: &str) -> Option<u32> {
        if model == "big-model" {
            Some(1_000_000)
        } else {
            None
        }
    }
}

/// Fake resolver with a fixed tiny window for every model.
struct TinyResolver;

impl ContextWindowResolver for TinyResolver {
    fn resolve_window(&self, _model: &str) -> Option<u32> {
        Some(100)
    }
}

/// Assistant message whose content is a single tool call.
fn assistant_with_call(id: &str, name: &str, arguments: Json) -> UnifiedMessage {
    UnifiedMessage {
        role: MessageRole::Assistant,
        content: vec![MessageContentBlock::ToolCall {
            id: id.to_string(),
            name: name.to_string(),
            arguments,
        }],
        name: None,
        tool_call_id: None,
    }
}

/// Tool-role message carrying a tool result (OpenAI wire style).
fn tool_result_message(call_id: &str, output: &str) -> UnifiedMessage {
    UnifiedMessage {
        role: MessageRole::Tool,
        content: vec![MessageContentBlock::Text(output.to_string())],
        name: None,
        tool_call_id: Some(call_id.to_string()),
    }
}

/// User message carrying a tool-result block (Anthropic wire style).
fn user_with_tool_result(call_id: &str, output: &str) -> UnifiedMessage {
    UnifiedMessage {
        role: MessageRole::User,
        content: vec![MessageContentBlock::ToolResult {
            tool_call_id: call_id.to_string(),
            output: output.to_string(),
        }],
        name: None,
        tool_call_id: None,
    }
}

#[test]
fn count_tokens_counts_and_grows() {
    let plugin = MemoryPlugin::new(MemoryConfig::default()).ok().unwrap();
    let short = vec![UnifiedMessage::user("Hello, world".to_string())];
    let n = plugin.count_tokens(&short).unwrap();
    assert!(
        n > 0,
        "a non-empty message must count more than zero tokens"
    );

    let longer = vec![UnifiedMessage::user("Hello, world. This is a considerably longer piece of text that should push the \
         token count well above the short message.".to_string())];
    assert!(
        plugin.count_tokens(&longer).unwrap() > n,
        "adding text must grow the token count"
    );

    // Deterministic for identical input.
    assert_eq!(plugin.count_tokens(&short).unwrap(), n);
}

#[test]
fn on_request_compresses_above_threshold_and_untouched_below() {
    let hot = MemoryPlugin::new(MemoryConfig {
        context_window_tokens: 100,
        max_fraction: Some(single(0.8)),
        ..Default::default()
    })
    .ok()
    .unwrap();
    let mut req = UnifiedRequest::new("gpt-4o".to_string());
    req.messages
        .push(UnifiedMessage::system("You are a helpful assistant.".to_string()));
    for i in 0..8 {
        req.messages.push(UnifiedMessage::user(format!(
            "Turn number {i}: several full sentences of conversational content that consume \
             tokens and drive the total well past the eighty-token threshold."
        )));
    }
    let before = req.messages.len();
    on_request(&hot, &mut req).unwrap();
    assert!(
        req.messages.len() < before,
        "at/over threshold, on_request must compress the messages"
    );

    // Below threshold: nothing changes.
    let cool = MemoryPlugin::new(MemoryConfig {
        context_window_tokens: 10_000,
        max_fraction: Some(single(0.8)),
        ..Default::default()
    })
    .ok()
    .unwrap();
    let mut req = UnifiedRequest::new("gpt-4o".to_string());
    req.messages.push(UnifiedMessage::user("hi".to_string()));
    let snapshot = req.messages.clone();
    on_request(&cool, &mut req).unwrap();
    assert_eq!(
        req.messages, snapshot,
        "below threshold, messages are untouched"
    );
}

#[test]
fn compress_offloads_oldest_turns_to_store() {
    let store = Arc::new(FakeStore(Mutex::new(Vec::new())));
    let plugin = MemoryPlugin::with_extensions(
        MemoryConfig::default(),
        Arc::new(FakeSummarizer),
        store.clone(),
    )
    .ok()
    .unwrap();
    let mut messages = vec![
        UnifiedMessage::system("system prompt".to_string()),
        UnifiedMessage::user("oldest user turn".to_string()),
        UnifiedMessage::assistant("oldest assistant turn".to_string()),
        UnifiedMessage::user("most recent user".to_string()),
    ];
    let n = messages.len();
    let report = plugin.compress(&mut messages).unwrap();
    assert!(report.actions.contains(&CompressionAction::Offloaded));
    // The two oldest non-system turns (excluding the most recent user) were
    // removed from the live list and recorded by the store.
    assert_eq!(messages.len(), n - 2);
    assert_eq!(messages.last().unwrap().role, MessageRole::User);
    let stored = store.0.lock().unwrap();
    assert_eq!(stored.len(), 2);
    assert_eq!(stored[0].role, MessageRole::User);
    assert_eq!(stored[1].role, MessageRole::Assistant);
}

#[test]
fn compress_summarizes_turn_group_into_one_user_message() {
    // A summarize-only menu isolates the strategy's effect: the summary
    // replaces the turn group and survives the pass.
    let plugin = MemoryPlugin::with_extensions(
        MemoryConfig {
            strategies: vec![CompactionStrategy::Summarize { turns: 10 }],
            ..Default::default()
        },
        Arc::new(FakeSummarizer),
        Arc::new(FailingStore),
    )
    .ok()
    .unwrap();
    let mut messages = vec![
        UnifiedMessage::system("system prompt".to_string()),
        UnifiedMessage::user("oldest user turn".to_string()),
        UnifiedMessage::assistant("oldest assistant turn".to_string()),
        UnifiedMessage::user("most recent user".to_string()),
    ];
    let n = messages.len();
    let report = plugin.compress(&mut messages).unwrap();
    assert!(report.actions.contains(&CompressionAction::Summarized));
    // Two-turn group replaced by a single user message: n - 2 + 1 = n - 1.
    assert_eq!(messages.len(), n - 1);
    let summary_msg = &messages[1];
    assert_eq!(summary_msg.role, MessageRole::User);
    assert_eq!(
        joined_text(summary_msg),
        "SUMMARY",
        "the summary text replaces the turn group"
    );
    assert_eq!(messages.last().unwrap().role, MessageRole::User);
}

#[test]
fn compress_drops_redundant_observations_then_oldest_turns() {
    let plugin = MemoryPlugin::new(MemoryConfig::default()).ok().unwrap();

    // Redundant system messages are dropped; the primary one survives.
    let mut messages = vec![
        UnifiedMessage::system("primary instruction".to_string()),
        UnifiedMessage::system("redundant observation 1".to_string()),
        UnifiedMessage::system("redundant observation 2".to_string()),
        UnifiedMessage::user("latest user".to_string()),
    ];
    let report = plugin.compress(&mut messages).unwrap();
    assert!(
        report
            .actions
            .contains(&CompressionAction::DroppedObservations)
    );
    assert_eq!(
        messages
            .iter()
            .filter(|m| m.role == MessageRole::System)
            .count(),
        1,
        "only the primary system message remains"
    );
    assert_eq!(messages.last().unwrap().role, MessageRole::User);

    // The most recent user message survives every compression pass; the
    // menu converges to a no-op terminal state (system + most recent user).
    let mut messages = vec![
        UnifiedMessage::system("system prompt".to_string()),
        UnifiedMessage::user("old user turn".to_string()),
        UnifiedMessage::assistant("old assistant turn".to_string()),
        UnifiedMessage::user("most recent user".to_string()),
    ];
    let mut passes = 0usize;
    loop {
        let report = plugin.compress(&mut messages).unwrap();
        if report.actions.is_empty() {
            break;
        }
        assert_eq!(messages.last().unwrap().role, MessageRole::User);
        passes += 1;
        assert!(
            passes <= 3,
            "the menu should converge to a no-op pass quickly"
        );
    }
    assert!(passes >= 1, "the drop tail must make at least one pass");
    // Terminal state: only the system prompt and the most recent user.
    assert_eq!(messages.len(), 2);
}

#[test]
fn default_config_validates() {
    let config = MemoryConfig::default();
    assert_eq!(config.max_fraction, Some(single(0.8)));
    assert_eq!(
        config.strategies.len(),
        8,
        "the default menu has 8 strategies"
    );
    // No panic on construction with the default config.
    let _ = MemoryPlugin::new(config).ok().unwrap();
}

#[test]
fn max_tokens_and_max_fraction_conflict_is_rejected() {
    let config = MemoryConfig {
        max_tokens: Some(100),
        max_fraction: Some(single(0.5)),
        ..Default::default()
    };
    let err = MemoryPlugin::new(config)
        .err()
        .expect("conflicting triggers must be rejected at construction");
    assert!(matches!(err, PluginError::Internal(_)));
}

#[test]
fn clear_tool_results_blanks_old_pairs_keeps_last() {
    let plugin = MemoryPlugin::new(MemoryConfig {
        strategies: vec![CompactionStrategy::ClearToolResults { keep_pairs: 2 }],
        ..Default::default()
    })
    .ok()
    .unwrap();
    let mut messages = vec![
        UnifiedMessage::user("old user turn".to_string()),
        user_with_tool_result("c1", "first result"),
        user_with_tool_result("c2", "second result"),
        user_with_tool_result("c3", "third result"),
        UnifiedMessage::user("latest user".to_string()),
    ];
    let report = plugin.compress(&mut messages).unwrap();
    assert!(
        report
            .actions
            .contains(&CompressionAction::ClearedToolResults)
    );
    assert_eq!(messages.len(), 5, "blanking must not remove messages");
    let output_of = |m: &UnifiedMessage| match &m.content[0] {
        MessageContentBlock::ToolResult { output, .. } => output.clone(),
        _ => panic!("expected a ToolResult block"),
    };
    assert_eq!(output_of(&messages[1]), "", "the oldest pair is blanked");
    assert_eq!(output_of(&messages[2]), "second result");
    assert_eq!(output_of(&messages[3]), "third result");
    // Pairing structure (tool_call_id) is intact.
    assert!(matches!(
        messages[1].content[0],
        MessageContentBlock::ToolResult { tool_call_id: ref id, .. } if id == "c1"
    ));
}

#[test]
fn deduplicate_file_reads_blanks_superseded_outputs() {
    let plugin = MemoryPlugin::new(MemoryConfig {
        strategies: vec![CompactionStrategy::DeduplicateFileReads {
            tool_name: "read_file".to_string(),
        }],
        ..Default::default()
    })
    .ok()
    .unwrap();
    let mut messages = vec![
        UnifiedMessage::system("primary instruction".to_string()),
        assistant_with_call("c1", "read_file", json(r#"{ "path": "/etc/hosts" }"#)),
        tool_result_message("c1", "first read content"),
        assistant_with_call("c2", "read_file", json(r#"{ "path": "/etc/hosts" }"#)),
        tool_result_message("c2", "fresh read content"),
        assistant_with_call("c3", "read_file", json(r#"{ "path": "/etc/passwd" }"#)),
        tool_result_message("c3", "passwd content"),
        UnifiedMessage::user("latest user".to_string()),
    ];
    let report = plugin.compress(&mut messages).unwrap();
    assert!(
        report
            .actions
            .contains(&CompressionAction::DeduplicatedFileReads)
    );
    assert_eq!(messages.len(), 8, "blanking must not remove messages");
    assert_eq!(
        joined_text(&messages[2]),
        "",
        "the older read of the same file is blanked"
    );
    assert_eq!(joined_text(&messages[4]), "fresh read content");
    assert_eq!(
        joined_text(&messages[6]),
        "passwd content",
        "a different path is untouched"
    );
}

#[test]
fn clamp_truncates_oversized_blocks_and_keeps_structure() {
    let plugin = MemoryPlugin::new(MemoryConfig {
        strategies: vec![CompactionStrategy::ClampOversizedMessages {
            max_part_tokens: 100,
        }],
        ..Default::default()
    })
    .ok()
    .unwrap();
    let big_text = "lorem ipsum dolor sit amet ".repeat(2_000);
    let mut messages = vec![
        UnifiedMessage::system("primary instruction".to_string()),
        UnifiedMessage::user(big_text.clone()),
        UnifiedMessage::user("short text".to_string()),
        user_with_tool_result("c1", &big_text),
        UnifiedMessage {
            role: MessageRole::Assistant,
            content: vec![MessageContentBlock::Thinking {
                reasoning: big_text.clone(),
                signature: None,
            }],
            name: None,
            tool_call_id: None,
        },
        UnifiedMessage::user("latest user".to_string()),
    ];
    let marker = "\n…[truncated]…\n";
    let report = plugin.compress(&mut messages).unwrap();
    assert!(report.actions.contains(&CompressionAction::ClampedParts));
    assert_eq!(messages.len(), 6, "clamping edits blocks, never messages");
    assert!(joined_text(&messages[1]).contains(marker));
    assert!(joined_text(&messages[1]).len() < big_text.len());
    assert_eq!(
        joined_text(&messages[2]),
        "short text",
        "blocks under the cap are untouched"
    );
    match &messages[3].content[0] {
        MessageContentBlock::ToolResult { output, .. } => {
            assert!(output.contains(marker));
            assert!(output.len() < big_text.len());
        }
        _ => panic!("expected a ToolResult block"),
    }
    match &messages[4].content[0] {
        MessageContentBlock::Thinking {
            reasoning,
            signature,
        } => {
            assert!(reasoning.contains(marker));
            assert!(reasoning.len() < big_text.len());
            assert!(signature.is_none(), "the signature survives clamping");
        }
        _ => panic!("expected a Thinking block"),
    }
}

#[test]
fn sliding_window_trims_to_tail_and_preserves_pairing() {
    let plugin = MemoryPlugin::new(MemoryConfig {
        strategies: vec![CompactionStrategy::SlidingWindow { keep_messages: 10 }],
        ..Default::default()
    })
    .ok()
    .unwrap();
    let mut messages = vec![UnifiedMessage::system("primary instruction".to_string())];
    for i in 0..49 {
        if i % 2 == 0 {
            messages.push(UnifiedMessage::user(format!("user turn {i}")));
        } else {
            messages.push(UnifiedMessage::assistant(format!("assistant turn {i}")));
        }
    }
    assert_eq!(messages.len(), 50);
    let report = plugin.compress(&mut messages).unwrap();
    assert!(report.actions.contains(&CompressionAction::Slid));
    assert_eq!(messages.len(), 10, "50 messages trim to a tail of 10");
    assert_eq!(
        messages[0].role,
        MessageRole::System,
        "the first system message survives"
    );
    assert_eq!(
        joined_text(messages.last().unwrap()),
        "user turn 48",
        "the most recent user message survives"
    );
}

#[test]
fn sliding_window_does_not_orphan_tool_results() {
    let plugin = MemoryPlugin::new(MemoryConfig {
        strategies: vec![CompactionStrategy::SlidingWindow { keep_messages: 6 }],
        ..Default::default()
    })
    .ok()
    .unwrap();
    let mut messages = vec![
        UnifiedMessage::system("primary instruction".to_string()),
        UnifiedMessage::user("u1".to_string()),
        UnifiedMessage::assistant("a1".to_string()),
        UnifiedMessage::user("u2".to_string()),
        assistant_with_call("c1", "read_file", json(r#"{ "path": "/x" }"#)),
        UnifiedMessage::user("u3".to_string()),
        UnifiedMessage::assistant("a3".to_string()),
        tool_result_message("c1", "result text"),
        UnifiedMessage::user("u4".to_string()),
        UnifiedMessage::assistant("a4".to_string()),
        UnifiedMessage::assistant("a5".to_string()),
        UnifiedMessage::assistant("a6".to_string()),
    ];
    assert_eq!(messages.len(), 12);
    let report = plugin.compress(&mut messages).unwrap();
    assert!(report.actions.contains(&CompressionAction::Slid));
    // Drop set {1..=6} plus the paired result message at index 7: 5 remain.
    assert_eq!(messages.len(), 5);
    assert_eq!(messages[0].role, MessageRole::System);
    assert_eq!(joined_text(&messages[1]), "u4", "most recent user survives");
    assert!(
        !messages
            .iter()
            .any(|m| m.tool_call_id.as_deref() == Some("c1")),
        "the result message must not outlive its call"
    );
    assert!(
        !messages.iter().any(|m| {
            m.content.iter().any(|b| {
                matches!(
                    b,
                    MessageContentBlock::ToolCall { id, .. } if id == "c1"
                )
            })
        }),
        "the call message must be gone"
    );
}

#[test]
fn warn_injection_is_idempotent_and_triggered_by_fraction() {
    let plugin = MemoryPlugin::new(MemoryConfig {
        context_window_tokens: 100,
        warn_fraction: Some(single(0.5)),
        max_fraction: None,
        ..Default::default()
    })
    .ok()
    .unwrap();
    let mut req = UnifiedRequest::new("gpt-4o".to_string());
    req.messages
        .push(UnifiedMessage::system("You are a helpful assistant.".to_string()));
    for i in 0..8 {
        req.messages.push(UnifiedMessage::user(format!(
            "Turn number {i}: several full sentences of conversational content that consume \
             tokens and drive the total well past the fifty-token mark for this tiny window."
        )));
    }
    on_request(&plugin, &mut req).unwrap();
    assert_eq!(
        req.messages
            .iter()
            .filter(|m| joined_text(m).contains(WARNING_MARKER))
            .count(),
        1,
        "the first over-fraction request injects exactly one warning"
    );
    on_request(&plugin, &mut req).unwrap();
    assert_eq!(
        req.messages
            .iter()
            .filter(|m| joined_text(m).contains(WARNING_MARKER))
            .count(),
        1,
        "the marker scan prevents a second injection"
    );
}

#[test]
fn observer_receives_usage_every_request() {
    let observer = Arc::new(FakeObserver(Mutex::new(Vec::new())));
    let plugin = MemoryPlugin::new(MemoryConfig {
        observers: vec![observer.clone() as Arc<dyn ContextUsageObserver>],
        ..Default::default()
    })
    .ok()
    .unwrap();
    let mut req = UnifiedRequest::new("gpt-4o".to_string());
    req.messages.push(UnifiedMessage::user("hi".to_string()));
    on_request(&plugin, &mut req).unwrap();
    on_request(&plugin, &mut req).unwrap();
    let readings = observer.0.lock().unwrap();
    assert_eq!(readings.len(), 2, "one reading per request");
    for usage in readings.iter() {
        assert!(usage.used_tokens > 0);
        assert_eq!(usage.window_tokens, 128_000);
        assert!(!usage.resolved, "no resolver: the fallback window is used");
    }
}

#[test]
fn resolver_overrides_fallback_window() {
    let observer = Arc::new(FakeObserver(Mutex::new(Vec::new())));
    let plugin = MemoryPlugin::new(MemoryConfig {
        context_window_resolver: Some(Arc::new(FakeResolver)),
        observers: vec![observer.clone() as Arc<dyn ContextUsageObserver>],
        ..Default::default()
    })
    .ok()
    .unwrap();
    let mut req = UnifiedRequest::new("big-model".to_string());
    req.messages.push(UnifiedMessage::user("hi".to_string()));
    on_request(&plugin, &mut req).unwrap();
    req.model = "small-model".to_string();
    on_request(&plugin, &mut req).unwrap();
    let readings = observer.0.lock().unwrap();
    assert_eq!(readings.len(), 2);
    assert_eq!(readings[0].window_tokens, 1_000_000);
    assert!(readings[0].resolved);
    assert_eq!(readings[1].window_tokens, 128_000);
    assert!(!readings[1].resolved, "unresolved models fall back");
}

#[test]
fn fraction_budget_uses_resolved_window() {
    let plugin = MemoryPlugin::new(MemoryConfig {
        context_window_resolver: Some(Arc::new(TinyResolver)),
        max_fraction: Some(single(0.5)),
        max_tokens: None,
        max_messages: None,
        ..Default::default()
    })
    .ok()
    .unwrap();

    // Resolved window 100 x 0.5 = 50-token budget: this list is over it.
    let mut hot = UnifiedRequest::new("m".to_string());
    hot.messages
        .push(UnifiedMessage::system("You are a helpful assistant.".to_string()));
    for i in 0..8 {
        hot.messages.push(UnifiedMessage::user(format!(
            "Turn number {i}: several full sentences of conversational content that consume \
             tokens and drive the total well past the fifty-token mark for this tiny window."
        )));
    }
    let before = hot.messages.len();
    on_request(&plugin, &mut hot).unwrap();
    assert!(
        hot.messages.len() < before,
        "over the fraction budget, on_request compresses"
    );

    // Under the 50-token budget: untouched.
    let mut cool = UnifiedRequest::new("m".to_string());
    cool.messages.push(UnifiedMessage::user("hi".to_string()));
    let snapshot = cool.messages.clone();
    on_request(&plugin, &mut cool).unwrap();
    assert_eq!(
        cool.messages, snapshot,
        "under the fraction budget, messages are untouched"
    );
}

#[test]
fn offload_error_falls_back_to_next_strategy() {
    let plugin = MemoryPlugin::with_extensions(
        MemoryConfig {
            strategies: vec![
                CompactionStrategy::Offload { turns: 10 },
                CompactionStrategy::Summarize { turns: 10 },
            ],
            ..Default::default()
        },
        Arc::new(FakeSummarizer),
        Arc::new(FailingStore),
    )
    .ok()
    .unwrap();
    let mut messages = vec![
        UnifiedMessage::system("system prompt".to_string()),
        UnifiedMessage::user("oldest user turn".to_string()),
        UnifiedMessage::assistant("oldest assistant turn".to_string()),
        UnifiedMessage::user("most recent user".to_string()),
    ];
    let report = plugin.compress(&mut messages).unwrap();
    assert!(
        report.actions.contains(&CompressionAction::Summarized),
        "after an offload error the pipeline falls through to summarize"
    );
    assert!(
        report.last_error.is_some(),
        "the offload failure is recorded"
    );
    assert_eq!(messages.len(), 3, "summarize still replaced the turn group");
}

#[test]
fn failed_offload_restores_every_turn_it_took() {
    // Offload alone: nothing downstream can rewrite the list, so the
    // messages observed afterwards are exactly what the rollback restored.
    let plugin = MemoryPlugin::with_extensions(
        MemoryConfig {
            strategies: vec![CompactionStrategy::Offload { turns: 10 }],
            ..Default::default()
        },
        Arc::new(FakeSummarizer),
        Arc::new(FailingStore),
    )
    .ok()
    .unwrap();
    let mut messages = vec![
        UnifiedMessage::system("system prompt".to_string()),
        UnifiedMessage::user("oldest user turn".to_string()),
        UnifiedMessage::assistant("oldest assistant turn".to_string()),
        UnifiedMessage::user("most recent user".to_string()),
    ];
    let before = messages.clone();

    let report = plugin.compress(&mut messages).unwrap();

    assert!(
        report.last_error.is_some(),
        "the offload failure is recorded"
    );
    assert_eq!(
        messages, before,
        "a failed offload drops no history and preserves order"
    );
}

#[test]
fn pairing_close_extends_drop_set() {
    let messages = vec![
        assistant_with_call("c1", "read_file", json(r#"{ "path": "/x" }"#)),
        tool_result_message("c1", "out"),
    ];
    assert_eq!(
        pairing_close(&messages, &vec![true, false]),
        vec![true, true],
        "a dropped call pulls in its result"
    );
    // The closure is one-directional: dropping a result does not pull the call.
    assert_eq!(pairing_close(&messages, &vec![false, true]), vec![false, true]);
}

#[test]
fn compress_out_of_band_runs_full_list_without_budget() {
    let plugin = MemoryPlugin::new(MemoryConfig::default()).ok().unwrap();
    let mut messages = vec![
        UnifiedMessage::system("primary instruction".to_string()),
        assistant_with_call("c1", "read_file", json(r#"{ "path": "/x" }"#)),
        tool_result_message("c1", "result output"),
        UnifiedMessage::user("u1".to_string()),
        UnifiedMessage::assistant("a1".to_string()),
        UnifiedMessage::user("u2".to_string()),
    ];
    let report = plugin.compress(&mut messages).unwrap();
    assert!(
        !report.actions.is_empty(),
        "the full strategy list runs once without a budget"
    );
    assert_eq!(
        messages.last().unwrap().role,
        MessageRole::User,
        "the most recent user message survives"
    );
    assert!(
        !messages
            .iter()
            .any(|m| m.tool_call_id.as_deref() == Some("c1")),
        "the paired tool result is removed with its call"
    );
}

#[test]
fn mod_name_and_send_sync() {
    fn assert_send_sync<T: Send + Sync>() {}
    assert_send_sync::<MemoryPlugin>();
    assert_eq!(
        MemoryPlugin::new(MemoryConfig::default()).ok().unwrap().name(),
        "context-memory"
    );
}

#[test]
fn memory_plugin_graph_defaults_empty() {
    let mut plugin = MemoryPlugin::new(MemoryConfig::default()).ok().unwrap();
    assert!(
        plugin.graph().is_empty(),
        "a freshly built plugin starts with an empty graph"
    );
    let store = Arc::new(FakeStore(Mutex::new(Vec::new())));
    let mut plugin =
        MemoryPlugin::with_extensions(MemoryConfig::default(), Arc::new(FakeSummarizer), store)
            .ok()
            .unwrap();
    assert!(plugin.graph().is_empty());
}

#[test]
fn merge_graph_merges_under_single_lock() {
    let mut plugin = MemoryPlugin::new(MemoryConfig::default()).ok().unwrap();
    let mut incoming = MemoryGraph::new();
    incoming.upsert_node(GraphNode {
        id: "a".into(),
        labels: vec!["person".into()],
        properties: StringMap::new(),
    });
    incoming.upsert_node(GraphNode {
        id: "b".into(),
        labels: Vec::new(),
        properties: StringMap::new(),
    });
    incoming
        .add_relationship(GraphRelationship {
            id: "r".into(),
            from: "a".into(),
            to: "b".into(),
            kind: "knows".into(),
            weight: Double::one(),
            properties: StringMap::new(),
        })
        .ok()
        .unwrap();
    let report = plugin.merge_graph(incoming, MergePolicy::Keep);
    assert_eq!(report.nodes_added, 2);
    assert_eq!(report.relationships_added, 1);
    let guard = plugin.graph();
    assert_eq!(guard.len(), 2);
    assert_eq!(guard.relationship_count(), 1);
    assert!(guard.relationship("r").is_some());
}

#[test]
fn replace_graph_swaps_working_graph() {
    let mut plugin = MemoryPlugin::new(MemoryConfig::default()).ok().unwrap();
    let mut g = MemoryGraph::new();
    g.upsert_node(GraphNode {
        id: "a".into(),
        labels: Vec::new(),
        properties: StringMap::new(),
    });
    plugin.replace_graph(g);
    assert_eq!(plugin.graph().len(), 1);
    plugin.replace_graph(MemoryGraph::new());
    assert!(plugin.graph().is_empty());
}

/// Staging validates off the lock: a rejected snapshot never reaches the
/// live graph, and a staged graph is not live until it is committed.
#[test]
fn stage_snapshot_validates_without_touching_the_live_graph() {
    let mut plugin = MemoryPlugin::new(MemoryConfig::default()).ok().unwrap();
    plugin
        .replace_snapshot(GraphSnapshot {
            nodes: vec![GraphNode {
                id: "sentinel".into(),
                labels: Vec::new(),
                properties: StringMap::new(),
            }],
            relationships: Vec::new(),
        })
        .ok()
        .unwrap();
    let before = plugin.snapshot();

    let bad = GraphSnapshot {
        nodes: vec![GraphNode {
            id: "x".into(),
            labels: Vec::new(),
            properties: StringMap::new(),
        }],
        relationships: vec![GraphRelationship {
            id: "r".into(),
            from: "x".into(),
            to: "ghost".into(),
            kind: "knows".into(),
            weight: Double::one(),
            properties: StringMap::new(),
        }],
    };
    assert!(MemoryPlugin::stage_snapshot(bad).is_err());
    assert_eq!(plugin.snapshot(), before);

    // A successfully staged graph is inert until committed.
    let staged = MemoryPlugin::stage_snapshot(GraphSnapshot {
        nodes: vec![GraphNode {
            id: "fresh".into(),
            labels: Vec::new(),
            properties: StringMap::new(),
        }],
        relationships: Vec::new(),
    })
    .unwrap();
    assert_eq!(staged.len(), 1);
    assert!(
        plugin.graph().node("sentinel").is_some(),
        "live graph still the old one"
    );

    let report = plugin.commit_staged_graph(staged);
    assert_eq!(
        report,
        GraphImportReport {
            nodes: 1,
            relationships: 0
        }
    );
    assert!(plugin.graph().node("fresh").is_some());
    assert!(plugin.graph().node("sentinel").is_none());
}

/// Build a plugin with graph-context injection enabled and one node in the
/// graph.
fn plugin_with_graph_context(config: MemoryConfig) -> MemoryPlugin {
    let mut plugin = MemoryPlugin::new(config).ok().unwrap();
    plugin.graph().upsert_node(GraphNode {
        id: "alice".into(),
        labels: vec!["person".into()],
        properties: StringMap::new(),
    });
    plugin
}

/// Count of graph-context messages in `messages` (marker-prefix scan).
fn marker_count(messages: &[UnifiedMessage]) -> usize {
    messages
        .iter()
        .filter(|m| joined_text(m).starts_with(GRAPH_RENDER_MARKER))
        .count()
}

#[test]
fn graph_context_injected_after_first_system_idempotently() {
    let mut plugin = plugin_with_graph_context(MemoryConfig {
        graph_context: Some(GraphContextConfig::default()),
        ..Default::default()
    });
    let mut req = UnifiedRequest::new("gpt-4o".to_string());
    req.messages
        .push(UnifiedMessage::system("primary instruction".to_string()));
    req.messages.push(UnifiedMessage::user("hi".to_string()));
    on_request(&plugin, &mut req).unwrap();
    assert_eq!(marker_count(&req.messages), 1, "exactly one graph message");
    assert_eq!(req.messages[0].role, MessageRole::System);
    assert!(
        joined_text(&req.messages[1]).starts_with(GRAPH_RENDER_MARKER),
        "the graph message sits right after the first System message"
    );
    // Second request: replaced in place, never duplicated.
    on_request(&plugin, &mut req).unwrap();
    assert_eq!(marker_count(&req.messages), 1);
    // Changing the graph updates the message content in place.
    plugin.graph().upsert_node(GraphNode {
        id: "bob".into(),
        labels: Vec::new(),
        properties: StringMap::new(),
    });
    on_request(&plugin, &mut req).unwrap();
    assert_eq!(marker_count(&req.messages), 1);
    assert!(
        joined_text(&req.messages[1]).contains("bob"),
        "the message content reflects the updated graph"
    );
}

#[test]
fn graph_context_removed_when_graph_emptied() {
    let mut plugin = plugin_with_graph_context(MemoryConfig {
        graph_context: Some(GraphContextConfig::default()),
        ..Default::default()
    });
    let mut req = UnifiedRequest::new("gpt-4o".to_string());
    req.messages
        .push(UnifiedMessage::system("primary instruction".to_string()));
    on_request(&plugin, &mut req).unwrap();
    assert_eq!(marker_count(&req.messages), 1);
    plugin.replace_graph(MemoryGraph::new());
    on_request(&plugin, &mut req).unwrap();
    assert_eq!(
        marker_count(&req.messages),
        0,
        "a stale graph message is removed once the graph is empty"
    );
}

#[test]
fn graph_context_absent_when_disabled_or_empty() {
    // Disabled (default config) with a non-empty graph: no injection.
    let plugin = plugin_with_graph_context(MemoryConfig::default());
    let mut req = UnifiedRequest::new("gpt-4o".to_string());
    req.messages
        .push(UnifiedMessage::system("primary instruction".to_string()));
    on_request(&plugin, &mut req).unwrap();
    assert_eq!(
        marker_count(&req.messages),
        0,
        "graph_context None disables injection"
    );
    // Enabled with an empty graph: no injection, no churn.
    let plugin = MemoryPlugin::new(MemoryConfig {
        graph_context: Some(GraphContextConfig::default()),
        ..Default::default()
    })
    .ok()
    .unwrap();
    let mut req = UnifiedRequest::new("gpt-4o".to_string());
    req.messages
        .push(UnifiedMessage::system("primary instruction".to_string()));
    on_request(&plugin, &mut req).unwrap();
    on_request(&plugin, &mut req).unwrap();
    assert_eq!(marker_count(&req.messages), 0);
}

#[test]
fn graph_context_respects_rendering_limits() {
    let mut plugin = plugin_with_graph_context(MemoryConfig {
        graph_context: Some(GraphContextConfig {
            max_nodes: 1,
            max_relationships: 1,
        }),
        ..Default::default()
    });
    plugin.graph().upsert_node(GraphNode {
        id: "bob".into(),
        labels: Vec::new(),
        properties: StringMap::new(),
    });
    let mut req = UnifiedRequest::new("gpt-4o".to_string());
    req.messages
        .push(UnifiedMessage::system("primary instruction".to_string()));
    on_request(&plugin, &mut req).unwrap();
    let text = joined_text(&req.messages[1]);
    assert!(text.starts_with(GRAPH_RENDER_MARKER));
    assert!(
        text.contains("... 1 more nodes omitted"),
        "the injected render honors max_nodes"
    );
    assert!(!text.contains("node bob"), "the second node is omitted");
}

#[test]
fn graph_context_survives_compression() {
    let plugin = plugin_with_graph_context(MemoryConfig {
        context_window_tokens: 100,
        max_fraction: Some(single(0.8)),
        graph_context: Some(GraphContextConfig::default()),
        ..Default::default()
    });
    let mut req = UnifiedRequest::new("gpt-4o".to_string());
    req.messages
        .push(UnifiedMessage::system("You are a helpful assistant.".to_string()));
    for i in 0..8 {
        req.messages.push(UnifiedMessage::user(format!(
            "Turn number {i}: several full sentences of conversational content that consume \
             tokens and drive the total well past the eighty-token threshold."
        )));
    }
    let before = req.messages.len();
    on_request(&plugin, &mut req).unwrap();
    assert!(
        req.messages.len() < before,
        "over the budget, on_request still compresses"
    );
    assert_eq!(
        marker_count(&req.messages),
        1,
        "the graph context message survives compression"
    );
}

#[test]
fn messages_count_as_role_and_text() {
    let plugin = MemoryPlugin::new(MemoryConfig::default()).ok().unwrap();
    let encoder = load_encoder("cl100k_base").unwrap();
    let messages = vec![
        UnifiedMessage::system("be brief".to_string()),
        UnifiedMessage::user("hello there".to_string()),
    ];
    let expected = count_tokens(encoder, "system be brief").unwrap()
        + count_tokens(encoder, "user hello there").unwrap();
    assert_eq!(plugin.count_tokens(&messages).unwrap() as usize, expected);
}

#[test]
fn the_warning_names_percentage_and_window() {
    let plugin = MemoryPlugin::new(MemoryConfig {
        context_window_tokens: 10,
        warn_fraction: Some(single(0.1)),
        max_fraction: None,
        ..Default::default()
    })
    .ok()
    .unwrap();
    let mut req = UnifiedRequest::new("m".to_string()).add_user_message("one two".to_string());
    let used = plugin.measure(&req).unwrap().used_tokens;
    on_request(&plugin, &mut req).unwrap();
    assert_eq!(
        joined_text(&req.messages[1]),
        format!(
            "{WARNING_MARKER} The conversation is at {}% of the 10-token context window; wrap up soon.",
            used * 10
        )
    );
}

#[test]
fn budgets_go_by_messages_then_tokens_then_fraction() {
    let build = |config| MemoryPlugin::new(config).ok().unwrap();
    let by_messages = build(MemoryConfig {
        max_messages: Some(3),
        max_tokens: Some(5),
        max_fraction: None,
        ..Default::default()
    });
    assert_eq!(by_messages.budget(7), Budget::Messages(3));
    let by_tokens = build(MemoryConfig {
        max_tokens: Some(5),
        max_fraction: None,
        ..Default::default()
    });
    assert_eq!(by_tokens.budget(7), Budget::Tokens(5));
    let by_fraction = build(MemoryConfig::default());
    assert_eq!(by_fraction.budget(7), Budget::Tokens(7));
    let unlimited = build(MemoryConfig { max_fraction: None, ..Default::default() });
    assert_eq!(unlimited.budget(7), Budget::Unlimited);
}

#[test]
fn a_resolved_window_counts_unless_it_is_none() {
    assert_eq!(choose_window(Some(5), 9), (5, true));
    assert_eq!(choose_window(None, 9), (9, false));
}

#[test]
fn clamped_text_keeps_head_and_tail() {
    let text: String = (0..4_000).map(|i| char::from(b'a' + (i % 26) as u8)).collect();
    let clamped = clamp_oversized(&text);
    let (head, tail) = clamped.split_once(CLAMP_MARKER).expect("the marker stands between");
    assert!(text.starts_with(head) && !head.is_empty());
    assert!(text.ends_with(tail) && !tail.is_empty());
}

#[test]
fn an_unknown_encoder_is_refused() {
    let refused = MemoryPlugin::new(MemoryConfig {
        encoder_name: "not-an-encoder".to_string(),
        ..Default::default()
    });
    assert!(matches!(refused.err(), Some(PluginError::Internal(_))));
}

#[test]
fn a_summary_is_given_the_oldest_turns() {
    struct Joining;
    impl Summarizer for Joining {
        fn summarize(&self, turns: &[UnifiedMessage]) -> String {
            turns.iter().map(joined_text).collect::<Vec<_>>().join("|")
        }
    }
    let plugin = MemoryPlugin::with_extensions(
        MemoryConfig {
            strategies: vec![CompactionStrategy::Summarize { turns: 2 }],
            ..Default::default()
        },
        Arc::new(Joining),
        Arc::new(FailingStore),
    )
    .ok()
    .unwrap();
    let mut messages = vec![
        UnifiedMessage::user("a".to_string()),
        UnifiedMessage::assistant("b".to_string()),
        UnifiedMessage::assistant("c".to_string()),
        UnifiedMessage::user("d".to_string()),
    ];
    let report = plugin.compress(&mut messages).unwrap();
    assert_eq!(report.actions, vec![CompressionAction::Summarized]);
    let texts: Vec<String> = messages.iter().map(joined_text).collect();
    assert_eq!(texts, vec!["a|b", "c", "d"]);
}

/// A message that answers one call and makes another.
fn answer_and_call(answered: &str, called: &str) -> UnifiedMessage {
    UnifiedMessage {
        role: MessageRole::Assistant,
        content: vec![
            MessageContentBlock::ToolResult {
                tool_call_id: answered.to_string(),
                output: "out".to_string(),
            },
            MessageContentBlock::ToolCall {
                id: called.to_string(),
                name: "next".to_string(),
                arguments: json("{}"),
            },
        ],
        name: None,
        tool_call_id: None,
    }
}

#[test]
fn pairing_goes_on_until_no_result_is_left_behind() {
    let messages = vec![
        tool_result_message("c", "third"),
        answer_and_call("b", "c"),
        answer_and_call("a", "b"),
        assistant_with_call("a", "first", json("{}")),
        UnifiedMessage::user("unrelated".to_string()),
    ];
    assert_eq!(
        pairing_close(&messages, &vec![false, false, false, true, false]),
        vec![true, true, true, true, false]
    );
    assert_eq!(
        pairing_close(&messages, &vec![false, true, false, false, false]),
        vec![true, true, false, false, false]
    );
}

#[test]
fn pairing_spares_the_last_user_message() {
    let messages = vec![
        assistant_with_call("a", "first", json("{}")),
        user_with_tool_result("a", "earlier"),
        user_with_tool_result("a", "latest"),
    ];
    assert_eq!(pairing_close(&messages, &vec![true, false, false]), vec![true, true, false]);
}

#[test]
fn the_first_system_message_survives_its_call() {
    let plugin = MemoryPlugin::new(MemoryConfig {
        strategies: vec![CompactionStrategy::DropTurns],
        ..Default::default()
    })
    .ok()
    .unwrap();
    let mut system = user_with_tool_result("c1", "loaded rules");
    system.role = MessageRole::System;
    let mut messages = vec![
        assistant_with_call("c1", "load", json("{}")),
        system.clone(),
        UnifiedMessage::user("go on".to_string()),
    ];
    let report = plugin.compress(&mut messages).unwrap();
    assert_eq!(report.actions, vec![CompressionAction::DroppedTurns]);
    assert_eq!(messages, vec![system, UnifiedMessage::user("go on".to_string())]);
}

#[test]
fn the_user_message_survives_a_summary_that_follows_it() {
    let plugin = MemoryPlugin::with_extensions(
        MemoryConfig {
            strategies: vec![
                CompactionStrategy::Summarize { turns: 10 },
                CompactionStrategy::SlidingWindow { keep_messages: 1 },
                CompactionStrategy::DropTurns,
            ],
            ..Default::default()
        },
        Arc::new(FakeSummarizer),
        Arc::new(FailingStore),
    )
    .ok()
    .unwrap();
    let mut messages = vec![
        UnifiedMessage::user("the question".to_string()),
        UnifiedMessage::assistant("one".to_string()),
        UnifiedMessage::assistant("two".to_string()),
    ];
    plugin.compress(&mut messages).unwrap();
    let texts: Vec<String> = messages.iter().map(joined_text).collect();
    assert_eq!(texts, vec!["the question", "SUMMARY"]);
}

#[test]
fn the_default_menu_runs_cheap_steps_first() {
    assert_eq!(
        MemoryConfig::default().strategies,
        vec![
            CompactionStrategy::DeduplicateFileReads { tool_name: "read_file".to_string() },
            CompactionStrategy::ClearToolResults { keep_pairs: 3 },
            CompactionStrategy::ClampOversizedMessages { max_part_tokens: 4096 },
            CompactionStrategy::SlidingWindow { keep_messages: 40 },
            CompactionStrategy::Offload { turns: 10 },
            CompactionStrategy::Summarize { turns: 10 },
            CompactionStrategy::DropObservations,
            CompactionStrategy::DropTurns,
        ]
    );
}

#[test]
fn repeated_requests_carry_the_current_graph_once() {
    let mut plugin = plugin_with_graph_context(MemoryConfig {
        graph_context: Some(GraphContextConfig::default()),
        ..Default::default()
    });
    let mut req = UnifiedRequest::new("gpt-4o".to_string());
    req.messages.push(UnifiedMessage::user("hi".to_string()));
    for id in ["bob", "carol", "dave"] {
        plugin.graph().upsert_node(GraphNode {
            id: id.into(),
            labels: Vec::new(),
            properties: StringMap::new(),
        });
        on_request(&plugin, &mut req).unwrap();
        assert_eq!(marker_count(&req.messages), 1);
        assert_eq!(req.messages.len(), 2);
        assert_eq!(req.messages[0].role, MessageRole::System);
        assert!(joined_text(&req.messages[0]).contains(id));
    }
    plugin.replace_graph(MemoryGraph::new());
    on_request(&plugin, &mut req).unwrap();
    on_request(&plugin, &mut req).unwrap();
    assert_eq!(req.messages, vec![UnifiedMessage::user("hi".to_string())]);
}

#[test]
fn an_observer_that_objects_leaves_the_request_alone() {
    struct Objecting;
    impl ContextUsageObserver for Objecting {
        fn observe(&self, _usage: &ContextUsage) -> Result<(), PluginError> {
            Err(PluginError::Internal("no".to_string()))
        }
    }
    let plugin = plugin_with_graph_context(MemoryConfig {
        graph_context: Some(GraphContextConfig::default()),
        observers: vec![Arc::new(Objecting)],
        ..Default::default()
    });
    let mut req = UnifiedRequest::new("gpt-4o".to_string());
    req.messages.push(UnifiedMessage::user("hi".to_string()));
    assert_eq!(on_request(&plugin, &mut req), Err(PluginError::Internal("no".to_string())));
    assert_eq!(req.messages, vec![UnifiedMessage::user("hi".to_string())]);
}

#[test]
fn compacting_and_carrying_is_preparing() {
    let plugin = plugin_with_graph_context(MemoryConfig {
        graph_context: Some(GraphContextConfig::default()),
        ..Default::default()
    });
    let mut whole = UnifiedRequest::new("gpt-4o".to_string());
    whole.messages.push(UnifiedMessage::user("hi".to_string()));
    let mut parts = whole.clone();
    let usage = plugin.measure(&whole).unwrap();
    let reading = WindowReading {
        gauge: WindowGauge { near_limit: true, percent: "90".to_string() },
        fraction_tokens: 100,
    };
    plugin.prepare(&mut whole, &usage, &reading).unwrap();
    plugin.compact(&mut parts, &usage, &reading).unwrap();
    assert_eq!(marker_count(&parts.messages), 0);
    plugin.carry(&mut parts);
    assert_eq!(parts.messages, whole.messages);
    assert_eq!(whole.messages.len(), 3);
}
