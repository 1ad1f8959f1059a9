//! Redaction: rules, matches, requests, bounds and counters.

use cuca_plugins::error::PluginError;
use cuca_plugins::json::Json;
use cuca_plugins::plugins::redaction::{RedactionConfig, RedactionPlugin, RedactionRule};
use cuca_plugins::request::UnifiedRequest;
use cuca_plugins::types::{MessageContentBlock, MessageRole, ToolDefinition, UnifiedMessage};
use std::borrow::Cow;

fn json(text: &str) -> Json {
    Json::parse(text).expect("valid JSON")
}

/// The fake secret every fixture carries.
const SECRET: &str = "sk-live-4242";

fn literal(kind: &str, value: &str) -> RedactionRule {
    RedactionRule::Literal {
        kind: kind.to_string(),
        value: value.to_string(),
    }
}

fn plugin_with(rules: Vec<RedactionRule>) -> RedactionPlugin {
    RedactionPlugin::new(RedactionConfig::new(rules).ok().expect("policy must validate"))
        .ok()
        .expect("plugin must build")
}

fn block_text(req: &UnifiedRequest, message: usize, block: usize) -> String {
    match &req.messages[message].content[block] {
        MessageContentBlock::Text(text) => text.clone(),
        other => panic!("expected a Text block, got {other:?}"),
    }
}

/// A request touching every field in the map and every field deliberately
/// left alone, each carrying [`SECRET`].
fn kitchen_sink_request() -> UnifiedRequest {
    UnifiedRequest::new(format!("model-{SECRET}"))
        .add_message(UnifiedMessage {
            role: MessageRole::Assistant,
            content: vec![
                MessageContentBlock::Text(format!("text {SECRET}")),
                MessageContentBlock::Thinking {
                    reasoning: format!("reasoning {SECRET}"),
                    signature: Some(format!("signature {SECRET}")),
                },
                MessageContentBlock::ImageBase64 {
                    media_type: "image/png".to_string(),
                    data: format!("data {SECRET}"),
                },
                MessageContentBlock::ToolCall {
                    id: format!("call-{SECRET}"),
                    name: format!("tool-{SECRET}"),
                    arguments: json(&format!(r#"{{ "path": "arg {SECRET}" }}"#)),
                },
                MessageContentBlock::ToolResult {
                    tool_call_id: format!("call-{SECRET}"),
                    output: format!("output {SECRET}"),
                },
            ],
            name: Some(format!("name {SECRET}")),
            tool_call_id: Some(format!("call-{SECRET}")),
        })
        .add_tool(ToolDefinition {
            name: format!("tool-{SECRET}"),
            description: format!("description {SECRET}"),
            input_schema: json(&format!(r#"{{ "const": "{SECRET}" }}"#)),
        })
}

#[test]
fn literal_rule_replaces_every_occurrence_in_message_text() {
    let mut plugin = plugin_with(vec![literal("api-key", SECRET)]);
    let mut req = UnifiedRequest::new("m".to_string()).add_user_message(format!("a {SECRET} b {SECRET} c"));

    plugin.on_request(&mut req).expect("hook must succeed");

    assert_eq!(
        block_text(&req, 0, 0),
        "a [REDACTED:api-key] b [REDACTED:api-key] c"
    );
    assert_eq!(plugin.last_request_redactions(), 2);
}

#[test]
fn a_clean_string_is_borrowed_and_counts_nothing() {
    let mut plugin = plugin_with(vec![literal("api-key", SECRET)]);

    let redacted = plugin
        .scrub_str("nothing sensitive in here")
        .expect("scrub must succeed");

    assert!(
        matches!(redacted.text, Cow::Borrowed(_)),
        "a clean string must be handed back borrowed, not reallocated"
    );
    assert_eq!(redacted.count, 0);
}

#[test]
fn prefixed_rule_stops_at_the_first_byte_outside_the_token_alphabet() {
    let mut plugin = plugin_with(vec![RedactionRule::Prefixed {
        kind: "token".to_string(),
        prefix: "sk-".to_string(),
        min_len: 4,
        max_len: 32,
    }]);

    let redacted = plugin
        .scrub_str("key sk-abc_DEF-123! trailing")
        .expect("scrub must succeed");

    assert_eq!(redacted.text, "key [REDACTED:token]! trailing");
    assert_eq!(redacted.count, 1);
}

#[test]
fn prefixed_rule_honors_min_len_and_truncates_at_max_len() {
    let mut plugin = plugin_with(vec![RedactionRule::Prefixed {
        kind: "token".to_string(),
        prefix: "sk-".to_string(),
        min_len: 4,
        max_len: 6,
    }]);

    let short = plugin
        .scrub_str("sk-ab is too short")
        .expect("scrub must succeed");
    assert_eq!(short.count, 0, "a token under min_len is not a match");
    assert_eq!(short.text, "sk-ab is too short");

    let long = plugin
        .scrub_str("sk-abcdefghij")
        .expect("scrub must succeed");
    assert_eq!(
        long.text, "[REDACTED:token]ghij",
        "the match truncates at max_len token bytes"
    );
    assert_eq!(long.count, 1);
}

#[test]
fn email_like_needs_a_dotted_domain() {
    let mut plugin = plugin_with(vec![RedactionRule::EmailLike {
        kind: "email".to_string(),
    }]);

    let hit = plugin
        .scrub_str("mail a.b+c@example.co now")
        .expect("scrub must succeed");
    assert_eq!(hit.text, "mail [REDACTED:email] now");

    let miss = plugin
        .scrub_str("not-an-email@ has no domain")
        .expect("scrub must succeed");
    assert_eq!(miss.count, 0);
    assert_eq!(miss.text, "not-an-email@ has no domain");
}

#[test]
fn digit_run_redacts_a_separated_card_and_leaves_a_year_alone() {
    let mut plugin = plugin_with(vec![RedactionRule::DigitRun {
        kind: "card".to_string(),
        min_digits: 13,
        max_digits: 19,
    }]);

    let redacted = plugin
        .scrub_str("card 4111-1111-1111-1111 in 2024")
        .expect("scrub must succeed");

    assert_eq!(redacted.text, "card [REDACTED:card] in 2024");
    assert_eq!(redacted.count, 1);
}

#[test]
fn overlaps_resolve_leftmost_longest_then_by_policy_order() {
    let mut longest = plugin_with(vec![
        literal("short", "secret"),
        literal("long", "secret-value"),
    ]);
    assert_eq!(
        longest
            .scrub_str("a secret-value b")
            .expect("scrub must succeed")
            .text,
        "a [REDACTED:long] b",
        "the longer match wins at a shared start"
    );

    let leftmost = plugin_with(vec![
        literal("later", "value-tail"),
        literal("earlier", "secret"),
    ]);
    assert_eq!(
        leftmost
            .scrub_str("a secret-value-tail b")
            .expect("scrub must succeed")
            .text,
        "a [REDACTED:earlier]-[REDACTED:later] b",
        "leftmost beats longer-but-later, whatever the policy order"
    );

    let tied = plugin_with(vec![literal("first", "dup"), literal("second", "dup")]);
    assert_eq!(
        tied.scrub_str("x dup y").expect("scrub must succeed").text,
        "x [REDACTED:first] y",
        "an exact tie goes to the earlier rule in policy order"
    );
}

#[test]
fn on_request_scrubs_every_field_in_the_map() {
    let mut plugin = plugin_with(vec![literal("api-key", SECRET)]);
    let mut req = kitchen_sink_request();

    plugin.on_request(&mut req).expect("hook must succeed");

    let msg = &req.messages[0];
    assert_eq!(msg.name.as_deref(), Some("name [REDACTED:api-key]"));
    assert_eq!(block_text(&req, 0, 0), "text [REDACTED:api-key]");
    match &msg.content[1] {
        MessageContentBlock::Thinking { reasoning, .. } => {
            assert_eq!(reasoning, "reasoning [REDACTED:api-key]");
        }
        other => panic!("expected a Thinking block, got {other:?}"),
    }
    match &msg.content[4] {
        MessageContentBlock::ToolResult { output, .. } => {
            assert_eq!(output, "output [REDACTED:api-key]");
        }
        other => panic!("expected a ToolResult block, got {other:?}"),
    }
    assert_eq!(req.tools[0].description, "description [REDACTED:api-key]");
}

#[test]
fn on_request_leaves_every_non_text_field_byte_identical() {
    let mut plugin = plugin_with(vec![literal("api-key", SECRET)]);
    let mut req = kitchen_sink_request();

    plugin.on_request(&mut req).expect("hook must succeed");

    assert_eq!(req.model, format!("model-{SECRET}"), "routing knob");
    let msg = &req.messages[0];
    assert_eq!(
        msg.tool_call_id.as_deref(),
        Some(format!("call-{SECRET}").as_str()),
        "correlation id"
    );
    match &msg.content[1] {
        MessageContentBlock::Thinking { signature, .. } => assert_eq!(
            signature.as_deref(),
            Some(format!("signature {SECRET}").as_str()),
            "rewriting a provider signature invalidates it"
        ),
        other => panic!("expected a Thinking block, got {other:?}"),
    }
    match &msg.content[2] {
        MessageContentBlock::ImageBase64 { media_type, data } => {
            assert_eq!(media_type, "image/png");
            assert_eq!(data, &format!("data {SECRET}"), "base64 payload");
        }
        other => panic!("expected an ImageBase64 block, got {other:?}"),
    }
    match &msg.content[3] {
        MessageContentBlock::ToolCall { id, name, .. } => {
            assert_eq!(id, &format!("call-{SECRET}"), "correlation id");
            assert_eq!(name, &format!("tool-{SECRET}"), "tool identity");
        }
        other => panic!("expected a ToolCall block, got {other:?}"),
    }
    match &msg.content[4] {
        MessageContentBlock::ToolResult { tool_call_id, .. } => {
            assert_eq!(tool_call_id, &format!("call-{SECRET}"), "correlation id");
        }
        other => panic!("expected a ToolResult block, got {other:?}"),
    }
    assert_eq!(req.tools[0].name, format!("tool-{SECRET}"), "tool identity");
    assert_eq!(
        req.tools[0].input_schema,
        json(&format!(r#"{{ "const": "{SECRET}" }}"#)),
        "a schema keyword is the tool's contract"
    );
}

#[test]
fn on_request_scrubs_tool_call_argument_string_leaves_but_not_keys() {
    let mut plugin = plugin_with(vec![literal("api-key", SECRET)]);
    let mut req = UnifiedRequest::new("m".to_string()).add_message(UnifiedMessage {
        role: MessageRole::Assistant,
        content: vec![MessageContentBlock::ToolCall {
            id: "call-1".to_string(),
            name: "write".to_string(),
            arguments: json(&format!(
                r#"{{
                    "{SECRET}": "top {SECRET}",
                    "nested": {{
                        "deep": ["in-array {SECRET}", 7, null, {{ "leaf": "{SECRET}" }}]
                    }}
                }}"#
            )),
        }],
        name: None,
        tool_call_id: None,
    });

    plugin.on_request(&mut req).expect("hook must succeed");

    let arguments = match &req.messages[0].content[0] {
        MessageContentBlock::ToolCall { arguments, .. } => arguments,
        other => panic!("expected a ToolCall block, got {other:?}"),
    };
    assert_eq!(
        arguments,
        &json(&format!(
            r#"{{
                "{SECRET}": "top [REDACTED:api-key]",
                "nested": {{
                    "deep": ["in-array [REDACTED:api-key]", 7, null, {{ "leaf": "[REDACTED:api-key]" }}]
                }}
            }}"#
        )),
        "string leaves at every level are scrubbed; object keys are the tool's contract"
    );
    assert_eq!(plugin.last_request_redactions(), 3);
}

#[test]
fn arguments_past_the_depth_bound_refuse_the_whole_request() {
    let mut plugin = plugin_with(vec![literal("api-key", SECRET)]);
    let mut arguments = Json::String(format!("deep {SECRET}"));
    for _ in 0..=RedactionConfig::MAX_JSON_DEPTH {
        arguments = Json::Array(vec![arguments]);
    }
    let mut req = UnifiedRequest::new("m".to_string()).add_message(UnifiedMessage {
        role: MessageRole::Assistant,
        content: vec![
            MessageContentBlock::Text(format!("text {SECRET}")),
            MessageContentBlock::ToolCall {
                id: "call-1".to_string(),
                name: "write".to_string(),
                arguments,
            },
        ],
        name: None,
        tool_call_id: None,
    });
    let before = req.clone();

    let err = plugin
        .on_request(&mut req)
        .expect_err("an over-deep arguments value must refuse the request");

    assert!(
        matches!(
            err,
            PluginError::HookFailure {
                plugin: "redaction",
                stage: "request",
                ..
            }
        ),
        "expected a request-stage hook failure, got {err:?}"
    );
    assert_eq!(
        req, before,
        "the depth bound is checked before the first rewrite, so nothing is partially scrubbed"
    );
}

#[test]
fn a_string_over_the_match_cap_is_refused_instead_of_truncated() {
    let mut plugin = RedactionPlugin::new(RedactionConfig {
        rules: vec![literal("api-key", SECRET)],
        max_matches_per_text: 2,
        ..Default::default()
    })
    .ok()
    .expect("plugin must build");
    assert_eq!(plugin.match_cap(), 2);

    assert_eq!(
        plugin
            .scrub_str(&format!("{SECRET} {SECRET}"))
            .expect("exactly the cap must still scrub")
            .count,
        2
    );

    let err = plugin
        .scrub_str(&format!("{SECRET} {SECRET} {SECRET}"))
        .expect_err("over the cap must refuse");
    assert!(
        matches!(
            err,
            PluginError::HookFailure {
                plugin: "redaction",
                stage: "request",
                ..
            }
        ),
        "expected a request-stage hook failure, got {err:?}"
    );
}

#[test]
fn an_empty_policy_is_rejected() {
    let err = RedactionConfig::new(Vec::new()).err().expect("an empty policy is not a policy");

    match err {
        PluginError::Validation { schema, message } => {
            assert_eq!(schema, "redaction-config");
            assert!(message.contains("rules"), "message was {message:?}");
        }
        other => panic!("expected a validation rejection, got {other:?}"),
    }
}

#[test]
fn validate_rejects_every_out_of_bounds_policy() {
    fn rejects(config: RedactionConfig, needle: &str) {
        match config.validate() {
            Err(PluginError::Validation { schema, message }) => {
                assert_eq!(schema, "redaction-config");
                assert!(
                    message.contains(needle),
                    "message {message:?} must mention {needle:?}"
                );
            }
            other => panic!("expected a validation rejection for {needle:?}, got {other:?}"),
        }
    }
    fn config(rules: Vec<RedactionRule>) -> RedactionConfig {
        RedactionConfig {
            rules,
            ..Default::default()
        }
    }
    fn prefixed(min_len: usize, max_len: usize) -> RedactionRule {
        RedactionRule::Prefixed {
            kind: "token".to_string(),
            prefix: "sk-".to_string(),
            min_len,
            max_len,
        }
    }
    fn digits(min_digits: usize, max_digits: usize) -> RedactionRule {
        RedactionRule::DigitRun {
            kind: "card".to_string(),
            min_digits,
            max_digits,
        }
    }

    rejects(
        config(
            (0..=RedactionConfig::MAX_RULES)
                .map(|_| literal("api-key", SECRET))
                .collect(),
        ),
        "MAX_RULES",
    );
    rejects(config(vec![literal("api-key", "")]), "value");
    rejects(
        config(vec![literal(
            "api-key",
            &"a".repeat(RedactionConfig::MAX_PATTERN_BYTES + 1),
        )]),
        "MAX_PATTERN_BYTES",
    );
    rejects(config(vec![literal("", SECRET)]), "kind");
    rejects(config(vec![literal("Api-Key", SECRET)]), "slug");
    rejects(config(vec![literal("api key", SECRET)]), "slug");
    rejects(
        config(vec![literal(
            &"a".repeat(RedactionConfig::MAX_KIND_BYTES + 1),
            SECRET,
        )]),
        "MAX_KIND_BYTES",
    );
    rejects(
        config(vec![literal("api-key", "[REDACTED:api-key]")]),
        "marker",
    );
    rejects(config(vec![prefixed(9, 4)]), "min_len");
    rejects(config(vec![digits(0, 19)]), "min_digits");
    rejects(config(vec![digits(19, 13)]), "min_digits");
    rejects(
        RedactionConfig {
            rules: vec![literal("api-key", SECRET)],
            max_matches_per_text: 0,
            ..Default::default()
        },
        "max_matches_per_text",
    );
    rejects(
        RedactionConfig {
            rules: vec![literal("api-key", SECRET)],
            max_matches_per_text: RedactionConfig::MAX_MATCHES_PER_TEXT + 1,
            ..Default::default()
        },
        "MAX_MATCHES_PER_TEXT",
    );
}

#[test]
fn last_request_is_per_request_while_the_total_accumulates() {
    let mut plugin = plugin_with(vec![literal("api-key", SECRET)]);
    assert_eq!(plugin.last_request_redactions(), 0);
    assert_eq!(plugin.total_redactions(), 0);
    assert_eq!(plugin.rule_count(), 1);

    let mut two = UnifiedRequest::new("m".to_string()).add_user_message(format!("{SECRET} {SECRET}"));
    plugin.on_request(&mut two).expect("hook must succeed");
    assert_eq!(plugin.last_request_redactions(), 2);
    assert_eq!(plugin.total_redactions(), 2);

    let mut one = UnifiedRequest::new("m".to_string()).add_user_message(format!("only {SECRET}"));
    plugin.on_request(&mut one).expect("hook must succeed");
    assert_eq!(plugin.last_request_redactions(), 1);
    assert_eq!(plugin.total_redactions(), 3);

    let mut clean = UnifiedRequest::new("m".to_string()).add_user_message("nothing to redact".to_string());
    plugin.on_request(&mut clean).expect("hook must succeed");
    assert_eq!(
        plugin.last_request_redactions(),
        0,
        "the per-request counter reflects only the most recent request"
    );
    assert_eq!(plugin.total_redactions(), 3);
}

#[test]
fn the_last_event_names_the_kind_and_never_the_matched_value() {
    let mut plugin = plugin_with(vec![literal("api-key", SECRET)]);
    assert!(plugin.last_redaction_event().is_none());

    let mut req = UnifiedRequest::new("m".to_string()).add_user_message(format!("a {SECRET} b {SECRET}"));
    plugin.on_request(&mut req).expect("hook must succeed");

    let (kind, field, count) = plugin
        .last_redaction_event()
        .expect("a redaction must record an event");
    assert_eq!(kind, "api-key");
    assert_eq!(field, "message_text");
    assert_eq!(count, 2);
    assert!(
        !kind.contains(SECRET),
        "the event names the secret class, never the secret"
    );
}

#[test]
fn redaction_name_and_send_sync() {
    let plugin = plugin_with(vec![literal("api-key", SECRET)]);

    assert_eq!(plugin.name(), "redaction");
}

#[test]
fn non_ascii_text_around_a_match_survives_byte_identically() {
    let mut plugin = plugin_with(vec![
        literal("api-key", SECRET),
        RedactionRule::EmailLike {
            kind: "email".to_string(),
        },
    ]);

    let text = format!("héllo 🌍 {SECRET} — señor a@b.co ✅");
    let redacted = plugin.scrub_str(&text).expect("scrub must succeed");

    assert_eq!(
        redacted.text,
        "héllo 🌍 [REDACTED:api-key] — señor [REDACTED:email] ✅"
    );
    assert_eq!(redacted.count, 2);
}

#[test]
fn scrubbing_is_idempotent_across_two_passes() {
    let mut plugin = plugin_with(vec![
        literal("api-key", SECRET),
        RedactionRule::EmailLike {
            kind: "email".to_string(),
        },
        RedactionRule::DigitRun {
            kind: "card".to_string(),
            min_digits: 13,
            max_digits: 19,
        },
    ]);
    let mut req = UnifiedRequest::new("m".to_string())
        .add_user_message(format!("{SECRET} a@b.co 4111-1111-1111-1111"));

    plugin.on_request(&mut req).expect("hook must succeed");
    let once = req.clone();
    assert_eq!(plugin.last_request_redactions(), 3);

    plugin.on_request(&mut req).expect("hook must succeed");

    assert_eq!(
        plugin.last_request_redactions(),
        0,
        "a replacement token cannot re-match, so the second pass is a no-op"
    );
    assert_eq!(req, once);
    assert_eq!(plugin.total_redactions(), 3);
}

#[test]
fn scrub_tool_definitions_gates_only_the_tool_description() {
    let mut off = RedactionPlugin::new(RedactionConfig {
        rules: vec![literal("api-key", SECRET)],
        scrub_tool_definitions: false,
        ..Default::default()
    })
    .ok()
    .expect("plugin must build");
    let mut on = plugin_with(vec![literal("api-key", SECRET)]);

    let mut left_alone = kitchen_sink_request();
    off.on_request(&mut left_alone).expect("hook must succeed");
    assert_eq!(
        left_alone.tools[0].description,
        format!("description {SECRET}"),
        "the knob is off, so an author-written description is untouched"
    );
    assert_eq!(
        block_text(&left_alone, 0, 0),
        "text [REDACTED:api-key]",
        "message text is scrubbed either way"
    );

    let mut scrubbed = kitchen_sink_request();
    on.on_request(&mut scrubbed).expect("hook must succeed");
    assert_eq!(
        scrubbed.tools[0].description,
        "description [REDACTED:api-key]"
    );
}

#[test]
fn scrubbing_again_changes_nothing() {
    for (kind, needle, text, expected) in [
        ("key", "ey", "hey", "h[REDACTED:key]"),
        ("word", "REDACTED", "REDACTED twice REDACTED", "[REDACTED:word] twice [REDACTED:word]"),
        ("word", "REDACTED", "x[REDACTED:word]y", "x[REDACTED:word]y"),
        ("edge", "a[R", "a[R", "[REDACTED:edge]"),
        ("edge", "]b", "x]b", "x[REDACTED:edge]"),
        ("brace", "]", "]]", "[REDACTED:brace][REDACTED:brace]"),
    ] {
        let plugin = plugin_with(vec![literal(kind, needle)]);
        let once = plugin.scrub_str(text).expect("scrub must succeed").text.into_owned();
        assert_eq!(once, expected);
        let twice = plugin.scrub_str(&once).expect("scrub must succeed");
        assert_eq!(twice.text, expected);
        assert_eq!(twice.count, 0);
    }
}

#[test]
fn a_match_across_the_edge_of_a_replacement_is_left() {
    let plugin = plugin_with(vec![literal("k", "a["), literal("secret", "s3cr3t")]);
    let once = plugin.scrub_str("as3cr3t").expect("scrub must succeed").text.into_owned();
    assert_eq!(once, "a[REDACTED:secret]");
    let twice = plugin.scrub_str(&once).expect("scrub must succeed");
    assert_eq!(twice.text, once);
    assert_eq!(twice.count, 0);
}

#[test]
fn a_refused_policy_quotes_the_offending_kind() {
    let message = match RedactionConfig::new(vec![literal("A\"b", SECRET)]) {
        Err(PluginError::Validation { message, .. }) => message,
        other => panic!("expected a refusal, got {:?}", other.is_ok()),
    };
    assert!(message.contains(&format!("{:?}", "A\"b")), "{message}");
}

#[test]
fn needles_are_found_wherever_they_stand() {
    let plugin = plugin_with(vec![literal("k", "ab")]);
    for (text, expected) in [
        ("ab", "[REDACTED:k]"),
        ("aab", "a[REDACTED:k]"),
        ("abab", "[REDACTED:k][REDACTED:k]"),
        ("a b", "a b"),
        ("\u{e9}ab\u{e9}", "\u{e9}[REDACTED:k]\u{e9}"),
    ] {
        assert_eq!(plugin.scrub_str(text).expect("scrub must succeed").text, expected);
    }
}

#[test]
fn digit_runs_end_at_double_separators_and_at_their_limit() {
    let plugin = plugin_with(vec![RedactionRule::DigitRun {
        kind: "n".to_string(),
        min_digits: 3,
        max_digits: 4,
    }]);
    for (text, expected) in [
        ("12", "12"),
        ("1-2 3", "[REDACTED:n]"),
        ("12--345", "12--[REDACTED:n]"),
        ("12345", "[REDACTED:n]5"),
        ("123-", "[REDACTED:n]-"),
    ] {
        assert_eq!(plugin.scrub_str(text).expect("scrub must succeed").text, expected);
    }
}

#[test]
fn domains_are_trimmed_to_a_letter_or_digit() {
    let plugin = plugin_with(vec![RedactionRule::EmailLike { kind: "e".to_string() }]);
    for (text, expected) in [
        ("a@b.co.", "[REDACTED:e]."),
        ("a@.co", "a@.co"),
        ("a@bc", "a@bc"),
        (".x@b.co", ".[REDACTED:e]"),
        ("a@b@c.de", "a@[REDACTED:e]"),
    ] {
        assert_eq!(plugin.scrub_str(text).expect("scrub must succeed").text, expected);
    }
}

#[test]
fn a_request_over_the_match_cap_is_refused() {
    let mut plugin = RedactionPlugin::new(RedactionConfig {
        rules: vec![literal("k", "x")],
        max_matches_per_text: 1,
        ..Default::default()
    })
    .ok()
    .expect("plugin must build");
    let mut req = UnifiedRequest::new("m".to_string())
        .add_user_message("x".to_string())
        .add_user_message("xx".to_string());
    assert!(plugin.on_request(&mut req).is_err());
    assert_eq!(plugin.total_redactions(), 0);
    assert_eq!(block_text(&req, 1, 0), "xx");
}

/// The replacements of the last request, as plain values.
fn events(plugin: &RedactionPlugin) -> Vec<(&str, &str, usize)> {
    plugin
        .last_request_events()
        .iter()
        .map(|e| (e.kind.as_str(), e.field, e.message_index))
        .collect()
}

#[test]
fn every_replacement_is_told_of_in_order() {
    let mut plugin = plugin_with(vec![literal("api-key", SECRET), literal("word", "hush")]);
    assert!(plugin.last_request_events().is_empty());
    let mut req = UnifiedRequest::new("m".to_string())
        .add_user_message(format!("hush {SECRET} hush"))
        .add_message(UnifiedMessage {
            role: MessageRole::Assistant,
            content: vec![
                MessageContentBlock::Thinking {
                    reasoning: SECRET.to_string(),
                    signature: None,
                },
                MessageContentBlock::ToolCall {
                    id: "c".to_string(),
                    name: "t".to_string(),
                    arguments: json(r#"{ "a": ["hush"], "b": "clean", "c": "hush" }"#),
                },
                MessageContentBlock::ToolResult {
                    tool_call_id: "c".to_string(),
                    output: SECRET.to_string(),
                },
            ],
            name: Some("hush".to_string()),
            tool_call_id: None,
        })
        .add_tool(ToolDefinition {
            name: "t".to_string(),
            description: "clean".to_string(),
            input_schema: json("{}"),
        })
        .add_tool(ToolDefinition {
            name: "u".to_string(),
            description: SECRET.to_string(),
            input_schema: json("{}"),
        });
    plugin.on_request(&mut req).expect("request must pass");
    let expected = vec![
        ("word", "message_text", 0),
        ("api-key", "message_text", 0),
        ("word", "message_text", 0),
        ("word", "message_name", 1),
        ("api-key", "message_thinking", 1),
        ("word", "tool_call_arguments", 1),
        ("word", "tool_call_arguments", 1),
        ("api-key", "tool_result_output", 1),
        ("api-key", "tool_description", 1),
    ];
    let told = events(&plugin);
    assert_eq!(told, expected);
    assert_eq!(told.len() as u64, plugin.last_request_redactions());
    let (kind, field, _) = plugin.last_redaction_event().expect("a field had a match");
    assert_eq!((kind.as_str(), field), (told[told.len() - 1].0, told[told.len() - 1].1));

    // A request without a match leaves nothing to tell of.
    let mut clean = UnifiedRequest::new("m".to_string()).add_user_message("clean".to_string());
    plugin.on_request(&mut clean).expect("request must pass");
    assert!(plugin.last_request_events().is_empty());
}

#[test]
fn the_descriptions_of_tools_are_told_of_by_their_place() {
    let mut plugin = RedactionPlugin::new(RedactionConfig {
        rules: vec![literal("api-key", SECRET)],
        scrub_tool_definitions: true,
        ..Default::default()
    })
    .ok()
    .expect("plugin must build");
    let tool = |name: &str, description: &str| ToolDefinition {
        name: name.to_string(),
        description: description.to_string(),
        input_schema: json("{}"),
    };
    let mut req = UnifiedRequest::new("m".to_string())
        .add_tool(tool("t", "clean"))
        .add_tool(tool("u", SECRET));
    plugin.on_request(&mut req).expect("request must pass");
    assert_eq!(events(&plugin), vec![("api-key", "tool_description", 1)]);
}

#[test]
fn a_refused_request_is_told_of_up_to_the_refusal() {
    let mut plugin = RedactionPlugin::new(RedactionConfig {
        rules: vec![literal("word", "hush")],
        max_matches_per_text: 1,
        ..Default::default()
    })
    .ok()
    .expect("plugin must build");
    let mut req = UnifiedRequest::new("m".to_string())
        .add_user_message("hush".to_string())
        .add_user_message("hush hush".to_string())
        .add_user_message("hush".to_string());
    assert!(plugin.on_request(&mut req).is_err());
    assert_eq!(events(&plugin), vec![("word", "message_text", 0)]);
    assert_eq!(plugin.last_request_redactions(), 0);
    assert_eq!(plugin.total_redactions(), 0);
}
