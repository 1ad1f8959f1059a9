//! The cost plugin: configuration, pricing, charging, caps, warnings and observers.

use cuca_plugins::error::PluginError;
use cuca_plugins::float::{Double, Single};
use cuca_plugins::json::Json;
use cuca_plugins::plugins::cost::{
    price_micros, CapGauge, CostConfig, CostEntry, CostObserver, CostPlugin, CostUsage, ModelRates,
    PricingResolver, PricingTable, UnpricedModelPolicy, COST_WARNING_MARKER, OVERFLOW_MODEL,
};
use cuca_plugins::request::{PromptCacheUsage, UnifiedRequest, UnifiedResponse};
use cuca_plugins::tokenize::{count_tokens, load_encoder};
use cuca_plugins::types::{
    MessageContentBlock, MessageRole, ProviderEndpoint, ToolDefinition, UnifiedMessage,
};
use std::sync::{Arc, Mutex};

fn single(value: f32) -> Single {
    Single {
        bits: value.to_bits(),
        text: value.to_string(),
        json_text: serde_json::Value::from(f64::from(value)).to_string(),
    }
}

fn json(text: &str) -> Json {
    Json::parse(text).expect("valid JSON")
}

/// The fraction of the tightest cap that a reading has reached.
fn cap_fraction(usage: &CostUsage) -> f64 {
    let tokens = usage.max_total_tokens.map_or(0.0, |cap| usage.total_tokens() as f64 / cap as f64);
    let micros = usage.max_total_micros.map_or(0.0, |cap| usage.spent_micros as f64 / cap as f64);
    tokens.max(micros)
}

fn near_cap(plugin: &CostPlugin, usage: &CostUsage) -> bool {
    match plugin.warn_fraction() {
        Some(fraction) => cap_fraction(usage) >= f64::from(f32::from_bits(fraction.bits)),
        None => false,
    }
}

fn usage(plugin: &CostPlugin) -> CostUsage {
    let mut usage = plugin.usage();
    usage.near_cap = near_cap(plugin, &usage);
    usage
}

fn on_request(plugin: &mut CostPlugin, req: &mut UnifiedRequest) -> Result<(), PluginError> {
    let turn = plugin.begin_request(req)?;
    let gauge = CapGauge {
        near_cap: near_cap(plugin, &turn.usage),
        percent: format!("{:.0}", cap_fraction(&turn.usage) * 100.0),
    };
    plugin.finish_request(req, &turn, &gauge)
}

fn on_response_complete(plugin: &mut CostPlugin, res: &UnifiedResponse) -> Result<(), PluginError> {
    let usage = plugin.on_response_complete(res)?;
    plugin.announce(&usage, near_cap(plugin, &usage))
}

/// Rates that price input and output only.
fn text_rates(input: u64, output: u64) -> ModelRates {
    ModelRates {
        input_micros_per_mtok: input,
        output_micros_per_mtok: output,
        ..Default::default()
    }
}

/// Resolver with a hit for one model name.
struct FakeResolver;

impl PricingResolver for FakeResolver {
    fn resolve_rates(&self, model: &str) -> Option<ModelRates> {
        if model == "resolved" {
            Some(text_rates(7, 7))
        } else {
            None
        }
    }
}

/// Observer that records every reading handed to it.
struct FakeObserver(Mutex<Vec<CostUsage>>);

impl CostObserver for FakeObserver {
    fn observe(&self, usage: &CostUsage) -> Result<(), PluginError> {
        self.0.lock().unwrap().push(*usage);
        Ok(())
    }
}

/// Observer that always fails.
struct FailingObserver;

impl CostObserver for FailingObserver {
    fn observe(&self, _usage: &CostUsage) -> Result<(), PluginError> {
        Err(PluginError::Internal("observer failure".to_string()))
    }
}

/// A request whose user message has a stable, double-digit token estimate.
fn user_request(model: &str) -> UnifiedRequest {
    UnifiedRequest::new(model.to_string()).add_user_message(
        "the quick brown fox jumps over the lazy dog, repeatedly and with enthusiasm".to_string(),
    )
}

fn response_with(model: &str, content: Vec<MessageContentBlock>) -> UnifiedResponse {
    UnifiedResponse {
        model: model.to_string(),
        provider: ProviderEndpoint::Custom(String::new()),
        duration_secs: Double { bits: 0, text: "0".to_string() },
        prompt_tokens: 0,
        completion_tokens: 1,
        finish_reason: None,
        content,
        prompt_cache_usage: None,
    }
}

/// The token count of `text` under the default encoder.
fn encoded(text: &str) -> u64 {
    count_tokens(load_encoder("cl100k_base").unwrap(), text).unwrap() as u64
}

/// Prompt estimate of `req` under a default plugin.
fn estimate_of(req: &UnifiedRequest) -> u64 {
    CostPlugin::new(CostConfig::default())
        .unwrap_or_else(|e| panic!("{e:?}"))
        .estimate_request_tokens(req)
        .unwrap()
}

fn internal_message(err: PluginError) -> String {
    match err {
        PluginError::Internal(msg) => msg,
        other => panic!("expected PluginError::Internal, got {other:?}"),
    }
}

fn hook_message(err: PluginError) -> String {
    match err {
        PluginError::HookFailure { plugin, stage, message } => {
            assert_eq!(plugin, "cost-accounting");
            assert_eq!(stage, "request");
            message
        }
        other => panic!("expected PluginError::HookFailure, got {other:?}"),
    }
}

fn rejection(config: CostConfig) -> PluginError {
    match CostPlugin::new(config) {
        Ok(_) => panic!("the configuration must be rejected"),
        Err(e) => e,
    }
}

#[test]
fn default_config_is_valid() {
    let plugin = CostPlugin::new(CostConfig::default()).expect("the default config builds");
    let usage = usage(&plugin);
    assert_eq!(usage.total_tokens(), 0);
    assert_eq!(usage.max_total_tokens, None);
    assert!(!usage.near_cap);
}

#[test]
fn zero_tracked_models_is_rejected() {
    let err = rejection(CostConfig {
        max_tracked_models: 0,
        ..Default::default()
    });
    assert!(internal_message(err).contains("max_tracked_models"));
}

#[test]
fn zero_token_cap_is_rejected() {
    let err = rejection(CostConfig {
        max_total_tokens: Some(0),
        ..Default::default()
    });
    assert!(internal_message(err).contains("max_total_tokens"));
}

#[test]
fn zero_currency_cap_is_rejected() {
    let err = rejection(CostConfig {
        max_total_micros: Some(0),
        ..Default::default()
    });
    assert!(internal_message(err).contains("max_total_micros"));
}

#[test]
fn warn_fraction_outside_the_unit_interval_is_rejected() {
    for fraction in [0.0f32, 1.5, f32::NAN] {
        let err = rejection(CostConfig {
            max_total_tokens: Some(1_000),
            warn_fraction: Some(single(fraction)),
            ..Default::default()
        });
        assert!(
            internal_message(err).contains("warn_fraction"),
            "{fraction} must be rejected by the warn_fraction guard"
        );
    }
    // The interval is closed at the top: exactly 1.0 is legal.
    assert!(
        CostPlugin::new(CostConfig {
            max_total_tokens: Some(1_000),
            warn_fraction: Some(single(1.0)),
            ..Default::default()
        })
        .is_ok()
    );
}

#[test]
fn warn_fraction_without_any_cap_is_rejected() {
    let err = rejection(CostConfig {
        warn_fraction: Some(single(0.8)),
        ..Default::default()
    });
    assert!(internal_message(err).contains("warn_fraction requires"));
}

#[test]
fn reject_policy_without_any_rate_source_is_rejected() {
    let err = rejection(CostConfig {
        on_unpriced_model: UnpricedModelPolicy::Reject,
        ..Default::default()
    });
    assert!(internal_message(err).contains("refuse every turn"));

    // A resolver alone is a rate source, so the same policy is accepted.
    assert!(
        CostPlugin::new(CostConfig {
            on_unpriced_model: UnpricedModelPolicy::Reject,
            pricing_resolver: Some(Arc::new(FakeResolver)),
            ..Default::default()
        })
        .is_ok()
    );
}

#[test]
fn unknown_encoder_name_is_rejected() {
    let err = rejection(CostConfig {
        encoder_name: "not-an-encoder".to_string(),
        ..Default::default()
    });
    let msg = internal_message(err);
    assert!(msg.contains("not-an-encoder"), "{msg}");
}

#[test]
fn resolver_rates_win_over_the_static_table() {
    let plugin = CostPlugin::new(CostConfig {
        pricing: PricingTable::new()
            .with_model("resolved".to_string(), text_rates(1, 1))
            .with_model("table-only".to_string(), text_rates(2, 2)),
        pricing_resolver: Some(Arc::new(FakeResolver)),
        ..Default::default()
    })
    .unwrap();

    assert_eq!(plugin.rates_for("resolved"), Some(text_rates(7, 7)));
    assert_eq!(plugin.rates_for("table-only"), Some(text_rates(2, 2)));
    assert_eq!(plugin.rates_for("unknown"), None);
}

#[test]
fn pricing_is_integer_and_saturates() {
    assert_eq!(price_micros(1_000_000, 3_000_000), 3_000_000);
    assert_eq!(price_micros(0, u64::MAX), 0);
    // The u128 product is exact; only the cast back saturates.
    assert_eq!(price_micros(2_000_000, u64::MAX), u64::MAX);
    assert_eq!(price_micros(u64::MAX, u64::MAX), u64::MAX);
}

#[test]
fn sub_million_token_counts_round_down_deterministically() {
    assert_eq!(price_micros(1, 3_000_000), 3);
    assert_eq!(price_micros(999_999, 3_000_000), 2_999_997);
    // Under one micro-unit truncates to zero rather than rounding up.
    assert_eq!(price_micros(1, 1), 0);
    assert_eq!(price_micros(999_999, 1), 0);
    assert_eq!(price_micros(1_000_000, 1), 1);
}

#[test]
fn estimate_counts_text_thinking_tool_call_and_tool_result_blocks() {
    let plugin = CostPlugin::new(CostConfig::default()).unwrap();
    let bare = UnifiedRequest::new("m".to_string()).add_message(UnifiedMessage {
        role: MessageRole::User,
        content: Vec::new(),
        name: None,
        tool_call_id: None,
    });
    let base = plugin.estimate_request_tokens(&bare).unwrap();
    assert!(base > 0, "the role prefix alone is chargeable");

    let blocks = [
        MessageContentBlock::Text("a chargeable sentence".to_string()),
        MessageContentBlock::Thinking {
            reasoning: "a chargeable reasoning trace".to_string(),
            signature: None,
        },
        MessageContentBlock::ToolCall {
            id: "call-1".to_string(),
            name: "read_file".to_string(),
            arguments: json(r#"{ "path": "/tmp/report.txt" }"#),
        },
        MessageContentBlock::ToolResult {
            tool_call_id: "call-1".to_string(),
            output: "a chargeable tool output".to_string(),
        },
    ];
    for block in blocks {
        let req = UnifiedRequest::new("m".to_string()).add_message(UnifiedMessage {
            role: MessageRole::User,
            content: vec![block.clone()],
            name: None,
            tool_call_id: None,
        });
        assert!(
            plugin.estimate_request_tokens(&req).unwrap() > base,
            "{block:?} must be charged"
        );
    }
}

#[test]
fn estimate_counts_tool_definitions_from_the_request() {
    let plugin = CostPlugin::new(CostConfig::default()).unwrap();
    let without = user_request("m");
    let with = user_request("m").add_tool(ToolDefinition {
        name: "read_file".to_string(),
        description: "Read a file from disk and return its contents".to_string(),
        input_schema: json(
            r#"{
                "type": "object",
                "properties": { "path": { "type": "string" } },
                "required": ["path"]
            }"#,
        ),
    });

    assert!(
        plugin.estimate_request_tokens(&with).unwrap()
            > plugin.estimate_request_tokens(&without).unwrap()
    );
}

#[test]
fn estimate_skips_images_and_counts_them() {
    let mut plugin = CostPlugin::new(CostConfig::default()).unwrap();
    let text_only = user_request("m");
    let mut with_image = user_request("m");
    with_image.messages[0]
        .content
        .push(MessageContentBlock::ImageBase64 {
            media_type: "image/png".to_string(),
            data: "aGVsbG8gaW1hZ2UgcGF5bG9hZA==".to_string(),
        });

    assert_eq!(
        plugin.estimate_request_tokens(&with_image).unwrap(),
        plugin.estimate_request_tokens(&text_only).unwrap(),
        "an image block contributes no tokens"
    );

    let mut req = with_image;
    on_request(&mut plugin, &mut req).unwrap();
    assert_eq!(usage(&plugin).untokenized_image_blocks, 1);
}

#[test]
fn a_turn_within_the_token_cap_is_charged() {
    let req = user_request("m");
    let estimate = estimate_of(&req);
    let mut plugin = CostPlugin::new(CostConfig {
        pricing: PricingTable::new().with_model("m".to_string(), text_rates(3_000_000, 0)),
        max_total_tokens: Some(estimate * 10),
        ..Default::default()
    })
    .unwrap();

    let mut req = req;
    on_request(&mut plugin, &mut req).unwrap();

    let usage = usage(&plugin);
    assert_eq!(usage.prompt_tokens, estimate);
    assert_eq!(usage.spent_micros, price_micros(estimate, 3_000_000));
    assert_eq!(usage.turns, 0, "turns count commits, not charges");
    assert_eq!(usage.unpriced_turns, 0);
}

#[test]
fn a_turn_that_would_cross_the_token_cap_is_refused_and_charges_nothing() {
    let mut plugin = CostPlugin::new(CostConfig {
        max_total_tokens: Some(1),
        ..Default::default()
    })
    .unwrap();
    let before = usage(&plugin);

    let mut req = user_request("m");
    let message = hook_message(on_request(&mut plugin, &mut req).unwrap_err());
    assert!(message.contains("token budget exceeded"), "{message}");

    assert_eq!(usage(&plugin), before);
    assert!(plugin.breakdown().is_empty());
    assert_eq!(req.messages.len(), 1, "the refused turn is not mutated");
}

#[test]
fn a_turn_that_would_cross_the_currency_cap_is_refused() {
    let mut plugin = CostPlugin::new(CostConfig {
        pricing: PricingTable::new().with_model("m".to_string(), text_rates(1_000_000_000, 0)),
        max_total_micros: Some(1),
        ..Default::default()
    })
    .unwrap();
    let before = usage(&plugin);

    let mut req = user_request("m");
    let message = hook_message(on_request(&mut plugin, &mut req).unwrap_err());
    assert!(message.contains("currency budget exceeded"), "{message}");
    assert_eq!(usage(&plugin), before);
}

#[test]
fn an_unpriced_model_is_refused_under_reject_policy() {
    let mut plugin = CostPlugin::new(CostConfig {
        pricing: PricingTable::new().with_model("priced".to_string(), text_rates(1, 1)),
        on_unpriced_model: UnpricedModelPolicy::Reject,
        ..Default::default()
    })
    .unwrap();

    let mut req = user_request("other");
    let message = hook_message(on_request(&mut plugin, &mut req).unwrap_err());
    assert!(message.contains("no rates for model 'other'"), "{message}");
    assert_eq!(usage(&plugin).prompt_tokens, 0);

    // The priced model still goes through under the same policy.
    let mut priced = user_request("priced");
    on_request(&mut plugin, &mut priced).unwrap();
    assert!(usage(&plugin).prompt_tokens > 0);
}

#[test]
fn an_unpriced_model_is_charged_in_tokens_only_under_count_tokens_only() {
    let mut plugin = CostPlugin::new(CostConfig::default()).unwrap();
    let mut req = user_request("unpriced");
    on_request(&mut plugin, &mut req).unwrap();

    let usage = usage(&plugin);
    assert!(usage.prompt_tokens > 0);
    assert_eq!(usage.spent_micros, 0);
    assert_eq!(usage.unpriced_turns, 1);
}

#[test]
fn crossing_warn_fraction_injects_one_system_message() {
    let req = user_request("m");
    let estimate = estimate_of(&req);
    let mut plugin = CostPlugin::new(CostConfig {
        max_total_tokens: Some(estimate * 2),
        warn_fraction: Some(single(0.5)),
        ..Default::default()
    })
    .unwrap();

    let mut req = req;
    on_request(&mut plugin, &mut req).unwrap();

    assert_eq!(req.messages.len(), 2);
    let warning = &req.messages[1];
    assert_eq!(warning.role, MessageRole::System);
    match &warning.content[0] {
        MessageContentBlock::Text(text) => {
            assert!(text.starts_with(COST_WARNING_MARKER), "{text}");
        }
        other => panic!("expected a Text block, got {other:?}"),
    }
    assert!(usage(&plugin).near_cap);
}

#[test]
fn a_second_request_carrying_the_marker_is_not_warned_again() {
    let req = user_request("m");
    let estimate = estimate_of(&req);
    let mut plugin = CostPlugin::new(CostConfig {
        max_total_tokens: Some(estimate * 8),
        warn_fraction: Some(single(0.1)),
        ..Default::default()
    })
    .unwrap();

    let mut req = req;
    on_request(&mut plugin, &mut req).unwrap();
    on_request(&mut plugin, &mut req).unwrap();

    let markers = req
        .messages
        .iter()
        .filter(|m| {
            m.content.iter().any(|block| {
                matches!(block, MessageContentBlock::Text(t) if t.contains(COST_WARNING_MARKER))
            })
        })
        .count();
    assert_eq!(markers, 1);
    assert_eq!(req.messages.len(), 2);
}

#[test]
fn no_warning_below_warn_fraction() {
    let req = user_request("m");
    let estimate = estimate_of(&req);
    let mut plugin = CostPlugin::new(CostConfig {
        max_total_tokens: Some(estimate * 10),
        warn_fraction: Some(single(0.9)),
        ..Default::default()
    })
    .unwrap();

    let mut req = req;
    on_request(&mut plugin, &mut req).unwrap();

    assert_eq!(req.messages.len(), 1);
    assert!(!usage(&plugin).near_cap);
}

#[test]
fn completion_tokens_are_estimated_from_content_not_read_from_the_response() {
    let mut plugin = CostPlugin::new(CostConfig::default()).unwrap();
    let answer = "a deliberately long completion whose tiktoken count is far above one block";
    let res = response_with("m", vec![MessageContentBlock::Text(answer.to_string())]);
    assert_eq!(
        res.completion_tokens, 1,
        "the client writes a block count here, not a token count"
    );

    on_response_complete(&mut plugin, &res).unwrap();

    let expected = encoded(answer);
    assert!(expected > 1);
    let usage = usage(&plugin);
    assert_eq!(usage.completion_tokens, expected);
    assert_eq!(usage.turns, 1);
}

#[test]
fn tool_result_blocks_in_the_response_are_not_charged_as_completion() {
    let mut plugin = CostPlugin::new(CostConfig::default()).unwrap();
    let res = response_with(
        "m",
        vec![
            MessageContentBlock::ToolResult {
                tool_call_id: "call-1".to_string(),
                output: "a long tool output that carries no generated tokens".to_string(),
            },
            MessageContentBlock::ImageBase64 {
                media_type: "image/png".to_string(),
                data: "aGVsbG8gaW1hZ2UgcGF5bG9hZA==".to_string(),
            },
        ],
    );

    on_response_complete(&mut plugin, &res).unwrap();

    let usage = usage(&plugin);
    assert_eq!(usage.completion_tokens, 0);
    assert_eq!(usage.turns, 1);
}

#[test]
fn prompt_cache_usage_reprices_prompt_tokens_at_the_cache_rates() {
    let rates = ModelRates {
        input_micros_per_mtok: 3_000_000,
        output_micros_per_mtok: 0,
        cache_read_micros_per_mtok: 300_000,
        cache_write_micros_per_mtok: 3_750_000,
    };
    let mut plugin = CostPlugin::new(CostConfig {
        pricing: PricingTable::new().with_model("m".to_string(), rates),
        ..Default::default()
    })
    .unwrap();

    let mut req = user_request("m");
    let estimate = estimate_of(&req);
    on_request(&mut plugin, &mut req).unwrap();
    let charged = usage(&plugin).spent_micros;
    assert_eq!(charged, price_micros(estimate, 3_000_000));

    let read = estimate / 2;
    let write = 4u32;
    let mut res = response_with("m", Vec::new());
    res.prompt_cache_usage = Some(PromptCacheUsage {
        read_tokens: read as u32,
        write_tokens: write,
    });
    on_response_complete(&mut plugin, &res).unwrap();

    let usage = usage(&plugin);
    assert_eq!(usage.cache_read_tokens, read);
    assert_eq!(usage.cache_write_tokens, u64::from(write));
    let expected = charged - price_micros(read, 3_000_000)
        + price_micros(read, 300_000)
        + price_micros(u64::from(write), 3_750_000);
    assert_eq!(usage.spent_micros, expected);
    assert!(
        usage.spent_micros < charged,
        "cached prompt tokens cost less than full-price input tokens"
    );
}

#[test]
fn a_response_without_prompt_cache_usage_leaves_the_prompt_charge_alone() {
    let mut plugin = CostPlugin::new(CostConfig {
        pricing: PricingTable::new().with_model("m".to_string(), text_rates(3_000_000, 0)),
        ..Default::default()
    })
    .unwrap();

    let mut req = user_request("m");
    on_request(&mut plugin, &mut req).unwrap();
    let charged = usage(&plugin);

    let res = response_with("m", Vec::new());
    assert!(res.prompt_cache_usage.is_none());
    on_response_complete(&mut plugin, &res).unwrap();

    let usage = usage(&plugin);
    assert_eq!(usage.spent_micros, charged.spent_micros);
    assert_eq!(usage.prompt_tokens, charged.prompt_tokens);
    assert_eq!(usage.cache_read_tokens, 0);
    assert_eq!(usage.cache_write_tokens, 0);
    assert_eq!(usage.turns, 1);
}

#[test]
fn cache_read_tokens_exceeding_the_estimate_saturate_instead_of_underflowing() {
    let mut plugin = CostPlugin::new(CostConfig {
        pricing: PricingTable::new().with_model("m".to_string(), text_rates(3_000_000, 0)),
        ..Default::default()
    })
    .unwrap();

    let mut req = user_request("m");
    let estimate = estimate_of(&req);
    on_request(&mut plugin, &mut req).unwrap();

    // The provider's tokenizer disagrees wildly: it reports far more cached
    // prompt tokens than this ledger ever charged.
    let mut res = response_with("m", Vec::new());
    res.prompt_cache_usage = Some(PromptCacheUsage {
        read_tokens: u32::MAX,
        write_tokens: 0,
    });
    on_response_complete(&mut plugin, &res).unwrap();

    let usage = usage(&plugin);
    assert_eq!(
        usage.cache_read_tokens, estimate,
        "the cache counter is clamped to the prompt tokens actually charged"
    );
    assert_eq!(usage.spent_micros, 0, "the refund cannot exceed the charge");
}

#[test]
fn models_beyond_max_tracked_models_fold_into_the_overflow_bucket() {
    let max_tracked = 2usize;
    let mut plugin = CostPlugin::new(CostConfig {
        max_tracked_models: max_tracked,
        ..Default::default()
    })
    .unwrap();

    let models = ["a", "b", "c", "d"];
    let mut charged_prompt = 0u64;
    let mut charged_completion = 0u64;
    for model in models {
        let mut req = user_request(model);
        charged_prompt += estimate_of(&req);
        on_request(&mut plugin, &mut req).unwrap();

        let answer = "a short answer";
        charged_completion += encoded(answer);
        on_response_complete(&mut plugin, &response_with(
                model,
                vec![MessageContentBlock::Text(answer.to_string())],
            ))
            .unwrap();
    }

    let breakdown = plugin.breakdown();
    assert!(breakdown.len() <= max_tracked + 1);
    assert!(breakdown.iter().any(|(model, _)| model == OVERFLOW_MODEL));

    let usage = usage(&plugin);
    assert_eq!(usage.overflow_turns, 2, "two models beyond the cap folded");
    assert_eq!(usage.turns, models.len() as u64);
    // Totals stay exact: only per-model attribution degrades.
    assert_eq!(usage.prompt_tokens, charged_prompt);
    assert_eq!(usage.completion_tokens, charged_completion);
    let summed: u64 = breakdown
        .iter()
        .map(|(_, entry)| entry.total_tokens())
        .sum();
    assert_eq!(summed, usage.total_tokens());
}

#[test]
fn breakdown_is_sorted_by_model_id() {
    let mut plugin = CostPlugin::new(CostConfig::default()).unwrap();
    for model in ["zeta", "alpha", "mu"] {
        let mut req = user_request(model);
        on_request(&mut plugin, &mut req).unwrap();
    }

    let models: Vec<String> = plugin.breakdown()
        .into_iter()
        .map(|(model, _)| model)
        .collect();
    assert_eq!(models, vec!["alpha", "mu", "zeta"]);
}

#[test]
fn reset_zeroes_the_ledger_and_keeps_the_configuration() {
    let req = user_request("m");
    let estimate = estimate_of(&req);
    let mut plugin = CostPlugin::new(CostConfig {
        max_total_tokens: Some(estimate),
        ..Default::default()
    })
    .unwrap();

    let mut first = req.clone();
    on_request(&mut plugin, &mut first).unwrap();
    // The cap is now exactly spent, so a second turn is refused.
    let mut second = req.clone();
    assert!(on_request(&mut plugin, &mut second).is_err());

    plugin.reset();

    let usage = usage(&plugin);
    assert_eq!(usage.prompt_tokens, 0);
    assert_eq!(usage.spent_micros, 0);
    assert_eq!(usage.turns, 0);
    assert!(plugin.breakdown().is_empty());
    assert_eq!(
        usage.max_total_tokens,
        Some(estimate),
        "reset rolls the ledger, not the configuration"
    );

    let mut third = req;
    on_request(&mut plugin, &mut third)
        .expect("the cap has headroom again");
}

#[test]
fn usage_near_cap_flips_exactly_at_warn_fraction() {
    let req = user_request("m");
    let estimate = estimate_of(&req);
    // Two turns of `estimate` tokens against a cap of `4 * estimate`: the
    // first reading sits at 0.25, the second at exactly 0.5.
    let mut plugin = CostPlugin::new(CostConfig {
        max_total_tokens: Some(estimate * 4),
        warn_fraction: Some(single(0.5)),
        ..Default::default()
    })
    .unwrap();

    let mut first = req.clone();
    on_request(&mut plugin, &mut first).unwrap();
    assert!(!usage(&plugin).near_cap, "0.25 is below 0.5");

    let mut second = req;
    on_request(&mut plugin, &mut second).unwrap();
    assert!(usage(&plugin).near_cap, "0.5 meets 0.5");
}

#[test]
fn observers_see_a_reading_on_request_and_on_response_complete() {
    let observer = Arc::new(FakeObserver(Mutex::new(Vec::new())));
    let mut plugin = CostPlugin::new(CostConfig {
        observers: vec![observer.clone() as Arc<dyn CostObserver>],
        ..Default::default()
    })
    .unwrap();

    let mut req = user_request("m");
    let estimate = estimate_of(&req);
    on_request(&mut plugin, &mut req).unwrap();
    let answer = "a short answer";
    on_response_complete(&mut plugin, &response_with(
            "m",
            vec![MessageContentBlock::Text(answer.to_string())],
        ))
        .unwrap();

    let readings = observer.0.lock().unwrap();
    assert_eq!(readings.len(), 2);
    assert_eq!(readings[0].prompt_tokens, estimate);
    assert_eq!(readings[0].turns, 0);
    assert_eq!(readings[1].completion_tokens, encoded(answer));
    assert_eq!(readings[1].turns, 1);
}

#[test]
fn an_observer_error_in_on_request_aborts_the_turn_and_the_charge_is_not_visible() {
    let mut plugin = CostPlugin::new(CostConfig {
        observers: vec![Arc::new(FailingObserver) as Arc<dyn CostObserver>],
        ..Default::default()
    })
    .unwrap();
    let before = usage(&plugin);

    let mut req = user_request("m");
    let err = on_request(&mut plugin, &mut req).unwrap_err();
    assert_eq!(internal_message(err), "observer failure");

    assert_eq!(usage(&plugin), before);
    assert!(plugin.breakdown().is_empty());
}

#[test]
fn an_observer_error_in_on_response_complete_is_returned_by_the_hook() {
    let mut plugin = CostPlugin::new(CostConfig {
        observers: vec![Arc::new(FailingObserver) as Arc<dyn CostObserver>],
        ..Default::default()
    })
    .unwrap();

    let res = response_with("m", vec![MessageContentBlock::Text("answer".to_string())]);
    let err = on_response_complete(&mut plugin, &res).unwrap_err();
    assert_eq!(internal_message(err), "observer failure");

    // The client logs this error and never surfaces it, so the commit that
    // preceded the observer stands.
    assert_eq!(usage(&plugin).turns, 1);
}

#[test]
fn name_is_the_stable_identifier() {
    let plugin = CostPlugin::new(CostConfig::default()).unwrap();
    assert_eq!(plugin.name(), "cost-accounting");
}

#[test]
fn token_counts_are_those_of_the_named_encoder() {
    let text = "hello, world: 12345 <|endoftext|>";
    let bpe = tiktoken_rs::cl100k_base().unwrap();
    assert_eq!(encoded(text), bpe.encode_ordinary(text).len() as u64);
    assert_eq!(encoded(""), 0);
    assert_eq!(encoded("hello world"), 2);
}

#[test]
fn encoders_differ_by_name() {
    let text = "antidisestablishmentarianism \u{4f60}\u{597d}";
    let old = count_tokens(load_encoder("p50k_base").unwrap(), text).unwrap();
    let new = count_tokens(load_encoder("o200k_base").unwrap(), text).unwrap();
    assert_eq!(old, tiktoken_rs::p50k_base().unwrap().encode_ordinary(text).len());
    assert_eq!(new, tiktoken_rs::o200k_base().unwrap().encode_ordinary(text).len());
    assert!(load_encoder("gpt-nonsense").is_err());
}

#[test]
fn the_prompt_estimate_adds_up_every_part() {
    let plugin = CostPlugin::new(CostConfig::default()).unwrap_or_else(|e| panic!("{e:?}"));
    let req = UnifiedRequest::new("m".to_string())
        .add_system_message("be brief".to_string())
        .add_tool(ToolDefinition {
            name: "t".to_string(),
            description: "a tool".to_string(),
            input_schema: json(r#"{"b":1,"a":[true]}"#),
        });
    let expected = encoded("system ")
        + encoded("be brief")
        + encoded("t")
        + encoded("a tool")
        + encoded(r#"{"a":[true],"b":1}"#);
    assert_eq!(plugin.estimate_request_tokens(&req).unwrap(), expected);
}

#[test]
fn refusals_say_how_far_the_turn_would_go() {
    let req = user_request("m");
    let estimate = estimate_of(&req);
    let mut plugin = CostPlugin::new(CostConfig {
        max_total_tokens: Some(estimate - 1),
        ..Default::default()
    })
    .unwrap_or_else(|e| panic!("{e:?}"));
    let mut turn = req;
    assert_eq!(
        hook_message(on_request(&mut plugin, &mut turn).unwrap_err()),
        format!("token budget exceeded: this turn would reach {estimate} of {} tokens", estimate - 1),
    );
}

#[test]
fn the_warning_names_the_percentage() {
    let req = user_request("m");
    let estimate = estimate_of(&req);
    let mut plugin = CostPlugin::new(CostConfig {
        max_total_tokens: Some(estimate * 4),
        warn_fraction: Some(single(0.25)),
        ..Default::default()
    })
    .unwrap_or_else(|e| panic!("{e:?}"));
    let mut turn = req;
    on_request(&mut plugin, &mut turn).unwrap();
    let expected = UnifiedMessage::system(
        "CUCA cost warning: This client has used 25% of its budget cap; wrap up soon.".to_string(),
    );
    assert_eq!(turn.messages[1], expected);
}

#[test]
fn a_refused_reading_takes_its_charge_back_exactly() {
    let mut plugin = CostPlugin::new(CostConfig::default()).unwrap_or_else(|e| panic!("{e:?}"));
    let req = user_request("m");
    let before = plugin.usage();
    let turn = plugin.begin_request(&req).unwrap();
    assert!(plugin.usage().prompt_tokens > before.prompt_tokens);
    let told = Err(PluginError::Internal("no".to_string()));
    assert!(plugin.settle_turn("m", &turn, told).is_err());
    assert_eq!(plugin.usage(), before);
    assert!(plugin.breakdown().is_empty());
}

#[test]
fn sums_saturate() {
    let usage = CostUsage {
        prompt_tokens: u64::MAX,
        completion_tokens: 5,
        cache_read_tokens: 0,
        cache_write_tokens: 0,
        spent_micros: 0,
        turns: 0,
        unpriced_turns: 0,
        untokenized_image_blocks: 0,
        overflow_turns: 0,
        max_total_tokens: None,
        max_total_micros: None,
        near_cap: false,
    };
    assert_eq!(usage.total_tokens(), u64::MAX);
    let entry = CostEntry { prompt_tokens: 3, completion_tokens: 4, ..Default::default() };
    assert_eq!(entry.total_tokens(), 7);
}

#[test]
fn the_table_holds_one_rate_per_model() {
    let table = PricingTable::new()
        .with_model("m".to_string(), text_rates(1, 2))
        .with_model("m".to_string(), text_rates(3, 4));
    assert_eq!(table.len(), 1);
    assert!(!table.is_empty());
    assert_eq!(table.get("m"), Some(text_rates(3, 4)));
    assert_eq!(table.get("n"), None);
    assert!(PricingTable::new().is_empty());
}

#[test]
fn a_table_can_be_copied_and_grows_by_new_models_only() {
    let empty = PricingTable::default();
    assert_eq!(empty.len(), 0);
    let one = empty.with_model("m".to_string(), text_rates(1, 2));
    let copy = one.clone();
    assert_eq!(copy, one);
    assert_eq!(copy.with_model("n".to_string(), text_rates(5, 6)).len(), 2);
    assert_eq!(one.len(), 1);
}

#[test]
fn cache_reads_never_outnumber_prompt_tokens() {
    let mut plugin = CostPlugin::new(CostConfig {
        pricing: PricingTable::new().with_model("m".to_string(), text_rates(3_000_000, 0)),
        ..Default::default()
    })
    .unwrap();
    let mut req = user_request("m");
    let estimate = estimate_of(&req);
    on_request(&mut plugin, &mut req).unwrap();
    let mut res = response_with("m", Vec::new());
    res.prompt_cache_usage =
        Some(PromptCacheUsage { read_tokens: estimate as u32, write_tokens: 0 });
    on_response_complete(&mut plugin, &res).unwrap();
    // A second response to the one request has no prompt tokens left to read.
    on_response_complete(&mut plugin, &res).unwrap();
    let usage = usage(&plugin);
    assert_eq!(usage.prompt_tokens, estimate);
    assert_eq!(usage.cache_read_tokens, estimate);
    let breakdown = plugin.breakdown();
    assert_eq!(breakdown.len(), 1);
    assert_eq!(breakdown[0].1.cache_read_tokens, estimate);
    assert_eq!(breakdown[0].1.prompt_tokens, estimate);
}

#[test]
fn the_breakdown_adds_up_to_the_usage() {
    let mut plugin = CostPlugin::new(CostConfig {
        max_tracked_models: 2,
        on_unpriced_model: UnpricedModelPolicy::CountTokensOnly,
        ..Default::default()
    })
    .unwrap();
    for model in ["a", "b", "c", "a", "d"] {
        let mut req = user_request(model);
        on_request(&mut plugin, &mut req).unwrap();
        let res = response_with(model, vec![MessageContentBlock::Text("an answer".to_string())]);
        on_response_complete(&mut plugin, &res).unwrap();
    }
    let usage = usage(&plugin);
    let breakdown = plugin.breakdown();
    assert_eq!(breakdown.len(), 3);
    let sum = |of: fn(&CostEntry) -> u64| breakdown.iter().map(|(_, e)| of(e)).sum::<u64>();
    assert_eq!(sum(|e| e.prompt_tokens), usage.prompt_tokens);
    assert_eq!(sum(|e| e.completion_tokens), usage.completion_tokens);
    assert_eq!(sum(|e| e.turns), usage.turns);
    assert_eq!(usage.turns, 5);
}
