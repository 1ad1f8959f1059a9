//! The prompt cache: digests, lifetimes, recency and snapshots.

use cuca_plugins::float::{Double, Single};
use cuca_plugins::json::Json;
use cuca_plugins::plugins::prompt_cache::{
    digest_request, validate_snapshot, PromptCache, PromptCacheConfig, PromptCacheEntry,
    PromptCacheError, PromptCacheImportReport, PromptCacheSnapshot,
};
use cuca_plugins::request::{
    PromptCacheBreakpoint, PromptCacheDirective, UnifiedRequest, UnifiedResponse,
};
use cuca_plugins::time::TimeSpan;
use cuca_plugins::types::{MessageContentBlock, ProviderEndpoint, ToolDefinition};
use cuca_plugins::wire::request_json;
use sha2::Digest;
use std::cell::Cell;
use std::collections::HashMap;
use std::rc::Rc;

fn single(value: f32) -> Single {
    Single {
        bits: value.to_bits(),
        text: value.to_string(),
        json_text: serde_json::Value::from(f64::from(value)).to_string(),
    }
}

fn json(text: &str) -> Json {
    Json::parse(text).expect("valid JSON")
}

/// What a cache holds.
struct State {
    entries: HashMap<String, PromptCacheEntry>,
    lru_order: Vec<String>,
}

/// A cache with a clock that moves only when it is set.
struct Clocked {
    cache: PromptCache,
    now: Rc<Cell<u64>>,
}

impl Clocked {
    fn insert(
        &mut self,
        request: UnifiedRequest,
        response: UnifiedResponse,
    ) -> Result<(), PromptCacheError> {
        self.cache.insert(request, response, self.now.get())
    }

    fn lookup(&mut self, key: &str) -> Option<PromptCacheEntry> {
        self.cache.lookup(key, self.now.get())
    }

    fn snapshot_at(&self, now: u64) -> PromptCacheSnapshot {
        self.cache.snapshot(now)
    }

    fn replace_snapshot_at(
        &mut self,
        snapshot: PromptCacheSnapshot,
        now: u64,
    ) -> Result<PromptCacheImportReport, PromptCacheError> {
        self.cache.replace_snapshot(snapshot, now)
    }

    fn len(&self) -> usize {
        self.cache.len()
    }

    fn is_empty(&self) -> bool {
        self.cache.is_empty()
    }

    fn capacity(&self) -> usize {
        self.cache.capacity()
    }

    fn state(&self) -> State {
        let held = self.cache.entries();
        State {
            entries: held.iter().map(|e| (e.key.clone(), e.clone())).collect(),
            lru_order: held.iter().map(|e| e.key.clone()).collect(),
        }
    }
}

fn cache_with_clock(capacity: usize, ttl_ms: u64, start: u64) -> (Clocked, Rc<Cell<u64>>) {
    let now = Rc::new(Cell::new(start));
    let config = PromptCacheConfig::new(capacity, TimeSpan::from_millis(ttl_ms)).unwrap();
    let cache = PromptCache::new(config).unwrap_or_else(|e| panic!("{e:?}"));
    (Clocked { cache, now: now.clone() }, now)
}

fn sample_request(model: &str) -> UnifiedRequest {
    UnifiedRequest::new(model.to_string())
        .add_system_message("be concise".to_string())
        .add_user_message("hello".to_string())
}

fn sample_response(model: &str) -> UnifiedResponse {
    UnifiedResponse {
        model: model.to_string(),
        provider: ProviderEndpoint::OpenAi,
        duration_secs: Double::one(),
        prompt_tokens: 10,
        completion_tokens: 5,
        finish_reason: Some("stop".to_string()),
        content: vec![MessageContentBlock::Text("ok".to_string())],
        prompt_cache_usage: None,
    }
}

fn entry_for(
    request: UnifiedRequest,
    response: UnifiedResponse,
    stored_at: u64,
    ttl_ms: u64,
    rank: usize,
) -> PromptCacheEntry {
    let key = digest_request(&request).expect("digest should succeed");
    PromptCacheEntry {
        key,
        request,
        response,
        stored_at_unix_ms: stored_at,
        expires_at_unix_ms: stored_at + ttl_ms,
        lru_rank: rank,
    }
}

// --- digest_request ---

#[test]
fn digest_is_64_lowercase_hex_chars() {
    let digest = digest_request(&sample_request("model-a")).unwrap();
    assert_eq!(digest.len(), 64);
    assert!(
        digest
            .chars()
            .all(|c| c.is_ascii_digit() || ('a'..='f').contains(&c))
    );
}

#[test]
fn digest_is_deterministic_for_the_same_request() {
    let a = digest_request(&sample_request("model-a")).unwrap();
    let b = digest_request(&sample_request("model-a")).unwrap();
    assert_eq!(a, b);
}

#[test]
fn digest_changes_with_every_effective_request_field() {
    let base = sample_request("model-a");
    let base_digest = digest_request(&base).unwrap();

    let mut provider_changed = base.clone();
    provider_changed.provider = ProviderEndpoint::Anthropic;
    assert_ne!(digest_request(&provider_changed).unwrap(), base_digest);

    let messages_changed = base.clone().add_user_message("one more turn".to_string());
    assert_ne!(digest_request(&messages_changed).unwrap(), base_digest);

    let temperature_changed = base.clone().set_temperature(single(0.9));
    assert_ne!(digest_request(&temperature_changed).unwrap(), base_digest);

    let max_tokens_changed = base.clone().set_max_tokens(64);
    assert_ne!(digest_request(&max_tokens_changed).unwrap(), base_digest);

    let stream_changed = base.clone().with_stream(false);
    assert_ne!(digest_request(&stream_changed).unwrap(), base_digest);

    let thinking_changed = base.clone().enable_thinking(None);
    assert_ne!(digest_request(&thinking_changed).unwrap(), base_digest);

    let tools_changed = base.clone().add_tool(ToolDefinition {
        name: "search".to_string(),
        description: "search the web".to_string(),
        input_schema: json(r#"{ "type": "object" }"#),
    });
    assert_ne!(digest_request(&tools_changed).unwrap(), base_digest);

    let directive_changed =
        base.clone()
            .with_prompt_cache(PromptCacheDirective::Ephemeral {
                breakpoints: vec![PromptCacheBreakpoint {
                    message_index: 0,
                    block_index: 0,
                }],
            });
    assert_ne!(digest_request(&directive_changed).unwrap(), base_digest);
}

#[test]
fn digest_ignores_nested_object_key_order_but_preserves_array_order() {
    // Same tool schema, differently ordered keys at parse time.
    let schema_a: Json = json(r#"{"type":"object","properties":{"q":{"type":"string"}}}"#);
    let schema_b: Json = json(r#"{"properties":{"q":{"type":"string"}},"type":"object"}"#);

    let tool_a = ToolDefinition {
        name: "search".to_string(),
        description: "d".to_string(),
        input_schema: schema_a,
    };
    let tool_b = ToolDefinition {
        name: "search".to_string(),
        description: "d".to_string(),
        input_schema: schema_b,
    };
    let request_a = sample_request("model-a").add_tool(tool_a.clone());
    let request_b = sample_request("model-a").add_tool(tool_b.clone());
    assert_eq!(
        digest_request(&request_a).unwrap(),
        digest_request(&request_b).unwrap(),
        "object key order must not affect the digest"
    );

    // Same two tools, reversed order: array order IS significant.
    let other_tool = ToolDefinition {
        name: "other".to_string(),
        description: "d".to_string(),
        input_schema: json("{}"),
    };
    let request_forward = sample_request("model-a")
        .add_tool(tool_a.clone())
        .add_tool(other_tool.clone());
    let request_reversed = sample_request("model-a")
        .add_tool(other_tool)
        .add_tool(tool_a);
    assert_ne!(
        digest_request(&request_forward).unwrap(),
        digest_request(&request_reversed).unwrap(),
        "array order must affect the digest"
    );
}

#[test]
fn digest_is_unaffected_by_client_only_values() {
    // UnifiedRequest never carries credentials/base URLs/HTTP clients;
    // two structurally-equal requests always digest the same regardless
    // of what a caller's CucaClient is separately configured with.
    let a = sample_request("model-a");
    let b = sample_request("model-a");
    assert_eq!(digest_request(&a).unwrap(), digest_request(&b).unwrap());
}

#[test]
fn digest_rejects_non_finite_temperature() {
    let request = sample_request("model-a").set_temperature(single(f32::NAN));
    let err = digest_request(&request).unwrap_err();
    assert!(
        matches!(err, PromptCacheError::Validation { field, .. } if field == "temperature")
    );

    let request = sample_request("model-a").set_temperature(single(f32::INFINITY));
    assert!(digest_request(&request).is_err());
}

// --- config validation ---

#[test]
fn config_rejects_zero_capacity_and_zero_ttl() {
    assert!(matches!(
        PromptCacheConfig::new(0, TimeSpan::from_millis(100)),
        Err(PromptCacheError::Config(_))
    ));
    assert!(matches!(
        PromptCacheConfig::new(1, TimeSpan::from_millis(0)),
        Err(PromptCacheError::Config(_))
    ));
    assert!(PromptCacheConfig::new(1, TimeSpan::from_millis(1)).is_ok());
}

// --- LRU / TTL policy ---

#[test]
fn expiry_starts_at_insertion_time() {
    let (mut cache, _clock) = cache_with_clock(2, 100, 1_000);
    cache
        .insert(sample_request("a"), sample_response("a"))
        .unwrap();
    let key = digest_request(&sample_request("a")).unwrap();
    let state = cache.state();
    let entry = state.entries.get(&key).unwrap();
    assert_eq!(entry.stored_at_unix_ms, 1_000);
    assert_eq!(entry.expires_at_unix_ms, 1_100);
}

#[test]
fn expired_lookup_misses_and_physically_removes_the_entry() {
    let (mut cache, clock) = cache_with_clock(2, 100, 0);
    cache
        .insert(sample_request("a"), sample_response("a"))
        .unwrap();
    let key = digest_request(&sample_request("a")).unwrap();

    clock.set(200); // past the 100ms ttl
    assert_eq!(cache.lookup(&key), None);

    let state = cache.state();
    assert!(
        !state.entries.contains_key(&key),
        "expired entry must be physically removed by lookup, not just filtered"
    );
    assert!(!state.lru_order.contains(&key));
}

#[test]
fn insertion_prunes_expired_entries() {
    let (mut cache, clock) = cache_with_clock(5, 50, 0);
    cache
        .insert(sample_request("a"), sample_response("a"))
        .unwrap();
    let key_a = digest_request(&sample_request("a")).unwrap();

    clock.set(1_000); // far past a's ttl; no lookup performed on a
    cache
        .insert(sample_request("b"), sample_response("b"))
        .unwrap();

    let state = cache.state();
    assert!(
        !state.entries.contains_key(&key_a),
        "insert must prune expired entries even without a lookup"
    );
}

#[test]
fn hit_recency_changes_only_for_a_live_key() {
    let (mut cache, _clock) = cache_with_clock(3, 1_000, 0);
    cache
        .insert(sample_request("a"), sample_response("a"))
        .unwrap();
    cache
        .insert(sample_request("b"), sample_response("b"))
        .unwrap();
    let key_a = digest_request(&sample_request("a")).unwrap();
    let key_b = digest_request(&sample_request("b")).unwrap();

    {
        let state = cache.state();
        assert_eq!(state.lru_order, vec![key_a.clone(), key_b.clone()]);
    }

    // Live hit on a: a moves to the back (most recently used).
    cache.lookup(&key_a);
    {
        let state = cache.state();
        assert_eq!(state.lru_order, vec![key_b.clone(), key_a.clone()]);
    }

    // Miss on an unknown key changes nothing.
    cache.lookup("does-not-exist");
    let state = cache.state();
    assert_eq!(state.lru_order, vec![key_b, key_a]);
}

#[test]
fn replacement_refreshes_the_key_without_exceeding_capacity() {
    let (mut cache, clock) = cache_with_clock(2, 1_000, 0);
    cache
        .insert(sample_request("a"), sample_response("a"))
        .unwrap();
    cache
        .insert(sample_request("b"), sample_response("b"))
        .unwrap();
    let key_a = digest_request(&sample_request("a")).unwrap();
    let key_b = digest_request(&sample_request("b")).unwrap();

    clock.set(500);
    cache
        .insert(sample_request("a"), sample_response("a-v2"))
        .unwrap();

    let state = cache.state();
    assert_eq!(
        state.entries.len(),
        2,
        "replacement must not grow the cache"
    );
    assert_eq!(state.lru_order, vec![key_b, key_a.clone()]);
    let refreshed = state.entries.get(&key_a).unwrap();
    assert_eq!(refreshed.stored_at_unix_ms, 500);
    assert_eq!(refreshed.response.model, "a-v2");
}

#[test]
fn eviction_removes_rank_zero() {
    let (mut cache, _clock) = cache_with_clock(2, 1_000, 0);
    cache
        .insert(sample_request("a"), sample_response("a"))
        .unwrap();
    cache
        .insert(sample_request("b"), sample_response("b"))
        .unwrap();
    cache
        .insert(sample_request("c"), sample_response("c"))
        .unwrap();

    let key_a = digest_request(&sample_request("a")).unwrap();
    let key_b = digest_request(&sample_request("b")).unwrap();
    let key_c = digest_request(&sample_request("c")).unwrap();

    let state = cache.state();
    assert!(
        !state.entries.contains_key(&key_a),
        "rank-0 (oldest) must be evicted"
    );
    assert_eq!(state.lru_order, vec![key_b, key_c]);
}

#[test]
fn rankings_are_deterministic_regardless_of_hash_map_order() {
    let (mut cache, _clock) = cache_with_clock(10, 1_000, 0);
    let models = ["m1", "m2", "m3", "m4", "m5"];
    for model in models {
        cache
            .insert(sample_request(model), sample_response(model))
            .unwrap();
    }
    let snapshot = cache.snapshot_at(0);
    // Sorted by key (independent of hash-map iteration order).
    let mut sorted_keys = snapshot
        .entries
        .iter()
        .map(|e| e.key.clone())
        .collect::<Vec<_>>();
    sorted_keys.sort();
    assert_eq!(
        snapshot
            .entries
            .iter()
            .map(|e| e.key.clone())
            .collect::<Vec<_>>(),
        sorted_keys
    );
    // Ranks match insertion order (0..=4) independent of hash-map order.
    let mut ranks: Vec<usize> = snapshot.entries.iter().map(|e| e.lru_rank).collect();
    ranks.sort();
    assert_eq!(ranks, vec![0, 1, 2, 3, 4]);
}

// --- usage gauge ---

#[test]
fn len_tracks_resident_entries_against_capacity() {
    let (mut cache, clock) = cache_with_clock(2, 100, 0);
    assert_eq!(cache.capacity(), 2);
    assert!(cache.is_empty());
    assert_eq!(cache.len(), 0);

    cache
        .insert(sample_request("a"), sample_response("a"))
        .unwrap();
    assert_eq!(cache.len(), 1);
    assert!(!cache.is_empty());

    // Capacity is a hard bound: a third insert evicts rather than grows.
    cache
        .insert(sample_request("b"), sample_response("b"))
        .unwrap();
    cache
        .insert(sample_request("c"), sample_response("c"))
        .unwrap();
    assert_eq!(cache.len(), 2);

    // Resident-but-expired entries still count (documented upper bound);
    // a lookup prunes the one it touches.
    clock.set(1_000);
    assert_eq!(cache.len(), 2);
    let key_c = digest_request(&sample_request("c")).unwrap();
    assert_eq!(cache.lookup(&key_c), None);
    assert_eq!(cache.len(), 1);
}

// --- snapshot / replace_snapshot ---

#[test]
fn snapshot_entries_are_sorted_by_key() {
    let (mut cache, _clock) = cache_with_clock(10, 1_000, 0);
    for model in ["zeta", "alpha", "mu"] {
        cache
            .insert(sample_request(model), sample_response(model))
            .unwrap();
    }
    let snapshot = cache.snapshot_at(0);
    let keys: Vec<String> = snapshot.entries.iter().map(|e| e.key.clone()).collect();
    let mut sorted = keys.clone();
    sorted.sort();
    assert_eq!(keys, sorted);
}

#[test]
fn snapshot_at_ranks_are_contiguous_when_an_entry_is_resident_but_expired() {
    // Regression test: `snapshot_at` must not derive exported `lru_rank`
    // values from positions in the UNPRUNED `lru_order` while filtering
    // expired entries out of the exported set — that produces
    // non-contiguous ranks that `validate_snapshot` (and therefore
    // `replace_snapshot_at`) rejects. Build three entries so that the
    // oldest is resident-but-expired (no `insert`/`lookup` call has run
    // since it crossed its TTL) while the other two remain live.
    let (mut cache, _clock) = cache_with_clock(5, 1_000, 0);
    cache
        .insert(sample_request("a"), sample_response("a"))
        .unwrap();
    _clock.set(300);
    cache
        .insert(sample_request("b"), sample_response("b"))
        .unwrap();
    _clock.set(600);
    cache
        .insert(sample_request("c"), sample_response("c"))
        .unwrap();

    // "a" (stored at 0, ttl 1_000) has expired by 1_100, but neither of
    // the later inserts triggered a prune of it (both ran before it
    // expired), so it stays physically resident in `lru_order`/`entries`.
    let now = 1_100;
    let b_key = digest_request(&sample_request("b")).unwrap();
    let c_key = digest_request(&sample_request("c")).unwrap();

    let snapshot = cache.snapshot_at(now);
    assert_eq!(
        snapshot.entries.len(),
        2,
        "the resident-but-expired entry must be excluded from the export"
    );
    let mut ranks: Vec<usize> = snapshot.entries.iter().map(|e| e.lru_rank).collect();
    ranks.sort_unstable();
    assert_eq!(
        ranks,
        vec![0, 1],
        "exported ranks must be contiguous over the live subset, not over \
         the unpruned lru_order positions"
    );

    let report = cache
        .replace_snapshot_at(snapshot, now)
        .expect("a live export must always re-import cleanly");
    assert_eq!(report.imported_entries, 2);
    assert_eq!(report.expired_entries, 0);
    assert_eq!(report.capacity_evictions, 0);

    // Live entries and their relative recency order are preserved: "b"
    // (older) then "c" (newer).
    let state = cache.state();
    assert_eq!(state.lru_order, vec![b_key.clone(), c_key.clone()]);
    assert_eq!(state.entries.get(&b_key).unwrap().lru_rank, 0);
    assert_eq!(state.entries.get(&c_key).unwrap().lru_rank, 1);
}

#[test]
fn replace_snapshot_rejects_malformed_key() {
    let (mut cache, _clock) = cache_with_clock(2, 1_000, 0);
    let mut entry = entry_for(sample_request("a"), sample_response("a"), 0, 1_000, 0);
    entry.key = "not-a-valid-hex-digest".to_string();
    let result = cache.replace_snapshot_at(
        PromptCacheSnapshot {
            entries: vec![entry],
        },
        0,
    );
    assert!(matches!(result, Err(PromptCacheError::Validation { .. })));
}

#[test]
fn replace_snapshot_rejects_stored_at_not_before_expires_at() {
    let (mut cache, _clock) = cache_with_clock(2, 1_000, 0);
    let mut entry = entry_for(sample_request("a"), sample_response("a"), 500, 1_000, 0);
    entry.expires_at_unix_ms = 500; // stored_at == expires_at
    let result = cache.replace_snapshot_at(
        PromptCacheSnapshot {
            entries: vec![entry],
        },
        0,
    );
    assert!(matches!(result, Err(PromptCacheError::Validation { .. })));
}

#[test]
fn replace_snapshot_rejects_non_contiguous_or_duplicate_ranks() {
    let (mut cache, _clock) = cache_with_clock(3, 1_000, 0);
    let entry_a = entry_for(sample_request("a"), sample_response("a"), 0, 1_000, 0);
    let entry_b = entry_for(sample_request("b"), sample_response("b"), 0, 1_000, 2); // gap: no rank 1
    let result = cache.replace_snapshot_at(
        PromptCacheSnapshot {
            entries: vec![entry_a, entry_b],
        },
        0,
    );
    assert!(matches!(result, Err(PromptCacheError::Validation { .. })));

    let entry_a = entry_for(sample_request("a"), sample_response("a"), 0, 1_000, 0);
    let entry_b = entry_for(sample_request("b"), sample_response("b"), 0, 1_000, 0); // duplicate rank
    let result = cache.replace_snapshot_at(
        PromptCacheSnapshot {
            entries: vec![entry_a, entry_b],
        },
        0,
    );
    assert!(matches!(result, Err(PromptCacheError::Validation { .. })));
}

#[test]
fn replace_snapshot_rejects_duplicate_keys_before_expiration_filtering() {
    let (mut cache, _clock) = cache_with_clock(3, 1_000, 0);
    let live = entry_for(sample_request("a"), sample_response("a"), 0, 1_000, 0);
    let mut already_expired = entry_for(sample_request("a"), sample_response("a"), 0, 1_000, 1);
    already_expired.expires_at_unix_ms = 1; // would be pruned as expired at now=999999
    let result = cache.replace_snapshot_at(
        PromptCacheSnapshot {
            entries: vec![live, already_expired],
        },
        999_999,
    );
    assert!(
        matches!(result, Err(PromptCacheError::Validation { .. })),
        "duplicate keys must reject even when one copy would later be filtered as expired"
    );
}

#[test]
fn replace_snapshot_rejects_digest_mismatch() {
    let (mut cache, _clock) = cache_with_clock(2, 1_000, 0);
    let mut entry = entry_for(sample_request("a"), sample_response("a"), 0, 1_000, 0);
    entry.key = "0".repeat(64); // well-formed but wrong
    let result = cache.replace_snapshot_at(
        PromptCacheSnapshot {
            entries: vec![entry],
        },
        0,
    );
    assert!(matches!(result, Err(PromptCacheError::Validation { .. })));
}

#[test]
fn replace_snapshot_skips_and_reports_expired_entries() {
    let (mut cache, _clock) = cache_with_clock(5, 1_000, 0);
    let live = entry_for(sample_request("a"), sample_response("a"), 0, 1_000, 0);
    let expired = entry_for(sample_request("b"), sample_response("b"), 0, 100, 1);
    let report = cache
        .replace_snapshot_at(
            PromptCacheSnapshot {
                entries: vec![live.clone(), expired],
            },
            500, // past b's expiry (100ms ttl), before a's (1000ms ttl)
        )
        .unwrap();
    assert_eq!(report.expired_entries, 1);
    assert_eq!(report.imported_entries, 1);
    assert_eq!(report.capacity_evictions, 0);

    let snapshot = cache.snapshot_at(500);
    assert_eq!(snapshot.entries.len(), 1);
    assert_eq!(snapshot.entries[0].key, live.key);
}

#[test]
fn replace_snapshot_retains_newest_ranks_when_capacity_shrinks() {
    let (mut cache, _clock) = cache_with_clock(2, 1_000, 0); // destination capacity = 2
    let oldest = entry_for(sample_request("a"), sample_response("a"), 0, 1_000, 0);
    let middle = entry_for(sample_request("b"), sample_response("b"), 0, 1_000, 1);
    let newest = entry_for(sample_request("c"), sample_response("c"), 0, 1_000, 2);
    let report = cache
        .replace_snapshot_at(
            PromptCacheSnapshot {
                entries: vec![oldest.clone(), middle.clone(), newest.clone()],
            },
            0,
        )
        .unwrap();
    assert_eq!(report.capacity_evictions, 1);
    assert_eq!(report.imported_entries, 2);
    assert_eq!(report.expired_entries, 0);

    let state = cache.state();
    assert!(!state.entries.contains_key(&oldest.key));
    assert!(state.entries.contains_key(&middle.key));
    assert!(state.entries.contains_key(&newest.key));
    assert_eq!(
        state.lru_order,
        vec![middle.key.clone(), newest.key.clone()]
    );
    // Ranks renumbered contiguously from 0.
    assert_eq!(state.entries.get(&middle.key).unwrap().lru_rank, 0);
    assert_eq!(state.entries.get(&newest.key).unwrap().lru_rank, 1);
}

#[test]
fn replace_snapshot_is_all_or_nothing() {
    let (mut cache, _clock) = cache_with_clock(2, 1_000, 0);
    cache
        .insert(
            sample_request("pre-existing"),
            sample_response("pre-existing"),
        )
        .unwrap();

    let mut bad_entry = entry_for(sample_request("a"), sample_response("a"), 0, 1_000, 0);
    bad_entry.key = "bad".to_string();
    let result = cache.replace_snapshot_at(
        PromptCacheSnapshot {
            entries: vec![bad_entry],
        },
        0,
    );
    assert!(result.is_err());

    // The pre-existing entry must still be present: no partial mutation.
    let snapshot = cache.snapshot_at(0);
    assert_eq!(snapshot.entries.len(), 1);
}

#[test]
fn the_digest_is_the_sha256_of_the_canonical_text() {
    let request = UnifiedRequest::new("m".to_string()).add_user_message("hi".to_string());
    let canonical = cuca_plugins::wire::request_json(&request).unwrap().to_text();
    let expected: String = sha2::Sha256::digest(canonical.as_bytes())
        .iter()
        .map(|byte| format!("{byte:02x}"))
        .collect();
    assert_eq!(digest_request(&request).unwrap(), expected);
}

#[test]
fn errors_have_their_texts() {
    assert_eq!(
        PromptCacheConfig::new(0, TimeSpan::from_secs(1)).unwrap_err().to_text(),
        "prompt cache configuration error: capacity must be non-zero"
    );
    let bad = PromptCacheSnapshot {
        entries: vec![PromptCacheEntry {
            key: "x".to_string(),
            ..entry_for(sample_request("a"), sample_response("a"), 0, 1, 0)
        }],
    };
    assert!(matches!(
        validate_snapshot(&bad),
        Err(PromptCacheError::Validation { .. })
    ));
}

#[test]
fn a_stored_answer_is_found_until_it_expires() {
    let (mut cache, clock) = cache_with_clock(1, 10, 5);
    let key = digest_request(&sample_request("a")).unwrap();
    cache.insert(sample_request("a"), sample_response("answer")).unwrap();
    clock.set(14);
    assert_eq!(cache.lookup(&key).unwrap().response.model, "answer");
    clock.set(15);
    assert_eq!(cache.lookup(&key), None);
}

#[test]
fn a_miss_changes_nothing() {
    let (mut cache, _clock) = cache_with_clock(2, 10, 0);
    cache.insert(sample_request("a"), sample_response("a")).unwrap();
    let before = cache.state();
    assert_eq!(cache.lookup("nothing"), None);
    let after = cache.state();
    assert_eq!(after.lru_order, before.lru_order);
    assert_eq!(after.entries, before.entries);
}

// --- requests as JSON ---

#[test]
fn requests_that_differ_have_different_json() {
    let text = |r: &UnifiedRequest| request_json(r).expect("a request").to_text();
    let mut plain = sample_request("model-a");
    plain.messages[1].content = vec![MessageContentBlock::Text("hello".to_string())];
    let mut thought = sample_request("model-a");
    thought.messages[1].content = vec![MessageContentBlock::Thinking {
        reasoning: "hello".to_string(),
        signature: None,
    }];
    let mut signed = sample_request("model-a");
    signed.messages[1].content = vec![MessageContentBlock::Thinking {
        reasoning: "hello".to_string(),
        signature: Some("hello".to_string()),
    }];
    let mut named = sample_request("model-a");
    named.messages[1].name = Some("hello".to_string());
    let all = [text(&plain), text(&thought), text(&signed), text(&named)];
    for (i, a) in all.iter().enumerate() {
        for (j, b) in all.iter().enumerate() {
            assert_eq!(i == j, a == b);
        }
    }
    assert_eq!(
        text(&UnifiedRequest::new("m".to_string())),
        "{\"max_tokens\":null,\"messages\":[],\"model\":\"m\",\"prompt_cache\":null,\
         \"provider\":\"OpenAi\",\"stream\":true,\"temperature\":null,\"thinking\":null,\
         \"tools\":[]}"
    );
}

#[test]
fn a_snapshot_comes_back_into_any_cache_with_room() {
    let (mut source, clock) = cache_with_clock(4, 1_000, 0);
    for name in ["a", "b"] {
        source.insert(sample_request(name), sample_response(name)).unwrap();
    }
    clock.set(500);
    source.insert(sample_request("c"), sample_response("c")).unwrap();
    // The first two are over their time, and still resident.
    let snapshot = source.snapshot_at(1_200);
    assert_eq!(snapshot.entries.len(), 1);
    for room in [1, 2, 9] {
        let (mut cache, _clock) = cache_with_clock(room, 1_000, 1_200);
        let report = cache.replace_snapshot_at(snapshot.clone(), 1_200).unwrap();
        assert_eq!(report.imported_entries, 1);
        assert_eq!(report.capacity_evictions, 0);
        assert_eq!(cache.snapshot_at(1_200), snapshot);
    }
}
