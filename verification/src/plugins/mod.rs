//! The plugins.

pub mod cost;
pub mod cost_laws;
pub mod entity_extraction;
pub mod entity_id_laws;
pub mod entity_laws;
pub mod guardrail_laws;
pub mod guardrails;
pub mod hitl;
pub mod hitl_laws;
pub mod mcp;
pub mod mcp_laws;
pub mod memory;
pub mod prompt_cache;
pub mod prompt_cache_laws;
pub mod rate_limit;
pub mod rate_limit_laws;
pub mod redaction;
pub mod redaction_laws;
pub mod redaction_rule_laws;
pub mod sandbox;
pub mod sandbox_laws;
