//! Plugins around requests to a language model and its answers: budgets, rate limits, caching,
//! redaction, output guards, approvals, tools, sandboxed guests, entity extraction and a memory
//! that keeps a conversation within its window.

pub mod bytes;
pub mod error;
pub mod float;
pub mod json;
pub mod plugins;
pub mod request;
pub mod string_map;
pub mod text;
pub mod text_laws;
pub mod time;
pub mod tokenize;
pub mod types;
pub mod wire;
pub mod wire_laws;
