# cuca_plugins

Plugins that stand between a program and a language model. Each looks at a request before it goes
out, at the pieces of an answer as they come in, or at the whole answer, and may change or refuse
what it sees.

| Module | What it does |
| --- | --- |
| `plugins::cost` | counts the tokens and the price of each turn and holds them to a budget |
| `plugins::entity_extraction` | holds extracted entities and relationships to a schema and turns them into a graph |
| `plugins::guardrails` | holds tool arguments and JSON answers to schemas, with bounded retries |
| `plugins::hitl` | puts risky tool calls before an approver and keeps an audit trail |
| `plugins::mcp` | routes tool calls to the tools of a server and renders their results |
| `plugins::memory` | a knowledge graph, and the compaction of a conversation that outgrows its window |
| `plugins::prompt_cache` | answers by the digest of their request, with lifetimes and recency |
| `plugins::rate_limit` | a token bucket with slots and a bounded queue |
| `plugins::redaction` | replaces secrets in requests |
| `plugins::sandbox` | decodes what a guest is given and bounds what it writes |

## Layout

- `src/` is the library. Its contracts are proved by Verus. Laws that relate several functions are
  public proof functions whose names begin with `law_`.
- `app/` is ordinary Rust around it: locks, clocks, files, threads, the WebAssembly engine, the
  connection to tool servers, and the serde forms of the library's types.
- `tests/` runs the library with the crates that it calls.

## What is taken on trust

Each call into another crate stands in a small function marked `external_body`, whose contract is
what Verus believes of the call. They are found in `bytes`, `json`, `text`, `tokenize` and, of the
plugins, in `guardrails`, `prompt_cache`, `rate_limit` and `sandbox`.

Floating point is not part of the library: where a fraction decides, `app/` does the arithmetic and
hands over the outcome.
