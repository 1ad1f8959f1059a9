[package]
name = "cuca_plugins"
version = "0.1.0"
edition = "2021"
publish = false

[dependencies]
base64 = "=0.23.1"
jsonschema = { version = "=0.46.10", default-features = false }
memchr = "=2.8.3"
rmcp = { version = "=3.8.0", features = ["client", "transport-child-process", "transport-streamable-http-client-reqwest"] }
serde = { version = "*", features = ["derive"] }
serde_json = "=1.0.154"
sha2 = "=0.11.1"
tiktoken-rs = "=0.12.1"
tokio = { version = "*", features = ["rt", "sync", "time", "macros", "process"] }
tracing = "*"
wasmtime = { version = "=46.0.3", default-features = false, features = ["cranelift", "runtime", "std", "wat"] }
