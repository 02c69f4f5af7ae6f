[package]
name = "doctrack"
version = "0.1.0"
edition = "2021"
publish = false

[dependencies]
anyhow = "1"
dashmap = "*"
notify = "*"
notify-debouncer-mini = "*"
nucleo-matcher = "*"
rmcp = { version = "*", features = ["server", "transport-io"] }
serde_json = "1"
streaming-iterator = "*"
tokio = { version = "1", features = ["macros", "rt-multi-thread", "sync"] }
tower-lsp = "*"
tracing = "*"
tracing-subscriber = { version = "*", features = ["env-filter"] }
tree-sitter = "*"
tree-sitter-c = "*"
tree-sitter-cpp = "*"
tree-sitter-go = "*"
tree-sitter-java = "*"
tree-sitter-javascript = "*"
tree-sitter-python = "*"
tree-sitter-rust = "*"
tree-sitter-typescript = "*"
walkdir = "2"
