[package]
name = "skript_lsp"
version = "0.1.0"
edition = "2021"
publish = false

[dependencies]
serde = { version = "1", features = ["derive"] }
serde_json = "1"
tokio = { version = "1", features = ["rt-multi-thread", "macros", "io-std", "sync"] }
tower-lsp = "0.20"
ureq = "2"
zip = { version = "2", default-features = false, features = ["deflate"] }
tree-sitter = "0.25"
