[package]
name = "given"
version = "0.1.0"
edition = "2021"
publish = false

[dependencies]
tree-sitter = "*"
tree-sitter-scala = "*"
anyhow = "*"
reqwest = { version = "*", default-features = false }
scraper = "*"
quick-xml = { version = "*", features = ["serialize"] }
serde = { version = "*", features = ["derive"] }
tokio = { version = "*", features = ["full"] }
async-trait = "*"
futures = "*"
