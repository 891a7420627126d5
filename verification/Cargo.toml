[package]
name = "minisgl_cpu"
version = "0.1.0"
edition = "2021"
publish = false

[dependencies]
anyhow = "*"
llm-tokenizer = "*"
serde = { version = "*", features = ["derive"] }
serde_json = "*"

[dev-dependencies]
rand = "*"
