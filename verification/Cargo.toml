[package]
name = "llmchain"
version = "0.1.0"
edition = "2021"
publish = false

[dependencies]
anyhow = "=1.0.104"
async-openai = { version = "=0.42.1", features = ["chat-completion", "embedding"] }
async-trait = "=0.1.92"
