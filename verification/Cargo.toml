[package]
name = "rust_llm_inference"
version = "0.1.0"
edition = "2021"
publish = false

[dependencies]
candle-core = "0.8.2"
candle-nn = "0.8.2"
tokenizers = { version = "0.21.0", default-features = false, features = ["onig"] }
rand = "0.9"
burn = { version = "0.16", default-features = false, features = ["std", "ndarray", "autodiff", "train"] }
anyhow = "1.0"
serde = { version = "1.0", features = ["derive"] }
tokio = { version = "1", features = ["macros", "rt-multi-thread"] }
