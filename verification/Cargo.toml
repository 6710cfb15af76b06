[package]
name = "json_tokenizer"
version = "0.1.0"
edition = "2021"
publish = false

[dependencies]
libc = "0.2"
mach = "0.3"
rand = { version = "0.8", features = ["small_rng"] }
serde = { version = "1", features = ["derive"] }
serde_json = "1"
