[package]
name = "canonical"
version = "0.1.0"
edition = "2021"
publish = false

[dependencies]
arc-swap = "1"
axum = "*"
mimalloc = "*"
once_cell = "1"
rayon = "1"
rustc-hash = "2"
serde = { version = "1", features = ["derive"] }
serde_json = "1"
stacker = "0.1"
thread_local_collect = "*"
tokio = { version = "1", features = ["net", "rt-multi-thread", "macros"] }
union-find = "*"
