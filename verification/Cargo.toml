[package]
name = "fnhost"
version = "0.1.0"
edition = "2021"
publish = false

[dependencies]
axum = "*"
deno_core = "*"
rusqlite = { version = "*", features = ["bundled"] }
time = { version = "*", features = ["formatting", "parsing"] }
tokio = { version = "*", features = ["macros", "rt-multi-thread", "net"] }
tracing = "*"
tracing-subscriber = { version = "*", features = ["env-filter", "fmt", "time"] }
