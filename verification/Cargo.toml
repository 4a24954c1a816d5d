[package]
name = "cmdshiftai"
version = "1.0.0"
edition = "2021"
publish = false

[dependencies]
grep = "0.3"
ignore = "0.4"
regex = "1"
napi = { version = "2", default-features = false, features = ["napi4", "tokio_rt"] }
napi-derive = "2"
tokio = { version = "1", features = ["fs", "sync", "rt"] }
num_cpus = "1"
tracing = "0.1"
dashmap = "5"
serde = { version = "1", features = ["derive"] }
lazy_static = "1"
metrics = "0.22"
memory-stats = "1"
uuid = { version = "1", features = ["v4"] }
libc = "0.2"
winapi = { version = "0.3", features = ["processthreadsapi", "psapi"] }
