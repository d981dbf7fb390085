[package]
name = "turso_io"
version = "0.1.0"
edition = "2021"
publish = false

[dependencies]
anyhow = "1"
crossbeam = "=0.8.5"
http = "=1.5.0"
httparse = "=1.10.1"
libc = "0.2"
serde = { version = "1", features = ["derive"] }
serde_json = "1"
slab = "=0.4.12"
tracing = "0.1"
turso_core = "=0.4.4"
