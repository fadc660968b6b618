[package]
name = "avatracker"
version = "0.1.0"
edition = "2021"
publish = false

[dependencies]
anyhow = "=1.0.104"
axum = { version = "=0.8.9", features = ["multipart"] }
blake3 = { version = "=1.8.7", features = ["pure"] }
dotenvy = "=0.15.7"
ego-tree = "=0.11.1"
log = "=0.4.35"
maud = { version = "=0.27.0", features = ["axum"] }
nanoid = "=0.4.0"
poise = "=0.6.2"
pretty_env_logger = "=0.5.0"
reqwest = { version = "=0.12.28", default-features = false, features = ["rustls-tls"] }
sanitize-filename = "=0.6.0"
scraper = "=0.29.0"
serde = { version = "=1.0.229", features = ["derive"] }
sqlx = { version = "=0.8.6", default-features = false, features = ["runtime-tokio", "postgres", "uuid", "time", "macros"] }
time = "=0.3.55"
tokio = { version = "=1.54.1", features = ["full"] }
tower-http = { version = "=0.6.11", features = ["fs"] }
tracing = "=0.1.44"
uuid = { version = "=1.29.0", features = ["v7"] }
