[package]
name = "fda_mumbai_tracker"
version = "0.1.0"
edition = "2021"
publish = false

[dependencies]
anyhow = "1"
chrono = "0.4"
dotenvy = "0.15"
reqwest = { version = "0.12", default-features = false, features = ["json", "rustls-tls"] }
rss = "2"
scraper = "*"
serde = { version = "1", features = ["derive"] }
serde_json = "1"
serde_urlencoded = "0.7"
sqlx = { version = "0.8", default-features = false, features = ["postgres", "runtime-tokio", "tls-rustls", "chrono", "migrate", "macros"] }
tokio = { version = "1", features = ["macros", "rt-multi-thread", "time", "sync"] }
urlencoding = "2"
vercel_runtime = "*"
