[package]
name = "kiwilua"
version = "0.1.0"
edition = "2021"
publish = false

[dependencies]
dashmap = "=6.2.1"
zip = { version = "=2.6.1", default-features = false, features = ["deflate"] }
log = "=0.4.35"
env_logger = "=0.11.11"
tokio = { version = "=1.54.1", features = ["macros", "rt-multi-thread", "net"] }
axum = "=0.7.9"
reqwest = { version = "=0.12.28", default-features = false, features = ["rustls-tls"] }
teloxide = { version = "=0.13.0", default-features = false, features = ["macros", "ctrlc_handler", "rustls"] }
takecell = "=0.1.1"
