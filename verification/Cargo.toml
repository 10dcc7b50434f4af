[package]
name = "langextract"
version = "0.1.0"
edition = "2021"
publish = false

[dependencies]
serde = { version = "1", features = ["derive"] }
serde_json = "1"
serde_yaml = "0.9"
regex = "1"
uuid = { version = "1", features = ["v4"] }
semchunk-rs = "*"
thiserror = "*"
tokio = { version = "1", features = ["full"] }
reqwest = { version = "0.12", default-features = false, features = ["json", "rustls-tls"] }
futures = "0.3"
async-trait = "0.1"
async-openai = "*"
log = "0.4"
env_logger = "*"
dotenvy = "0.15"
clap = { version = "4", features = ["derive"] }
colored = "*"
console = "*"
indicatif = "*"
chrono = "0.4"
