[package]
name = "contract_client"
version = "0.1.0"
edition = "2021"
publish = false

[dependencies]
anyhow = "*"
base64 = "*"
chrono = "*"
serde_json = "*"
structopt = "*"
strum = "*"
strum_macros = "*"
tokio = { version = "*", features = ["macros", "rt-multi-thread"] }
