[package]
name = "shred_sniper"
version = "0.1.0"
edition = "2021"
publish = false

[dependencies]
bincode = "=1.3.3"
opentelemetry = { version = "0.31", features = ["metrics"] }
opentelemetry-appender-tracing = "0.31"
opentelemetry-otlp = { version = "0.31", default-features = false, features = ["http-proto", "reqwest-blocking-client", "metrics", "logs"] }
opentelemetry_sdk = { version = "0.31", default-features = false, features = ["metrics", "logs"] }
opentelemetry-semantic-conventions = "0.31"
reed-solomon-erasure = "=6.0.0"
rustc-hash = "=2.1.3"
serde_json = "1"
signal-hook = "0.3"
solana-commitment-config = "3"
solana-hash = "=4.7.0"
solana-keypair = "=3.1.2"
solana-packet = "=4.4.1"
solana-sha256-hasher = { version = "=3.1.0", features = ["sha2"] }
solana-signature = { version = "=3.6.0", features = ["verify"] }
solana-signer = "=3.0.1"
solana-transaction = { version = "=3.1.0", features = ["bincode", "serde"] }
tracing = "0.1"
tracing-subscriber = { version = "0.3", features = ["env-filter"] }
