[package]
name = "narserve"
version = "0.1.0"
edition = "2021"
publish = false

[dependencies]
hex = "0.4"
base64 = "0.13"
ed25519-dalek = "1"
anyhow = "1"
rocket = "0.5"
rocket_db_pools = { version = "0.1", features = ["sqlx_sqlite"] }
nix-nar = "*"

[dev-dependencies]
nix-base32 = "*"
