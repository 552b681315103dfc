[package]
name = "indexed_merkle_tree"
version = "0.1.0"
edition = "2021"
publish = false

[dependencies]
light-poseidon = "=0.4.0"
ark-bn254 = "=0.5.0"
hex = "=0.4.3"
serde = { version = "=1.0.229", features = ["derive"] }
serde_json = "=1.0.151"
primitive-types = "=0.14.0"
actix-web = "=4.15.0"
env_logger = "=0.11.11"
utoipa = "=6.0.0"
