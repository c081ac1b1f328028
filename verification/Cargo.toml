[package]
name = "omakase"
version = "0.1.0"
edition = "2021"
publish = false

[dependencies]
varisat = "=0.2.2"
sha2 = "=0.11.0"
anyhow = "=1.0.104"
clap = { version = "=4.6.7", features = ["derive"] }
serde = { version = "=1.0.229", features = ["derive"] }
toml = "=1.1.7"
toml_edit = "=0.25.16"
reqwest = { version = "=0.13.5", default-features = false }
tokio = { version = "=1.53.2", features = ["rt", "macros"] }
dialoguer = "=0.12.0"
console = "=0.16.6"
indicatif = "=0.18.6"
tabled = "=0.22.0"
rayon = "=1.12.0"
flate2 = "*"
lzma-rs = "*"
