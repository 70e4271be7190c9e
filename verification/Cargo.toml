[package]
name = "ngrammatic"
version = "0.1.0"
edition = "2021"
publish = false

[dependencies]
string-interner = "=0.20.0"
rayon = "=1.12.0"
dsi-bitstream = "=0.10.1"
serde = { version = "=1.0.229", features = ["derive"] }
