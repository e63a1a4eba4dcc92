[package]
name = "multiplierless_rs"
version = "0.1.0"
edition = "2021"
publish = false

[dependencies]
clap = { version = "4", features = ["derive"] }
csd-rs = "*"
ellalgo-rs = "*"
ginger-rs = "*"
num-complex = "0.4"
realfft = "3"
rustfft = "6"
serde = { version = "1", features = ["derive"] }
serde_json = "1"
