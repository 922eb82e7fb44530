[package]
name = "ssspam_bot"
version = "0.1.0"
edition = "2021"
publish = false

[dependencies]
moka = { version = "*", features = ["sync"] }
strsim = "*"
rand = "*"
charset-normalizer-rs = "*"
encoding_rs = "*"
mp3-metadata = "*"
glob = "*"
notify = "*"
