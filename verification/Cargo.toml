[package]
name = "disc_xplorer"
version = "0.1.0"
edition = "2021"
publish = false

[dependencies]
aes = "0.8"
cbc = "0.1"
blake3 = "1"
bzip2-rs = "0.1"
flate2 = "1"
lzma-rs = { version = "0.3", features = ["raw_decoder"] }
zstd = "0.13"
encoding_rs = "0.8"
fs2 = "0.4"
iso9660 = "0.1"
chd = "0.3"
serde = { version = "1", features = ["derive"] }
serde_json = "1"
flac-bound = "0.3"
mp3lame-encoder = "0.2"
