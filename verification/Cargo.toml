[package]
name = "disc_xplorer"
version = "0.2.3"
edition = "2021"
publish = false

[dependencies]
aes = "0.8"
cbc = "0.1"
chd = "0.3"
flac-bound = "0.3"
iso9660 = "0.1"
mp3lame-encoder = "0.2"
serde = { version = "1", features = ["derive"] }
serde_json = "1"
