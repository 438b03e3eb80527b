[package]
name = "bund_blobstore"
version = "0.1.0"
edition = "2021"
publish = false

[dependencies]
chrono = "=0.4.45"
strsim = "=0.11.1"
fxhash = "=0.2.1"
serde = { version = "=1.0.229", features = ["derive"] }
bincode = "=1.3.3"
redb = "=4.4.0"
uuid = { version = "=1.29.0", features = ["v4"] }
parking_lot = "=0.12.5"
murmurhash3 = "=0.0.5"
serde_json = "=1.0.154"
regex = "1"
rust-stemmers = "1"
